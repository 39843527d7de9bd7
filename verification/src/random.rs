//! The random source that every rule draws from, and the draws that the
//! rules share.
//!
//! The source is a [`StdRng`] that the caller owns and hands to each call by
//! mutable reference, so that all draws of a run come from one stream in one
//! order. Nothing is known of a draw but the range that it lies in.

use crate::grid::{fully_colored, valid_grid, COLORS};
use rand::rngs::StdRng;
use rand::seq::SliceRandom;
use rand::Rng;
use vstd::prelude::*;

verus! {

/// `rand::rngs::StdRng`, the standard generator of the rand crate. The
/// library hands it on to the draws below and knows nothing of its state.
#[verifier::external_type_specification]
#[verifier::external_body]
pub struct ExStdRng(rand::rngs::StdRng);

/// `Rng::gen_range` of the rand crate on a half-open range of `usize`.
/// The call panics on an empty range, which `requires` leaves out; what it
/// returns lies in the range, and that is all that is claimed of it.
#[verifier::external_body]
pub(crate) fn draw_below(rng: &mut StdRng, low: usize, high: usize) -> (r: usize)
    requires
        low < high,
    ensures
        low <= r < high,
{
    rng.gen_range(low..high)
}

/// `Rng::gen_range` of the rand crate on a closed range of `usize`.
/// The call panics on an empty range, which `requires` leaves out; what it
/// returns lies in the range, and that is all that is claimed of it.
#[verifier::external_body]
pub(crate) fn draw_through(rng: &mut StdRng, low: usize, high: usize) -> (r: usize)
    requires
        low <= high,
    ensures
        low <= r <= high,
{
    rng.gen_range(low..=high)
}

/// `Rng::gen_range` of the rand crate on a closed range of `u8`.
/// The call panics on an empty range, which `requires` leaves out; what it
/// returns lies in the range, and that is all that is claimed of it.
#[verifier::external_body]
pub(crate) fn draw_color_through(rng: &mut StdRng, low: u8, high: u8) -> (r: u8)
    requires
        low <= high,
    ensures
        low <= r <= high,
{
    rng.gen_range(low..=high)
}

/// `Rng::gen_ratio` of the rand crate: `true` with a chance of `numerator`
/// in `denominator`. The call panics where the denominator is zero or
/// smaller than the numerator, which `requires` leaves out. The crate
/// promises `true` where the two are equal and `false` where the numerator
/// is zero; of the other cases nothing is claimed.
#[verifier::external_body]
pub(crate) fn draw_ratio(rng: &mut StdRng, numerator: u32, denominator: u32) -> (r: bool)
    requires
        denominator > 0,
        numerator <= denominator,
    ensures
        numerator == denominator ==> r,
        numerator == 0 ==> !r,
{
    rng.gen_ratio(numerator, denominator)
}

/// `SliceRandom::shuffle` of the rand crate on a vector of `usize`: it swaps
/// items in place, so the vector holds afterwards what it held before, each
/// item as often as before, in some order.
#[verifier::external_body]
pub(crate) fn shuffle(items: &mut Vec<usize>, rng: &mut StdRng)
    ensures
        final(items)@.to_multiset() == old(items)@.to_multiset(),
{
    items.shuffle(rng)
}

/// `color` moved `step` places on round the ring of the background and the
/// colors.
pub open spec fn stepped_color(color: u8, step: u8) -> u8 {
    ((color + step) % (COLORS + 1)) as u8
}

/// `color` moved `step` places on round the ring of the background and the
/// colors.
pub fn step_color(color: u8, step: u8) -> (c: u8)
    requires
        color <= COLORS,
        1 <= step <= COLORS,
    ensures
        c == stepped_color(color, step),
        c <= COLORS,
        c != color,
{
    (color + step) % (COLORS + 1)
}

/// Some color that is not the background.
pub fn random_color(rng: &mut StdRng) -> (c: u8)
    ensures
        1 <= c <= COLORS,
{
    draw_color_through(rng, 1, COLORS)
}

/// One of the first two colors.
pub fn random_color_two(rng: &mut StdRng) -> (c: u8)
    ensures
        1 <= c <= 2,
{
    draw_color_through(rng, 1, 2)
}

/// Some color other than `color`; it may be the background. It is
/// `color` moved on round the ring by a step that is drawn.
pub fn permute_color(color: u8, rng: &mut StdRng) -> (c: u8)
    requires
        color <= COLORS,
    ensures
        exists|step: u8| 1 <= step <= COLORS && c == #[trigger] stepped_color(color, step),
        c <= COLORS,
        c != color,
{
    let step = draw_color_through(rng, 1, COLORS);
    step_color(color, step)
}

/// No color for the background, else the color.
pub open spec fn shown(color: u8) -> Option<u8> {
    if color == 0 {
        None
    } else {
        Some(color)
    }
}

/// `None` for the background, else the color.
pub fn visible(color: u8) -> (r: Option<u8>)
    ensures
        r == shown(color),
{
    if color == 0 {
        None
    } else {
        Some(color)
    }
}

/// Some color other than `color` and other than the background, from one
/// draw: `color` is moved on round the ring by a step that is drawn, and the
/// result is `None` where that step ends on the background. From the
/// background every step ends on a color.
pub fn permute_color_not_black(color: u8, rng: &mut StdRng) -> (r: Option<u8>)
    requires
        color <= COLORS,
    ensures
        exists|step: u8| 1 <= step <= COLORS && r == shown(#[trigger] stepped_color(color, step)),
        r matches Some(c) ==> 1 <= c <= COLORS && c != color,
        color == 0 ==> r is Some,
{
    visible(permute_color(color, rng))
}

/// A grid of `size` cells, each of some color that is not the background.
pub fn gen_random_field(size: usize, rng: &mut StdRng) -> (field: Vec<u8>)
    ensures
        field@.len() == size,
        fully_colored(field@),
{
    let mut field: Vec<u8> = Vec::new();
    let mut i: usize = 0;
    while i < size
        invariant
            i <= size,
            field@.len() == i,
            fully_colored(field@),
        decreases size - i,
    {
        let color = random_color(rng);
        field.push(color);
        i += 1;
    }
    field
}

/// A grid of `size` cells, each with an even chance either the background
/// or some color.
pub fn gen_random_sparse_field(size: usize, rng: &mut StdRng) -> (field: Vec<u8>)
    ensures
        field@.len() == size,
        valid_grid(field@),
{
    let mut field: Vec<u8> = Vec::new();
    let mut i: usize = 0;
    while i < size
        invariant
            i <= size,
            field@.len() == i,
            valid_grid(field@),
        decreases size - i,
    {
        let color = if draw_ratio(rng, 1, 2) {
            random_color(rng)
        } else {
            0
        };
        field.push(color);
        i += 1;
    }
    field
}

/// Every cell holds the background or one of the first two colors.
pub open spec fn two_colored(field: Seq<u8>) -> bool {
    forall|i: int| 0 <= i < field.len() ==> #[trigger] field[i] <= 2
}

/// A grid of `size` cells, each with an even chance either the background
/// or one of the first two colors.
pub fn gen_random_sparse_field_two_colors(size: usize, rng: &mut StdRng) -> (field: Vec<u8>)
    ensures
        field@.len() == size,
        two_colored(field@),
{
    let mut field: Vec<u8> = Vec::new();
    let mut i: usize = 0;
    while i < size
        invariant
            i <= size,
            field@.len() == i,
            two_colored(field@),
        decreases size - i,
    {
        let color = if draw_ratio(rng, 1, 2) {
            random_color_two(rng)
        } else {
            0
        };
        field.push(color);
        i += 1;
    }
    field
}

} // verus!
