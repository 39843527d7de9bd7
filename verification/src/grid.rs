//! Grids and the primitive operations that every rule is built from.
//!
//! A grid is a fixed-length sequence of colors. Color `0` is the background;
//! the other colors run from `1` to [`COLORS`].

use vstd::arithmetic::div_mod::{lemma_fundamental_div_mod, lemma_fundamental_div_mod_converse};
use vstd::prelude::*;

verus! {

/// Number of colors besides the background.
pub const COLORS: u8 = 9;

/// One of the two ends of a field.
#[derive(Clone, Copy, Debug, PartialEq, Eq, Hash)]
pub enum Side {
    Left,
    Right,
}

/// One colored cell: its place and its color.
#[derive(Clone, Copy, Debug, PartialEq, Eq, Hash)]
pub struct Dot {
    pub pos: usize,
    pub color: u8,
}

/// `field` with each of `dots` written into its cell, one after the other.
pub open spec fn dotted(field: Seq<u8>, dots: Seq<Dot>) -> Seq<u8>
    decreases dots.len(),
{
    if dots.len() == 0 {
        field
    } else {
        dotted(field, dots.drop_last()).update(dots.last().pos as int, dots.last().color)
    }
}

/// Every dot lies inside a field of `size` cells and holds a color.
pub open spec fn dots_fit(dots: Seq<Dot>, size: nat) -> bool {
    forall|k: int|
        0 <= k < dots.len() ==> (#[trigger] dots[k]).pos < size && 1 <= dots[k].color <= COLORS
}

/// No two dots lie in the same cell.
pub open spec fn dots_apart(dots: Seq<Dot>) -> bool {
    forall|j: int, k: int|
        0 <= j < k < dots.len() ==> (#[trigger] dots[j]).pos != (#[trigger] dots[k]).pos
}

/// Whether one of the dots has the background for its color.
pub open spec fn has_background(dots: Seq<Dot>) -> bool {
    exists|k: int| 0 <= k < dots.len() && (#[trigger] dots[k]).color == 0
}

/// The grid of `size` background cells.
pub open spec fn blank(size: nat) -> Seq<u8> {
    Seq::new(size, |i: int| 0u8)
}

/// The grid of `size` cells that all hold `color`.
pub open spec fn solid(size: nat, color: u8) -> Seq<u8> {
    Seq::new(size, |i: int| color)
}

/// `field` with `block` laid over the cells `pos .. pos + block.len()`.
pub open spec fn painted(field: Seq<u8>, pos: int, block: Seq<u8>) -> Seq<u8> {
    Seq::new(
        field.len(),
        |i: int|
            if pos <= i < pos + block.len() {
                block[i - pos]
            } else {
                field[i]
            },
    )
}

/// `field` after the cells of `block` were written one after the other,
/// the first at `pos`, each next one cell to the right, and past the right
/// edge on from the left edge again. A later cell of the block overwrites an
/// earlier one that landed on the same place.
pub open spec fn painted_wrapped(field: Seq<u8>, pos: int, block: Seq<u8>) -> Seq<u8>
    decreases block.len(),
{
    if block.len() == 0 || field.len() == 0 {
        field
    } else {
        painted_wrapped(field, pos, block.drop_last()).update(
            (pos + block.len() - 1) % (field.len() as int),
            block.last(),
        )
    }
}

/// The test that a cell holds another color than `color`.
pub open spec fn other_than(color: u8) -> spec_fn(u8) -> bool {
    |c: u8| c != color
}

/// The cells of `field` that do not hold `color`, in their order.
pub open spec fn without_color(field: Seq<u8>, color: u8) -> Seq<u8> {
    field.filter(other_than(color))
}

/// Every cell holds the background or one of the [`COLORS`].
pub open spec fn valid_grid(field: Seq<u8>) -> bool {
    forall|i: int| 0 <= i < field.len() ==> #[trigger] field[i] <= COLORS
}

/// No cell holds the background.
pub open spec fn fully_colored(field: Seq<u8>) -> bool {
    forall|i: int| 0 <= i < field.len() ==> 1 <= #[trigger] field[i] <= COLORS
}

/// The test that a cell holds `color`.
pub open spec fn equal_to(color: u8) -> spec_fn(u8) -> bool {
    |c: u8| c == color
}

/// How many cells of `field` hold `color`.
pub open spec fn occurrences(field: Seq<u8>, color: u8) -> nat {
    field.filter(equal_to(color)).len()
}

/// Filtering one item more either appends that item or changes nothing.
pub proof fn lemma_filter_next<A>(s: Seq<A>, i: int, pred: spec_fn(A) -> bool)
    requires
        0 <= i < s.len(),
    ensures
        s.take(i + 1).filter(pred) == (if pred(s[i]) {
            s.take(i).filter(pred).push(s[i])
        } else {
            s.take(i).filter(pred)
        }),
        s.take(i).filter(pred).len() <= i,
{
    reveal(Seq::filter);
    assert(s.take(i + 1).drop_last() == s.take(i));
    s.take(i).lemma_filter_len(pred);
}

/// Every cell holds the same color.
pub open spec fn uniform(field: Seq<u8>) -> bool {
    forall|i: int| 0 <= i < field.len() ==> #[trigger] field[i] == field[0]
}

/// Laying a block of colors over a grid of colors gives a grid of colors.
pub proof fn lemma_painted_valid(field: Seq<u8>, pos: int, block: Seq<u8>)
    requires
        valid_grid(field),
        valid_grid(block),
    ensures
        valid_grid(painted(field, pos, block)),
        painted(field, pos, block).len() == field.len(),
{
}

/// Writing a block of colors with wraparound into a grid of colors gives a
/// grid of colors.
pub proof fn lemma_painted_wrapped_valid(field: Seq<u8>, pos: int, block: Seq<u8>)
    requires
        pos >= 0,
        valid_grid(field),
        valid_grid(block),
    ensures
        valid_grid(painted_wrapped(field, pos, block)),
        painted_wrapped(field, pos, block).len() == field.len(),
    decreases block.len(),
{
    if block.len() != 0 && field.len() != 0 {
        lemma_painted_wrapped_valid(field, pos, block.drop_last());
    }
}

/// Writing dots into a grid of colors gives a grid of colors of the same
/// length.
pub proof fn lemma_dotted_valid(field: Seq<u8>, dots: Seq<Dot>)
    requires
        valid_grid(field),
        dots_fit(dots, field.len()),
    ensures
        valid_grid(dotted(field, dots)),
        dotted(field, dots).len() == field.len(),
    decreases dots.len(),
{
    if dots.len() != 0 {
        lemma_dotted_valid(field, dots.drop_last());
    }
}

/// Writing with wraparound keeps the length of the field.
pub proof fn lemma_painted_wrapped_len(field: Seq<u8>, pos: int, block: Seq<u8>)
    requires
        pos >= 0,
    ensures
        painted_wrapped(field, pos, block).len() == field.len(),
    decreases block.len(),
{
    if block.len() != 0 && field.len() != 0 {
        lemma_painted_wrapped_len(field, pos, block.drop_last());
    }
}

/// A block that is no longer than the field does not run into itself: the
/// cell at distance `k` to the right of `pos`, counted round the edge, holds
/// the `k`-th cell of the block, and every other cell is left as it was.
pub proof fn lemma_painted_wrapped_cells(field: Seq<u8>, pos: int, block: Seq<u8>, j: int)
    requires
        pos >= 0,
        block.len() <= field.len(),
        0 <= j < field.len(),
    ensures
        painted_wrapped(field, pos, block)[j] == (if (j - pos) % (field.len() as int)
            < block.len() {
            block[(j - pos) % (field.len() as int)]
        } else {
            field[j]
        }),
    decreases block.len(),
{
    let n = field.len() as int;
    let d = (j - pos) % n;
    if block.len() != 0 {
        let m = block.len() as int;
        let rest = block.drop_last();
        lemma_painted_wrapped_len(field, pos, rest);
        lemma_painted_wrapped_cells(field, pos, rest, j);
        let target = (pos + m - 1) % n;
        assert(0 <= target < n);
        assert(0 <= d < n);
        assert((target == j) <==> (d == m - 1)) by {
            lemma_wrapped_offset(pos, m - 1, j, n);
        }
    }
}

/// On a ring of `n` cells, the cell `k < n` steps to the right of `pos` is
/// `j` exactly when `j` lies `k` steps to the right of `pos`.
proof fn lemma_wrapped_offset(pos: int, k: int, j: int, n: int)
    requires
        0 <= k < n,
        0 <= j < n,
        pos >= 0,
    ensures
        ((pos + k) % n == j) <==> ((j - pos) % n == k),
{
    if (pos + k) % n == j {
        let a = (pos + k) / n;
        lemma_fundamental_div_mod(pos + k, n);
        assert(j - pos == (-a) * n + k) by (nonlinear_arith)
            requires
                pos + k == n * a + j,
        ;
        lemma_fundamental_div_mod_converse(j - pos, n, -a, k);
    }
    if (j - pos) % n == k {
        let b = (j - pos) / n;
        lemma_fundamental_div_mod(j - pos, n);
        assert(pos + k == (-b) * n + j) by (nonlinear_arith)
            requires
                j - pos == n * b + k,
        ;
        lemma_fundamental_div_mod_converse(pos + k, n, -b, j);
    }
}

/// A grid of `size` background cells.
pub fn gen_field(size: usize) -> (field: Vec<u8>)
    ensures
        field@ == blank(size as nat),
{
    gen_field_color(size, 0)
}

/// A grid of `size` cells that all hold `color`.
pub fn gen_field_color(size: usize, color: u8) -> (field: Vec<u8>)
    ensures
        field@ == solid(size as nat, color),
{
    let mut field: Vec<u8> = Vec::new();
    let mut i: usize = 0;
    while i < size
        invariant
            i <= size,
            field@ == solid(i as nat, color),
        decreases size - i,
    {
        field.push(color);
        i += 1;
    }
    field
}

/// Overwrites the cells `pos .. pos + block.len()` of `field` with `block`.
pub fn write_block(pos: usize, block: &[u8], field: Vec<u8>) -> (out: Vec<u8>)
    requires
        pos + block@.len() <= field@.len(),
    ensures
        out@ == painted(field@, pos as int, block@),
{
    let mut out = field;
    let len = out.len();
    let mut i: usize = 0;
    while i < block.len()
        invariant
            i <= block@.len(),
            pos + block@.len() <= len,
            out@.len() == len,
            len == field@.len(),
            out@ == painted(field@, pos as int, block@.take(i as int)),
        decreases block@.len() - i,
    {
        out.set(pos + i, block[i]);
        i += 1;
    }
    assert(block@.take(block@.len() as int) == block@);
    out
}

/// Writes `block` into `field` cell by cell from `pos` on, going on at the
/// left edge where it runs past the right edge.
pub fn write_block_wrapped(pos: usize, block: &[u8], field: Vec<u8>) -> (out: Vec<u8>)
    requires
        block@.len() == 0 || field@.len() > 0,
        pos + block@.len() <= usize::MAX,
    ensures
        out@ == painted_wrapped(field@, pos as int, block@),
        out@.len() == field@.len(),
        block@.len() <= field@.len() ==> forall|j: int|
            0 <= j < field@.len() ==> #[trigger] out@[j] == (if (j - pos) % (field@.len() as int)
                < block@.len() {
                block@[(j - pos) % (field@.len() as int)]
            } else {
                field@[j]
            }),
{
    let mut out = field;
    let len = out.len();
    let mut i: usize = 0;
    while i < block.len()
        invariant
            i <= block@.len(),
            block@.len() == 0 || field@.len() > 0,
            pos + block@.len() <= usize::MAX,
            len == field@.len(),
            out@.len() == len,
            out@ == painted_wrapped(field@, pos as int, block@.take(i as int)),
        decreases block@.len() - i,
    {
        assert(block@.take(i + 1).drop_last() == block@.take(i as int));
        out.set((pos + i) % len, block[i]);
        i += 1;
    }
    assert(block@.take(block@.len() as int) == block@);
    proof {
        if block@.len() <= field@.len() {
            assert forall|j: int| 0 <= j < field@.len() implies #[trigger] out@[j] == (if (j
                - pos) % (field@.len() as int) < block@.len() {
                block@[(j - pos) % (field@.len() as int)]
            } else {
                field@[j]
            }) by {
                lemma_painted_wrapped_cells(field@, pos as int, block@, j);
            }
        }
    }
    out
}

/// Writes each of `dots` into its cell of `field`, one after the other.
pub fn write_dots(dots: &[Dot], field: Vec<u8>) -> (out: Vec<u8>)
    requires
        forall|k: int| 0 <= k < dots@.len() ==> (#[trigger] dots@[k]).pos < field@.len(),
    ensures
        out@ == dotted(field@, dots@),
        out@.len() == field@.len(),
{
    let mut out = field;
    let mut i: usize = 0;
    while i < dots.len()
        invariant
            i <= dots@.len(),
            forall|k: int| 0 <= k < dots@.len() ==> (#[trigger] dots@[k]).pos < field@.len(),
            out@.len() == field@.len(),
            out@ == dotted(field@, dots@.take(i as int)),
        decreases dots@.len() - i,
    {
        assert(dots@.take(i + 1).drop_last() == dots@.take(i as int));
        out.set(dots[i].pos, dots[i].color);
        i += 1;
    }
    assert(dots@.take(dots@.len() as int) == dots@);
    out
}

/// The cells of `block` from the last to the first.
pub fn reversed(block: &[u8]) -> (out: Vec<u8>)
    ensures
        out@ == block@.reverse(),
{
    let len = block.len();
    let mut out: Vec<u8> = Vec::new();
    let mut i: usize = 0;
    while i < len
        invariant
            i <= len,
            len == block@.len(),
            out@.len() == i,
            forall|k: int| 0 <= k < i ==> out@[k] == block@[len - 1 - k],
        decreases len - i,
    {
        out.push(block[len - 1 - i]);
        i += 1;
    }
    out
}

/// The cells of `field` that do not hold `color`, in their order.
pub fn remove_color(color: u8, field: Vec<u8>) -> (out: Vec<u8>)
    ensures
        out@ == without_color(field@, color),
{
    let mut out: Vec<u8> = Vec::new();
    let mut i: usize = 0;
    proof {
        reveal(Seq::filter);
    }
    while i < field.len()
        invariant
            i <= field@.len(),
            out@ == without_color(field@.take(i as int), color),
        decreases field@.len() - i,
    {
        proof {
            lemma_filter_next(field@, i as int, other_than(color));
        }
        if field[i] != color {
            out.push(field[i]);
        }
        i += 1;
    }
    assert(field@.take(field@.len() as int) == field@);
    out
}

} // verus!
