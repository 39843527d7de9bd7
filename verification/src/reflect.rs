//! Rules that reflect a block, in place or about a marker cell.

use crate::example::{outcome, Example, Pair};
use crate::grid::{
    blank, fully_colored, gen_field, gen_field_color, lemma_painted_valid, painted, reversed,
    solid, valid_grid, write_block, Side, COLORS,
};
use crate::random::{
    draw_below, draw_ratio, draw_through, gen_random_field, permute_color_not_black, random_color,
};
use rand::rngs::StdRng;
use vstd::prelude::*;

verus! {

/// A block at `pos`, and the same block read from right to left in the same
/// place.
pub open spec fn reflect_block_pair(size: nat, pos: int, block: Seq<u8>) -> Pair {
    Pair {
        input: painted(blank(size), pos, block),
        output: painted(blank(size), pos, block.reverse()),
    }
}

/// The example in which `block` lies at `pos` and is reversed in place.
pub fn reflect_block_from(size: usize, pos: usize, block: &[u8]) -> (e: Example)
    requires
        pos + block@.len() <= size,
    ensures
        e@ == reflect_block_pair(size as nat, pos as int, block@),
{
    let question = write_block(pos, block, gen_field(size));
    let mirrored = reversed(block);
    let answer = write_block(pos, mirrored.as_slice(), gen_field(size));
    Example { input: question, output: answer }
}

/// The outermost cell of a block of `block_size` cells on `side`.
pub open spec fn border_cell(block_size: nat, side: Side) -> int {
    match side {
        Side::Left => 0,
        Side::Right => block_size - 1,
    }
}

/// `block` with its outermost cell on `side` in `color`.
pub fn with_border(block: Vec<u8>, side: Side, color: u8) -> (out: Vec<u8>)
    requires
        block@.len() >= 1,
    ensures
        out@ == block@.update(border_cell(block@.len(), side), color),
{
    let mut out = block;
    let len = out.len();
    match side {
        Side::Left => out.set(0, color),
        Side::Right => out.set(len - 1, color),
    }
    out
}

/// A block of `body` with one border cell of `border`, and its reflection;
/// nothing where the two colors are the same.
pub open spec fn reflect_block_with_border_pixel_pair(
    size: nat,
    pos: int,
    block_size: nat,
    body: u8,
    border: u8,
    side: Side,
) -> Option<Pair> {
    if body == border {
        None
    } else {
        Some(
            reflect_block_pair(
                size,
                pos,
                solid(block_size, body).update(border_cell(block_size, side), border),
            ),
        )
    }
}

/// The example of a block of `body` at `pos` whose border cell on `side` is
/// of `border`; infeasible where the two colors are the same.
pub fn reflect_block_with_border_pixel_from(
    size: usize,
    pos: usize,
    block_size: usize,
    body: u8,
    border: u8,
    side: Side,
) -> (r: Option<Example>)
    requires
        1 <= block_size,
        pos + block_size <= size,
    ensures
        outcome(r) == reflect_block_with_border_pixel_pair(
            size as nat,
            pos as int,
            block_size as nat,
            body,
            border,
            side,
        ),
{
    if body == border {
        return None;
    }
    let block = with_border(gen_field_color(block_size, body), side, border);
    Some(reflect_block_from(size, pos, block.as_slice()))
}

/// Left or right, with an even chance.
pub fn random_side(rng: &mut StdRng) -> Side {
    if draw_ratio(rng, 1, 2) {
        Side::Left
    } else {
        Side::Right
    }
}

/// What [`task_reflect_block_with_border_pixel`] can give on a field of
/// `size` cells: what comes of some length, colors, side and place that it
/// can draw, which is nothing where the two colors are the same.
pub open spec fn reflect_block_with_border_pixel_outcome(size: nat, r: Option<Pair>) -> bool {
    &&& exists|pos: int, block_size: nat, body: u8, border: u8, side: Side|
        2 <= block_size <= size && 0 <= pos <= size - block_size && 1 <= body <= COLORS && 1
            <= border <= COLORS && r == #[trigger] reflect_block_with_border_pixel_pair(
            size,
            pos,
            block_size,
            body,
            border,
            side,
        )
    &&& r matches Some(p) ==> p.fits(size)
}

/// A solid block of at least two cells whose left or right border cell has
/// another color; the output holds the block reflected in place. Infeasible
/// where both colors came out the same.
pub fn task_reflect_block_with_border_pixel(size: usize, rng: &mut StdRng) -> (r: Option<Example>)
    requires
        size >= 2,
    ensures
        reflect_block_with_border_pixel_outcome(size as nat, outcome(r)),
{
    let block_size = draw_through(rng, 2, size);
    let body = random_color(rng);
    let border = random_color(rng);
    if body == border {
        proof {
            assert(reflect_block_with_border_pixel_pair(
                size as nat,
                0,
                block_size as nat,
                body,
                border,
                Side::Left,
            ) is None);
        }
        return None;
    }
    let side = random_side(rng);
    let pos = draw_through(rng, 0, size - block_size);
    let r = reflect_block_with_border_pixel_from(size, pos, block_size, body, border, side);
    proof {
        let block = solid(block_size as nat, body).update(
            border_cell(block_size as nat, side),
            border,
        );
        lemma_reflection_valid(size as nat, pos as int, block);
    }
    r
}

/// A block whose border cell on `side` is repainted in `border`, and its
/// reflection; nothing where that cell had the color already.
pub open spec fn reflect_block_with_border_pixel_random_pair(
    size: nat,
    pos: int,
    block: Seq<u8>,
    border: u8,
    side: Side,
) -> Option<Pair> {
    let cell = border_cell(block.len(), side);
    if block[cell] == border {
        None
    } else {
        Some(reflect_block_pair(size, pos, block.update(cell, border)))
    }
}

/// The example of `block` at `pos` with its border cell on `side` repainted
/// in `border`; infeasible where that cell had the color already.
pub fn reflect_block_with_border_pixel_random_from(
    size: usize,
    pos: usize,
    block: Vec<u8>,
    border: u8,
    side: Side,
) -> (r: Option<Example>)
    requires
        1 <= block@.len(),
        pos + block@.len() <= size,
    ensures
        outcome(r) == reflect_block_with_border_pixel_random_pair(
            size as nat,
            pos as int,
            block@,
            border,
            side,
        ),
{
    let cell = match side {
        Side::Left => 0,
        Side::Right => block.len() - 1,
    };
    if block[cell] == border {
        return None;
    }
    let block = with_border(block, side, border);
    Some(reflect_block_from(size, pos, block.as_slice()))
}

/// What [`task_reflect_block_with_border_pixel_random`] can give on a
/// field of `size` cells: for each outcome, the draws that it comes from.
pub open spec fn reflect_block_with_border_pixel_random_outcome(
    size: nat,
    r: Option<Pair>,
) -> bool {
    &&& r matches Some(p) ==> p.fits(size)
    &&& exists|pos: int, block: Seq<u8>, border: u8, side: Side|
        2 <= block.len() <= size && 0 <= pos <= size - block.len() && fully_colored(block)
            && 1 <= border <= COLORS && r
            == #[trigger] reflect_block_with_border_pixel_random_pair(
            size,
            pos,
            block,
            border,
            side,
        )
}

/// A block of random colors of at least two cells whose left or right
/// border cell is repainted in one more random color; the output holds the
/// block reflected in place. Infeasible where the border cell had that
/// color already.
pub fn task_reflect_block_with_border_pixel_random(size: usize, rng: &mut StdRng) -> (r: Option<
    Example,
>)
    requires
        size >= 2,
    ensures
        reflect_block_with_border_pixel_random_outcome(size as nat, outcome(r)),
{
    let block_size = draw_through(rng, 2, size);
    let side = random_side(rng);
    let pos = draw_through(rng, 0, size - block_size);
    let block = gen_random_field(block_size, rng);
    let border = random_color(rng);
    let ghost drawn = block@;
    let r = reflect_block_with_border_pixel_random_from(size, pos, block, border, side);
    proof {
        let cell = border_cell(drawn.len(), side);
        lemma_reflection_valid(size as nat, pos as int, drawn.update(cell, border));
    }
    r
}

/// A block and its reflection in colors of the alphabet make a pair of
/// grids of `size` cells of the alphabet.
proof fn lemma_reflection_valid(size: nat, pos: int, block: Seq<u8>)
    requires
        valid_grid(block),
    ensures
        reflect_block_pair(size, pos, block).fits(size),
{
    lemma_painted_valid(blank(size), pos, block);
    lemma_painted_valid(blank(size), pos, block.reverse());
}

/// A block of `color` and a marker of the second color, and the block
/// reflected about the marker. Nothing where the block covers the marker or
/// its reflection would leave the field.
pub open spec fn reflect_block_around_dot_pair(
    size: nat,
    dot_pos: int,
    block_pos: int,
    block_size: nat,
    color: u8,
) -> Option<Pair> {
    let block_end = block_pos + block_size - 1;
    let first = 2 * dot_pos - block_end;
    let last = 2 * dot_pos - block_pos;
    if (block_end < dot_pos || dot_pos < block_pos) && 0 <= first && last < size {
        Some(
            Pair {
                input: painted(blank(size), block_pos, solid(block_size, color)).update(
                    dot_pos,
                    2,
                ),
                output: painted(blank(size), first, solid(block_size, color)).update(dot_pos, 2),
            },
        )
    } else {
        None
    }
}

/// Whether a block at `block_pos` lies wholly on one side of the cell
/// `dot_pos`.
pub fn beside(dot_pos: usize, block_pos: usize, block_size: usize) -> (r: bool)
    requires
        1 <= block_size,
        block_pos + block_size <= usize::MAX,
    ensures
        r == (block_pos + block_size - 1 < dot_pos || dot_pos < block_pos),
{
    block_pos + block_size - 1 < dot_pos || dot_pos < block_pos
}

/// The example of a block of `color` at `block_pos` that is reflected about
/// the marker at `dot_pos`; infeasible where the block covers the marker or
/// its reflection would leave the field.
pub fn reflect_block_around_dot_from(
    size: usize,
    dot_pos: usize,
    block_pos: usize,
    block_size: usize,
    color: u8,
) -> (r: Option<Example>)
    requires
        dot_pos < size,
        1 <= block_size,
        block_pos + block_size <= size,
    ensures
        outcome(r) == reflect_block_around_dot_pair(
            size as nat,
            dot_pos as int,
            block_pos as int,
            block_size as nat,
            color,
        ),
{
    let block_end = block_pos + block_size - 1;
    let first = if block_end < dot_pos {
        if dot_pos - block_pos >= size - dot_pos {
            return None;
        }
        dot_pos + (dot_pos - block_end)
    } else if dot_pos < block_pos {
        if block_end - dot_pos > dot_pos {
            return None;
        }
        dot_pos - (block_end - dot_pos)
    } else {
        return None;
    };
    let block = gen_field_color(block_size, color);
    let mut question = write_block(block_pos, block.as_slice(), gen_field(size));
    question.set(dot_pos, 2);
    let mut answer = write_block(first, block.as_slice(), gen_field(size));
    answer.set(dot_pos, 2);
    Some(Example { input: question, output: answer })
}

/// What comes of a block of `color` and a marker: nothing where the color
/// came out as the background, else the example of their reflection or
/// nothing, as [`reflect_block_around_dot_pair`] says.
pub open spec fn reflect_block_around_dot_result(
    size: nat,
    dot_pos: int,
    block_pos: int,
    block_size: nat,
    color: Option<u8>,
) -> Option<Pair> {
    match color {
        Some(c) => reflect_block_around_dot_pair(size, dot_pos, block_pos, block_size, c),
        None => None,
    }
}

/// What [`task_reflect_block_around_dot`] can give on a field of `size`
/// cells: what comes of some marker, block and color that it can draw. A
/// field of less than three cells has no room for a block, the marker and
/// the reflection.
pub open spec fn reflect_block_around_dot_outcome(size: nat, r: Option<Pair>) -> bool {
    &&& size <= 2 ==> r is None
    &&& exists|dot_pos: int, block_pos: int, block_size: nat, color: Option<u8>|
        0 <= dot_pos < size && 1 <= block_size <= size && 0 <= block_pos <= size - block_size
            && (color matches Some(c) ==> 1 <= c <= COLORS && c != 2) && r
            == #[trigger] reflect_block_around_dot_result(
            size,
            dot_pos,
            block_pos,
            block_size,
            color,
        )
    &&& r matches Some(p) ==> p.fits(size)
}

/// A marker of the second color and a block somewhere on the field; the
/// output holds the block reflected about the marker. Infeasible where the
/// block covers the marker, where the color came out as the background, and
/// where the reflection would leave the field.
pub fn task_reflect_block_around_dot(size: usize, rng: &mut StdRng) -> (r: Option<Example>)
    requires
        size >= 1,
    ensures
        reflect_block_around_dot_outcome(size as nat, outcome(r)),
{
    let dot_pos = draw_below(rng, 0, size);
    let block_size = draw_through(rng, 1, size);
    let block_pos = draw_through(rng, 0, size - block_size);
    if !beside(dot_pos, block_pos, block_size) {
        proof {
            assert(reflect_block_around_dot_result(
                size as nat,
                dot_pos as int,
                block_pos as int,
                block_size as nat,
                Some(1u8),
            ) is None);
        }
        return None;
    }
    let color = match permute_color_not_black(2, rng) {
        Some(c) => c,
        None => {
            proof {
                assert(reflect_block_around_dot_result(
                    size as nat,
                    dot_pos as int,
                    block_pos as int,
                    block_size as nat,
                    None,
                ) is None);
            }
            return None;
        },
    };
    let r = reflect_block_around_dot_from(size, dot_pos, block_pos, block_size, color);
    proof {
        let first = 2 * dot_pos - (block_pos + block_size - 1);
        lemma_painted_valid(blank(size as nat), block_pos as int, solid(block_size as nat, color));
        lemma_painted_valid(blank(size as nat), first, solid(block_size as nat, color));
        assert(outcome(r) == reflect_block_around_dot_result(
            size as nat,
            dot_pos as int,
            block_pos as int,
            block_size as nat,
            Some(color),
        ));
    }
    r
}

} // verus!
