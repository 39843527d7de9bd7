//! Rules that move one block to the right.

use crate::example::{outcome, Example, Pair};
use crate::grid::{
    blank, fully_colored, gen_field, gen_field_color, lemma_painted_valid,
    lemma_painted_wrapped_valid, painted, painted_wrapped, solid, uniform, write_block,
    write_block_wrapped,
};
use crate::random::{draw_below, draw_through, gen_random_field, random_color};
use rand::rngs::StdRng;
use vstd::prelude::*;

verus! {

/// A block at `pos` on an empty field, and the same block `move_pix` cells
/// further right.
pub open spec fn move_n_pix_pair(size: nat, move_pix: nat, pos: int, block: Seq<u8>) -> Pair {
    Pair {
        input: painted(blank(size), pos, block),
        output: painted(blank(size), pos + move_pix, block),
    }
}

/// The blocks and places that [`task_move_n_pix`] draws from: the block is
/// not empty, holds no background, is of one color where `solid` is asked
/// for, and still lies inside the field after the move.
pub open spec fn move_n_pix_draws(
    size: nat,
    move_pix: nat,
    solid: bool,
    pos: int,
    block: Seq<u8>,
) -> bool {
    &&& 1 <= block.len() < size - move_pix
    &&& 0 <= pos <= size - block.len() - move_pix
    &&& fully_colored(block)
    &&& solid ==> uniform(block)
}

/// The example in which `block` lies at `block_pos` and moves `move_pix`
/// cells to the right.
pub fn move_n_pix_from(size: usize, move_pix: usize, block_pos: usize, block: &[u8]) -> (e:
    Example)
    requires
        block_pos + block@.len() + move_pix <= size,
    ensures
        e@ == move_n_pix_pair(size as nat, move_pix as nat, block_pos as int, block@),
{
    let question = write_block(block_pos, block, gen_field(size));
    let answer = write_block(block_pos + move_pix, block, gen_field(size));
    Example { input: question, output: answer }
}

/// A block of one color where `solid` is set, else of random colors.
fn draw_block(block_size: usize, solid: bool, rng: &mut StdRng) -> (block: Vec<u8>)
    ensures
        block@.len() == block_size,
        fully_colored(block@),
        solid ==> uniform(block@),
{
    if solid {
        let color = random_color(rng);
        gen_field_color(block_size, color)
    } else {
        gen_random_field(block_size, rng)
    }
}

/// What [`task_move_n_pix`] can give on a field of `size` cells: for each
/// outcome, the draws that it comes from.
pub open spec fn move_n_pix_outcome(
    size: nat,
    move_pix: nat,
    solid: bool,
    r: Option<Pair>,
) -> bool {
    &&& size <= move_pix + 1 ==> r is None
    &&& size > move_pix + 1 ==> exists|pos: int, block: Seq<u8>|
        move_n_pix_draws(size, move_pix, solid, pos, block) && r
            == Some(#[trigger] move_n_pix_pair(size, move_pix, pos, block))
    &&& r matches Some(p) ==> p.fits(size)
}

/// Some block is moved `move_pix` cells to the right. Its length and place
/// are drawn so that it stays inside the field; a field too short for any
/// such move is infeasible.
pub fn task_move_n_pix(size: usize, move_pix: usize, solid: bool, rng: &mut StdRng) -> (r: Option<
    Example,
>)
    ensures
        move_n_pix_outcome(size as nat, move_pix as nat, solid, outcome(r)),
{
    if move_pix >= size || size - move_pix <= 1 {
        return None;
    }
    let block_size = draw_below(rng, 1, size - move_pix);
    let block_pos = draw_through(rng, 0, size - block_size - move_pix);
    let block = draw_block(block_size, solid, rng);
    let e = move_n_pix_from(size, move_pix, block_pos, block.as_slice());
    proof {
        assert(move_n_pix_draws(size as nat, move_pix as nat, solid, block_pos as int, block@));
        lemma_painted_valid(blank(size as nat), block_pos as int, block@);
        lemma_painted_valid(blank(size as nat), block_pos + move_pix, block@);
    }
    Some(e)
}

/// A block written from `pos` on with wraparound, and the same block
/// written from `move_pix` cells further right.
pub open spec fn move_n_pix_wrapped_pair(
    size: nat,
    move_pix: nat,
    pos: int,
    block: Seq<u8>,
) -> Pair {
    Pair {
        input: painted_wrapped(blank(size), pos, block),
        output: painted_wrapped(blank(size), pos + move_pix, block),
    }
}

/// The blocks and places that [`task_move_n_pix_wrapped`] draws from: the
/// block is not empty, shorter than the field, holds no background, and is
/// of one color where `solid` is asked for; it may start in any cell.
pub open spec fn move_n_pix_wrapped_draws(
    size: nat,
    solid: bool,
    pos: int,
    block: Seq<u8>,
) -> bool {
    &&& 1 <= block.len() < size
    &&& 0 <= pos < size
    &&& fully_colored(block)
    &&& solid ==> uniform(block)
}

/// The example in which `block` starts at `block_pos` and moves `move_pix`
/// cells to the right, round the edge of the field where it runs over it.
pub fn move_n_pix_wrapped_from(size: usize, move_pix: usize, block_pos: usize, block: &[u8]) -> (e:
    Example)
    requires
        block@.len() == 0 || size > 0,
        block_pos + move_pix + block@.len() <= usize::MAX,
    ensures
        e@ == move_n_pix_wrapped_pair(size as nat, move_pix as nat, block_pos as int, block@),
{
    let question = write_block_wrapped(block_pos, block, gen_field(size));
    let answer = write_block_wrapped(block_pos + move_pix, block, gen_field(size));
    Example { input: question, output: answer }
}

/// What [`task_move_n_pix_wrapped`] can give on a field of `size` cells: for each
/// outcome, the draws that it comes from.
pub open spec fn move_n_pix_wrapped_outcome(
    size: nat,
    move_pix: nat,
    solid: bool,
    r: Option<Pair>,
) -> bool {
    &&& exists|pos: int, block: Seq<u8>|
        move_n_pix_wrapped_draws(size, solid, pos, block) && r == Some(
            #[trigger] move_n_pix_wrapped_pair(size, move_pix, pos, block),
        )
    &&& r matches Some(p) && p.fits(size)
}

/// Some block is moved `move_pix` cells to the right, and what leaves the
/// field on the right comes back in on the left.
pub fn task_move_n_pix_wrapped(
    size: usize,
    move_pix: usize,
    solid: bool,
    rng: &mut StdRng,
) -> (r: Option<Example>)
    requires
        size >= 2,
        size + size + move_pix <= usize::MAX,
    ensures
        move_n_pix_wrapped_outcome(size as nat, move_pix as nat, solid, outcome(r)),
{
    let block_size = draw_below(rng, 1, size);
    let block_pos = draw_below(rng, 0, size);
    let block = draw_block(block_size, solid, rng);
    let e = move_n_pix_wrapped_from(size, move_pix, block_pos, block.as_slice());
    proof {
        assert(move_n_pix_wrapped_draws(size as nat, solid, block_pos as int, block@));
        lemma_painted_wrapped_valid(blank(size as nat), block_pos as int, block@);
        lemma_painted_wrapped_valid(blank(size as nat), block_pos + move_pix, block@);
    }
    Some(e)
}

/// A block of `block_size` cells of `color` at `pos`, and the same block
/// moved right by its own length.
pub open spec fn move_block_by_own_size_pair(
    size: nat,
    pos: int,
    block_size: nat,
    color: u8,
) -> Pair {
    move_n_pix_pair(size, block_size, pos, solid(block_size, color))
}

/// The example in which a block of `block_size` cells of `color` lies at
/// `pos` and moves right by its own length.
pub fn move_block_by_own_size_from(size: usize, pos: usize, block_size: usize, color: u8) -> (e:
    Example)
    requires
        pos + 2 * block_size <= size,
    ensures
        e@ == move_block_by_own_size_pair(size as nat, pos as int, block_size as nat, color),
{
    let block = gen_field_color(block_size, color);
    move_n_pix_from(size, block_size, pos, block.as_slice())
}

/// What [`task_move_block_by_own_size`] can give on a field of `size` cells: for each
/// outcome, the draws that it comes from.
pub open spec fn move_block_by_own_size_outcome(size: nat, r: Option<Pair>) -> bool {
    &&& exists|pos: int, block_size: nat, color: u8|
        1 <= block_size <= size / 2 && 0 <= pos <= size - 2 * block_size && 1 <= color
            <= crate::grid::COLORS && r == Some(
            #[trigger] move_block_by_own_size_pair(size, pos, block_size, color),
        )
    &&& r matches Some(p) && p.fits(size)
}

/// One solid block is moved to the right by as many cells as it is long.
pub fn task_move_block_by_own_size(size: usize, rng: &mut StdRng) -> (r: Option<Example>)
    requires
        size >= 2,
    ensures
        move_block_by_own_size_outcome(size as nat, outcome(r)),
{
    let block_size = draw_through(rng, 1, size / 2);
    let pos = draw_through(rng, 0, size - block_size * 2);
    let color = random_color(rng);
    let e = move_block_by_own_size_from(size, pos, block_size, color);
    proof {
        lemma_painted_valid(blank(size as nat), pos as int, solid(block_size as nat, color));
        lemma_painted_valid(
            blank(size as nat),
            pos + block_size,
            solid(block_size as nat, color),
        );
    }
    Some(e)
}

} // verus!
