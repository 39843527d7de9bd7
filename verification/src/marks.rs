//! Rules that mark some blocks of a row, or a part of each block.

use crate::blocks::{
    advance, blocks_fit, blocks_sized, blocks_spaced, lemma_with_blocks_valid, paint_blocks,
    with_blocks, Block,
};
use crate::example::{outcome, Example, Pair};
use crate::grid::{blank, gen_field};
use crate::random::{draw_ratio, draw_through};
use rand::rngs::StdRng;
use vstd::prelude::*;

verus! {

/// Whether cell `i` lies right before or right after a block of two cells.
pub open spec fn marked(blocks: Seq<Block>, i: int) -> bool {
    exists|k: int|
        0 <= k < blocks.len() && (#[trigger] blocks[k]).len == 2 && (i + 1 == blocks[k].pos || i
            == blocks[k].pos + 2)
}

/// `field` with the third color in every cell that lies right before or
/// right after a block of two cells.
pub open spec fn with_marks(field: Seq<u8>, blocks: Seq<Block>) -> Seq<u8> {
    Seq::new(
        field.len(),
        |i: int|
            if marked(blocks, i) {
                3u8
            } else {
                field[i]
            },
    )
}

/// The free cells that block `k` needs on its right: three after a block
/// of two cells, which gets a mark on either side, else two.
pub open spec fn needed_gap(blocks: Seq<Block>, k: int) -> int {
    if blocks[k].len == 2 {
        3
    } else {
        2
    }
}

/// Whether each block but the last has the free cells it needs between
/// itself and the next block.
pub open spec fn marks_have_room(blocks: Seq<Block>) -> bool {
    forall|k: int|
        0 <= k < blocks.len() - 1 ==> blocks[k].pos + blocks[k].len + #[trigger] needed_gap(
            blocks,
            k,
        ) <= blocks[k + 1].pos
}

/// A row of blocks of the first color, and the same row with a mark of the
/// third color on either side of each block of two cells. Nothing where
/// there are less than two blocks or a block lacks the room it needs.
pub open spec fn mark_size_two_blocks_pair(size: nat, blocks: Seq<Block>) -> Option<Pair> {
    if blocks.len() >= 2 && marks_have_room(blocks) {
        let input = with_blocks(blank(size), blocks, 1);
        Some(Pair { input, output: with_marks(input, blocks) })
    } else {
        None
    }
}

/// One block more marks what was marked before and, where it has two
/// cells, the cells on either side of it.
proof fn lemma_marked_next(blocks: Seq<Block>, n: int, i: int)
    requires
        0 <= n < blocks.len(),
    ensures
        marked(blocks.take(n + 1), i) <==> marked(blocks.take(n), i) || (blocks[n].len == 2 && (i
            + 1 == blocks[n].pos || i == blocks[n].pos + 2)),
{
    let before = blocks.take(n);
    let after = blocks.take(n + 1);
    if marked(before, i) {
        let k = choose|k: int|
            0 <= k < before.len() && (#[trigger] before[k]).len == 2 && (i + 1 == before[k].pos
                || i == before[k].pos + 2);
        assert(after[k] == before[k]);
    }
    if blocks[n].len == 2 && (i + 1 == blocks[n].pos || i == blocks[n].pos + 2) {
        assert(after[n] == blocks[n]);
    }
    if marked(after, i) {
        let k = choose|k: int|
            0 <= k < after.len() && (#[trigger] after[k]).len == 2 && (i + 1 == after[k].pos || i
                == after[k].pos + 2);
        if k < n {
            assert(before[k] == after[k]);
        }
    }
}

/// Whether each block but the last has the free cells it needs between
/// itself and the next block.
pub fn have_room(blocks: &[Block]) -> (r: bool)
    requires
        blocks_spaced(blocks@, 0),
        forall|k: int|
            0 <= k < blocks@.len() ==> (#[trigger] blocks@[k]).pos + blocks@[k].len <= usize::MAX,
    ensures
        r == marks_have_room(blocks@),
{
    if blocks.len() == 0 {
        return true;
    }
    let mut k: usize = 0;
    while k < blocks.len() - 1
        invariant
            k <= blocks@.len() - 1,
            blocks_spaced(blocks@, 0),
            forall|j: int|
                0 <= j < blocks@.len() ==> (#[trigger] blocks@[j]).pos + blocks@[j].len
                    <= usize::MAX,
            forall|j: int|
                0 <= j < k ==> blocks@[j].pos + blocks@[j].len + #[trigger] needed_gap(
                    blocks@,
                    j,
                ) <= blocks@[j + 1].pos,
        decreases blocks@.len() - k,
    {
        let here = blocks[k];
        let next = blocks[k + 1];
        let needed: usize = if here.len == 2 {
            3
        } else {
            2
        };
        assert(blocks@[k as int].pos + blocks@[k as int].len + 0 <= blocks@[k + 1].pos);
        assert(needed == needed_gap(blocks@, k as int));
        if next.pos - (here.pos + here.len) < needed {
            return false;
        }
        k += 1;
    }
    true
}

/// The example of `blocks` in the first color whose blocks of two cells
/// the output marks on either side; infeasible with less than two blocks,
/// and where a block lacks the room it needs.
pub fn mark_size_two_blocks_from(size: usize, blocks: &[Block]) -> (r: Option<Example>)
    requires
        blocks_fit(blocks@, size as nat),
        blocks_spaced(blocks@, 0),
    ensures
        outcome(r) == mark_size_two_blocks_pair(size as nat, blocks@),
{
    if blocks.len() < 2 {
        return None;
    }
    if !have_room(blocks) {
        return None;
    }
    let question = paint_blocks(blocks, 1, gen_field(size));
    let mut answer = question.clone();
    let mut n: usize = 0;
    assert(answer@ =~= with_marks(question@, blocks@.take(0)));
    while n < blocks.len()
        invariant
            n <= blocks@.len(),
            blocks_fit(blocks@, size as nat),
            question@.len() == size,
            answer@ == with_marks(question@, blocks@.take(n as int)),
        decreases blocks@.len() - n,
    {
        let block = blocks[n];
        let ghost before = answer@;
        if block.len == 2 {
            if block.pos > 0 {
                answer.set(block.pos - 1, 3);
            }
            if block.pos + block.len < size {
                answer.set(block.pos + block.len, 3);
            }
        }
        proof {
            assert forall|i: int| 0 <= i < size implies answer@[i] == with_marks(
                question@,
                blocks@.take(n + 1),
            )[i] by {
                lemma_marked_next(blocks@, n as int, i);
            }
            assert(answer@ =~= with_marks(question@, blocks@.take(n + 1)));
        }
        n += 1;
    }
    assert(blocks@.take(blocks@.len() as int) == blocks@);
    Some(Example { input: question, output: answer })
}

/// The rows that [`task_mark_size_two_blocks`] draws from: blocks of one
/// to three cells, at least three cells apart, each with a free cell to its
/// right, and two more where it has two cells.
pub open spec fn mark_size_two_blocks_draws(size: nat, blocks: Seq<Block>) -> bool {
    &&& blocks_spaced(blocks, 3)
    &&& blocks_sized(blocks, 1, 3)
    &&& forall|k: int|
        0 <= k < blocks.len() ==> (#[trigger] blocks[k]).pos + blocks[k].len + room_after(
            blocks[k].len,
        ) <= size
}

/// The free cells that a block of `len` cells needs after its last cell
/// inside the field: one, and two more where it has two cells.
pub open spec fn room_after(len: usize) -> int {
    if len == 2 {
        3
    } else {
        1
    }
}

/// A row of blocks for [`task_mark_size_two_blocks`], drawn from left to
/// right: at each free cell a block starts with a chance of two in five,
/// given that it has the room it needs.
fn draw_marked_row(size: usize, rng: &mut StdRng) -> (blocks: Vec<Block>)
    ensures
        mark_size_two_blocks_draws(size as nat, blocks@),
{
    let mut blocks: Vec<Block> = Vec::new();
    let mut pos: usize = 0;
    while pos < size
        invariant
            pos <= size,
            blocks_spaced(blocks@, 3),
            blocks_sized(blocks@, 1, 3),
            forall|k: int|
                0 <= k < blocks@.len() ==> (#[trigger] blocks@[k]).pos + blocks@[k].len
                    + room_after(blocks@[k].len) <= size,
            forall|k: int|
                0 <= k < blocks@.len() ==> (#[trigger] blocks@[k]).pos + blocks@[k].len + 3 <= pos
                    || pos == size,
        decreases size - pos,
    {
        let mut step: usize = 1;
        if draw_ratio(rng, 2, 5) {
            let block_size = draw_through(rng, 1, 3);
            let needed_space = block_size + if block_size == 2 {
                2
            } else {
                0
            };
            if needed_space < size - pos {
                blocks.push(Block { pos, len: block_size });
                step = block_size + 3;
            }
        }
        pos = advance(pos, step, size);
    }
    blocks
}

/// What [`task_mark_size_two_blocks`] can give on a field of `size` cells: for each
/// outcome, the draws that it comes from.
pub open spec fn mark_size_two_blocks_outcome(size: nat, r: Option<Pair>) -> bool {
    &&& r matches Some(p) ==> p.fits(size)
    &&& exists|blocks: Seq<Block>|
        mark_size_two_blocks_draws(size, blocks) && marks_have_room(blocks)
            && r == #[trigger] mark_size_two_blocks_pair(size, blocks)
}

/// Some blocks of one to three cells in the first color, well apart; the
/// output marks each block of two cells with a cell of the third color on
/// either side. Infeasible with less than two blocks.
pub fn task_mark_size_two_blocks(size: usize, rng: &mut StdRng) -> (r: Option<Example>)
    ensures
        mark_size_two_blocks_outcome(size as nat, outcome(r)),
{
    let blocks = draw_marked_row(size, rng);
    proof {
        assert(blocks_fit(blocks@, size as nat));
        assert(blocks_spaced(blocks@, 0));
        assert forall|k: int| 0 <= k < blocks@.len() - 1 implies blocks@[k].pos + blocks@[k].len
            + #[trigger] needed_gap(blocks@, k) <= blocks@[k + 1].pos by {
            assert(blocks@[k].pos + blocks@[k].len + 3 <= blocks@[k + 1].pos);
        }
        lemma_with_blocks_valid(blank(size as nat), blocks@, 1);
    }
    mark_size_two_blocks_from(size, blocks.as_slice())
}

/// The left half of each block: as many cells from its first cell on as
/// half its length, rounded down.
pub open spec fn left_halves(blocks: Seq<Block>) -> Seq<Block> {
    Seq::new(blocks.len(), |k: int| Block { pos: blocks[k].pos, len: blocks[k].len / 2 })
}

/// A row of blocks of the second color, and the same row with the left
/// half of each block in the eighth color. Nothing where there are less than
/// two blocks.
pub open spec fn color_left_half_blocks_pair(size: nat, blocks: Seq<Block>) -> Option<Pair> {
    if blocks.len() < 2 {
        None
    } else {
        let input = with_blocks(blank(size), blocks, 2);
        Some(Pair { input, output: with_blocks(input, left_halves(blocks), 8) })
    }
}

/// The example of `blocks` in the second color whose left halves the
/// output paints in the eighth color; infeasible with less than two blocks.
pub fn color_left_half_blocks_from(size: usize, blocks: &[Block]) -> (r: Option<Example>)
    requires
        blocks_fit(blocks@, size as nat),
    ensures
        outcome(r) == color_left_half_blocks_pair(size as nat, blocks@),
{
    if blocks.len() < 2 {
        return None;
    }
    let question = paint_blocks(blocks, 2, gen_field(size));
    let mut halves: Vec<Block> = Vec::new();
    let mut k: usize = 0;
    while k < blocks.len()
        invariant
            k <= blocks@.len(),
            halves@.len() == k,
            forall|j: int|
                0 <= j < k ==> halves@[j] == (Block {
                    pos: blocks@[j].pos,
                    len: blocks@[j].len / 2,
                }),
        decreases blocks@.len() - k,
    {
        halves.push(Block { pos: blocks[k].pos, len: blocks[k].len / 2 });
        k += 1;
    }
    assert(halves@ =~= left_halves(blocks@));
    assert(blocks_fit(halves@, size as nat)) by {
        assert forall|j: int| 0 <= j < halves@.len() implies (#[trigger] halves@[j]).pos
            + halves@[j].len <= size by {
            assert(blocks@[j].pos + blocks@[j].len <= size);
        }
    }
    let answer = paint_blocks(halves.as_slice(), 8, question.clone());
    Some(Example { input: question, output: answer })
}

/// The rows that [`task_color_left_half_blocks`] draws from: blocks of two
/// to eight cells, at least one cell apart, the last of them ending before
/// the last cell of the field.
pub open spec fn color_left_half_blocks_draws(size: nat, blocks: Seq<Block>) -> bool {
    &&& blocks_spaced(blocks, 1)
    &&& blocks_sized(blocks, 2, 8)
    &&& forall|k: int| 0 <= k < blocks.len() ==> (#[trigger] blocks[k]).pos + blocks[k].len < size
}

/// What [`task_color_left_half_blocks`] can give on a field of `size` cells: for each
/// outcome, the draws that it comes from.
pub open spec fn color_left_half_blocks_outcome(size: nat, r: Option<Pair>) -> bool {
    &&& r matches Some(p) ==> p.fits(size)
    &&& exists|blocks: Seq<Block>|
        color_left_half_blocks_draws(size, blocks) && r
            == #[trigger] color_left_half_blocks_pair(size, blocks)
}

/// Some blocks of two to eight cells in the second color; the output shows
/// the left half of each in the eighth color. Infeasible with less than two
/// blocks.
pub fn task_color_left_half_blocks(size: usize, rng: &mut StdRng) -> (r: Option<Example>)
    ensures
        color_left_half_blocks_outcome(size as nat, outcome(r)),
{
    let mut blocks: Vec<Block> = Vec::new();
    let mut pos: usize = 0;
    while pos < size
        invariant
            pos <= size,
            color_left_half_blocks_draws(size as nat, blocks@),
            forall|k: int|
                0 <= k < blocks@.len() ==> (#[trigger] blocks@[k]).pos + blocks@[k].len + 1
                    <= pos,
        decreases size - pos,
    {
        if draw_ratio(rng, 2, 5) {
            let block_size = draw_through(rng, 2, 8);
            if block_size >= size - pos {
                break ;
            }
            blocks.push(Block { pos, len: block_size });
            pos += block_size + 1;
        } else {
            pos += 1;
        }
    }
    proof {
        assert(blocks_fit(blocks@, size as nat));
        lemma_with_blocks_valid(blank(size as nat), blocks@, 2);
        lemma_with_blocks_valid(
            with_blocks(blank(size as nat), blocks@, 2),
            left_halves(blocks@),
            8,
        );
    }
    color_left_half_blocks_from(size, blocks.as_slice())
}

} // verus!
