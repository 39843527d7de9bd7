//! Rules that copy a color or a pattern from one place of the field to
//! others.

use crate::blocks::{
    advance, blocks_fit, blocks_spaced, lemma_with_blocks_valid,
    lemma_with_colored_blocks_valid, paint_blocks, paint_colored_blocks, with_blocks,
    with_colored_blocks, Block,
};
use crate::example::{outcome, Example, Pair};
use crate::grid::{
    blank, dots_fit, dotted, fully_colored, gen_field, gen_field_color, lemma_dotted_valid,
    lemma_painted_valid, painted, solid, valid_grid, write_block, write_dots, Dot, COLORS,
};
use crate::random::{draw_ratio, draw_through, random_color};
use rand::rngs::StdRng;
use vstd::prelude::*;

verus! {

/// A palette of colors at the left edge and as many blocks of the fifth
/// color, and each block in the color of the palette that has its index.
pub open spec fn recolor_blocks_from_palette_pair(
    size: nat,
    blocks: Seq<Block>,
    colors: Seq<u8>,
) -> Pair {
    let input = with_blocks(painted(blank(size), 0, colors), blocks, 5);
    Pair { input, output: with_colored_blocks(input, blocks, colors) }
}

/// The example with the palette `colors` at the left edge and `blocks` in
/// the fifth color, which the output recolors by the palette.
pub fn recolor_blocks_from_palette_from(size: usize, blocks: &[Block], colors: &[u8]) -> (e:
    Example)
    requires
        blocks_fit(blocks@, size as nat),
        blocks@.len() <= colors@.len() <= size,
    ensures
        e@ == recolor_blocks_from_palette_pair(size as nat, blocks@, colors@),
{
    let question = paint_blocks(blocks, 5, write_block(0, colors, gen_field(size)));
    let answer = paint_colored_blocks(blocks, colors, question.clone());
    Example { input: question, output: answer }
}

/// Whether the first `n` blocks of `row`, moved to the right by `n` cells
/// for the palette and one more, end before the last cell of the field.
pub open spec fn roomy(size: nat, block_size: nat, row: Seq<Block>, n: int) -> bool {
    1 <= n <= row.len() && row[n - 1].pos + block_size + n + 1 < size
}

/// Whether `n` is the number of blocks that are kept of `row`: the
/// greatest number of its first blocks that the palette has room beside,
/// and zero where there is no such number.
pub open spec fn keeps(size: nat, block_size: nat, row: Seq<Block>, n: int) -> bool {
    &&& 0 <= n <= row.len()
    &&& n > 0 ==> roomy(size, block_size, row, n)
    &&& forall|m: int| n < m <= row.len() ==> !#[trigger] roomy(size, block_size, row, m)
}

/// `row` moved to the right by `by` cells.
pub open spec fn shifted(row: Seq<Block>, by: nat) -> Seq<Block> {
    Seq::new(row.len(), |k: int| Block { pos: (row[k].pos + by) as usize, len: row[k].len })
}

/// What [`task_recolor_blocks_from_palette`] draws: the length of the
/// blocks, two to four cells; a row of such blocks, at least one cell apart;
/// and a color for each of the `n` blocks that are kept of the row.
pub open spec fn recolor_blocks_from_palette_draws(
    size: nat,
    block_size: nat,
    row: Seq<Block>,
    n: int,
    colors: Seq<u8>,
) -> bool {
    &&& 2 <= block_size <= 4
    &&& blocks_fit(row, size)
    &&& blocks_spaced(row, 1)
    &&& forall|k: int| 0 <= k < row.len() ==> (#[trigger] row[k]).len == block_size
    &&& keeps(size, block_size, row, n)
    &&& colors.len() == n
    &&& fully_colored(colors)
}

/// What comes of the draws: nothing where no block is kept, and nothing
/// where a color was drawn twice; else the example of the palette and of
/// the blocks that are kept, moved to the right by the palette and one cell
/// more.
pub open spec fn recolor_blocks_from_palette_result(
    size: nat,
    row: Seq<Block>,
    n: int,
    colors: Seq<u8>,
) -> Option<Pair> {
    if n <= 0 || !colors.no_duplicates() {
        None
    } else {
        Some(recolor_blocks_from_palette_pair(size, shifted(row.take(n), (n + 1) as nat), colors))
    }
}

/// Whether `color` is one of `colors`.
pub fn is_used(colors: &[u8], color: u8) -> (used: bool)
    ensures
        used == colors@.contains(color),
{
    let mut i: usize = 0;
    while i < colors.len()
        invariant
            i <= colors@.len(),
            forall|k: int| 0 <= k < i ==> colors@[k] != color,
        decreases colors@.len() - i,
    {
        if colors[i] == color {
            return true;
        }
        i += 1;
    }
    false
}

/// A row of blocks of `block_size` cells, drawn from left to right: at
/// each cell with room for a block one starts with a chance of two in five.
fn draw_equal_row(size: usize, block_size: usize, rng: &mut StdRng) -> (blocks: Vec<Block>)
    requires
        2 <= block_size <= 4,
    ensures
        blocks_fit(blocks@, size as nat),
        blocks_spaced(blocks@, 1),
        forall|k: int| 0 <= k < blocks@.len() ==> (#[trigger] blocks@[k]).len == block_size,
{
    let mut blocks: Vec<Block> = Vec::new();
    let mut pos: usize = 0;
    while size >= block_size && pos <= size - block_size
        invariant
            2 <= block_size <= 4,
            blocks_fit(blocks@, size as nat),
            blocks_spaced(blocks@, 1),
            forall|k: int| 0 <= k < blocks@.len() ==> (#[trigger] blocks@[k]).len == block_size,
            forall|k: int|
                0 <= k < blocks@.len() ==> (#[trigger] blocks@[k]).pos + blocks@[k].len + 1 <= pos
                    || pos == size,
        decreases size - pos,
    {
        if draw_ratio(rng, 2, 5) {
            blocks.push(Block { pos, len: block_size });
            pos = advance(pos, block_size + 1, size);
        } else {
            pos += 1;
        }
    }
    blocks
}

/// Drops blocks from the right end of the row until the row, moved right
/// by the palette and one free cell, ends before the last cell of the
/// field: what is left are the blocks that are kept. Infeasible where no
/// block is left.
fn trim_row(size: usize, block_size: usize, blocks: Vec<Block>) -> (r: Option<Vec<Block>>)
    requires
        blocks_fit(blocks@, size as nat),
        blocks_spaced(blocks@, 1),
        forall|k: int| 0 <= k < blocks@.len() ==> (#[trigger] blocks@[k]).len == block_size,
    ensures
        match r {
            Some(row) => row@.len() >= 1 && row@ == blocks@.take(row@.len() as int) && keeps(
                size as nat,
                block_size as nat,
                blocks@,
                row@.len() as int,
            ),
            None => keeps(size as nat, block_size as nat, blocks@, 0),
        },
{
    let ghost drawn = blocks@;
    let mut kept = blocks;
    assert(kept@ == drawn.take(kept@.len() as int));
    loop
        invariant
            drawn == blocks@,
            blocks_fit(drawn, size as nat),
            forall|k: int| 0 <= k < drawn.len() ==> (#[trigger] drawn[k]).len == block_size,
            kept@.len() <= drawn.len(),
            kept@ == drawn.take(kept@.len() as int),
            forall|m: int|
                kept@.len() < m <= drawn.len() ==> !#[trigger] roomy(
                    size as nat,
                    block_size as nat,
                    drawn,
                    m,
                ),
        ensures
            drawn == blocks@,
            kept@.len() <= drawn.len(),
            kept@ == drawn.take(kept@.len() as int),
            keeps(size as nat, block_size as nat, drawn, kept@.len() as int),
            kept@.len() >= 1,
        decreases kept@.len(),
    {
        let palette_size = kept.len();
        if palette_size == 0 {
            assert(keeps(size as nat, block_size as nat, drawn, 0));
            return None;
        }
        let last = kept[palette_size - 1].pos;
        assert(kept@[palette_size - 1] == drawn[palette_size - 1]);
        assert(drawn[palette_size - 1].pos + drawn[palette_size - 1].len <= size);
        let room = size - (last + block_size);
        if room == 0 || palette_size >= room - 1 {
            kept.pop();
            assert(kept@ == drawn.take(kept@.len() as int));
        } else {
            break ;
        }
    }
    Some(kept)
}

/// The row moved to the right by as many cells as it has blocks, and one
/// more.
fn shift_row(size: usize, block_size: usize, blocks: Vec<Block>) -> (row: Vec<Block>)
    requires
        1 <= blocks@.len(),
        blocks_spaced(blocks@, 1),
        forall|k: int| 0 <= k < blocks@.len() ==> (#[trigger] blocks@[k]).len == block_size,
        blocks@.last().pos + block_size + blocks@.len() + 1 < size,
    ensures
        row@ == shifted(blocks@, (blocks@.len() + 1) as nat),
        row@.len() == blocks@.len(),
        blocks_spaced(row@, 1),
        row@[0].pos >= row@.len() + 1,
        forall|k: int|
            0 <= k < row@.len() ==> (#[trigger] row@[k]).len == block_size && row@[k].pos
                + block_size < size,
{
    let count = blocks.len();
    let mut row: Vec<Block> = Vec::new();
    let mut k: usize = 0;
    while k < count
        invariant
            k <= count,
            count == blocks@.len(),
            blocks_spaced(blocks@, 1),
            forall|j: int| 0 <= j < blocks@.len() ==> (#[trigger] blocks@[j]).len == block_size,
            blocks@.last().pos + block_size + count + 1 < size,
            row@.len() == k,
            forall|j: int|
                0 <= j < k ==> (#[trigger] row@[j]).len == block_size && row@[j].pos
                    == blocks@[j].pos + count + 1,
        decreases count - k,
    {
        assert(blocks@[k as int].pos <= blocks@[count - 1].pos) by {
            if k + 1 < count {
                assert(blocks@[k as int].pos + blocks@[k as int].len + 1 <= blocks@[count
                    - 1].pos);
            }
        }
        row.push(Block { pos: blocks[k].pos + count + 1, len: block_size });
        k += 1;
    }
    proof {
        assert forall|j: int, k: int| 0 <= j < k < row@.len() implies (#[trigger] row@[j]).pos
            + row@[j].len + 1 <= (#[trigger] row@[k]).pos by {
            assert(blocks@[j].len == block_size);
            assert(blocks@[j].pos + blocks@[j].len + 1 <= blocks@[k].pos);
        }
        assert forall|j: int| 0 <= j < row@.len() implies (#[trigger] row@[j]).pos + block_size
            < size by {
            if j + 1 < count {
                assert(blocks@[j].pos + blocks@[j].len + 1 <= blocks@[count - 1].pos);
            }
        }
        assert forall|j: int| 0 <= j < row@.len() implies row@[j] == shifted(
            blocks@,
            (count + 1) as nat,
        )[j] by {
            assert(blocks@[j].len == block_size);
        }
        assert(row@ =~= shifted(blocks@, (count + 1) as nat));
    }
    row
}

/// What [`task_recolor_blocks_from_palette`] can give on a field of `size`
/// cells: what comes of some draws that it can make. A field of less than
/// five cells has no room for a palette and a block.
pub open spec fn recolor_blocks_from_palette_outcome(size: nat, r: Option<Pair>) -> bool {
    &&& size <= 4 ==> r is None
    &&& exists|block_size: nat, row: Seq<Block>, n: int, colors: Seq<u8>|
        #[trigger] recolor_blocks_from_palette_draws(size, block_size, row, n, colors) && r
            == recolor_blocks_from_palette_result(size, row, n, colors)
    &&& r matches Some(p) ==> p.fits(size)
}

/// Some blocks of the fifth color, all of one length, and at the left edge
/// of the field as many colors as there are blocks; the output shows each
/// block in the color that has its place in the palette. Infeasible where no
/// block is left that the palette has room beside, and where a color was
/// drawn twice.
pub fn task_recolor_blocks_from_palette(size: usize, rng: &mut StdRng) -> (r: Option<Example>)
    ensures
        recolor_blocks_from_palette_outcome(size as nat, outcome(r)),
{
    let block_size = draw_through(rng, 2, 4);
    let drawn = draw_equal_row(size, block_size, rng);
    let ghost row = drawn@;
    let kept = match trim_row(size, block_size, drawn) {
        Some(kept) => kept,
        None => {
            proof {
                let none = Seq::<u8>::empty();
                assert(recolor_blocks_from_palette_draws(
                    size as nat,
                    block_size as nat,
                    row,
                    0,
                    none,
                ));
                assert(recolor_blocks_from_palette_result(size as nat, row, 0, none) is None);
            }
            return None;
        },
    };
    let ghost n = kept@.len() as int;
    proof {
        assert(roomy(size as nat, block_size as nat, row, n));
        assert(kept@.last() == row[n - 1]);
        assert forall|j: int, k: int| 0 <= j < k < kept@.len() implies (#[trigger] kept@[j]).pos
            + kept@[j].len + 1 <= (#[trigger] kept@[k]).pos by {
            assert(kept@[j] == row[j] && kept@[k] == row[k]);
        }
        assert forall|k: int| 0 <= k < kept@.len() implies (#[trigger] kept@[k]).len
            == block_size by {
            assert(kept@[k] == row[k]);
        }
    }
    let blocks = shift_row(size, block_size, kept);
    let mut colors: Vec<u8> = Vec::new();
    let mut k: usize = 0;
    while k < blocks.len()
        invariant
            k <= blocks@.len(),
            blocks@.len() == n,
            n >= 1,
            recolor_blocks_from_palette_draws(
                size as nat,
                block_size as nat,
                row,
                n,
                Seq::new(n as nat, |i: int| 1u8),
            ),
            colors@.len() == k,
            fully_colored(colors@),
            colors@.no_duplicates(),
        decreases blocks@.len() - k,
    {
        let color = random_color(rng);
        if is_used(colors.as_slice(), color) {
            proof {
                let first = colors@;
                let twice = Seq::new(
                    n as nat,
                    |i: int|
                        if i < k {
                            first[i]
                        } else {
                            color
                        },
                );
                let j = choose|j: int| 0 <= j < first.len() && first[j] == color;
                assert(twice[j] == twice[k as int]);
                assert(!twice.no_duplicates());
                assert(fully_colored(twice));
                assert(recolor_blocks_from_palette_draws(
                    size as nat,
                    block_size as nat,
                    row,
                    n,
                    twice,
                ));
                assert(recolor_blocks_from_palette_result(size as nat, row, n, twice) is None);
            }
            return None;
        }
        colors.push(color);
        k += 1;
    }
    let e = recolor_blocks_from_palette_from(size, blocks.as_slice(), colors.as_slice());
    proof {
        assert(blocks_fit(blocks@, size as nat));
        assert(recolor_blocks_from_palette_draws(
            size as nat,
            block_size as nat,
            row,
            n,
            colors@,
        ));
        assert(Some(e@) == recolor_blocks_from_palette_result(size as nat, row, n, colors@));
        assert(valid_grid(colors@)) by {
            assert forall|i: int| 0 <= i < colors@.len() implies #[trigger] colors@[i]
                <= COLORS by {
                assert(1 <= colors@[i] <= COLORS);
            }
        }
        let palette = painted(blank(size as nat), 0, colors@);
        lemma_painted_valid(blank(size as nat), 0, colors@);
        lemma_with_blocks_valid(palette, blocks@, 5);
        lemma_with_colored_blocks_valid(with_blocks(palette, blocks@, 5), blocks@, colors@);
    }
    Some(e)
}

/// The blocks of `block_size` cells that have the `dots` in their middle.
pub open spec fn stamps(dots: Seq<Dot>, block_size: nat) -> Seq<Block> {
    Seq::new(
        dots.len(),
        |k: int| Block { pos: (dots[k].pos - block_size / 2) as usize, len: block_size as usize },
    )
}

/// The colors of `dots`, in their order.
pub open spec fn dot_colors(dots: Seq<Dot>) -> Seq<u8> {
    Seq::new(dots.len(), |k: int| dots[k].color)
}

/// A block at the left edge and some single cells, and a copy of the block
/// round each of these cells, in the color of the cell. Nothing where there
/// is no such cell.
pub open spec fn copy_block_to_dots_pair(
    size: nat,
    block_size: nat,
    block_color: u8,
    dots: Seq<Dot>,
) -> Option<Pair> {
    if dots.len() == 0 {
        None
    } else {
        let block = painted(blank(size), 0, solid(block_size, block_color));
        Some(
            Pair {
                input: dotted(block, dots),
                output: with_colored_blocks(block, stamps(dots, block_size), dot_colors(dots)),
            },
        )
    }
}

/// Every dot has room for a block of `block_size` cells round itself.
pub open spec fn stamps_fit(dots: Seq<Dot>, block_size: nat, size: nat) -> bool {
    forall|k: int|
        0 <= k < dots.len() ==> block_size / 2 <= (#[trigger] dots[k]).pos && dots[k].pos
            - block_size / 2 + block_size <= size
}

/// The example with a block of `block_color` at the left edge and the
/// `dots`, round each of which the output shows a copy of the block in the
/// color of the dot; infeasible without a dot.
pub fn copy_block_to_dots_from(size: usize, block_size: usize, block_color: u8, dots: &[Dot]) -> (r:
    Option<Example>)
    requires
        1 <= block_size <= size,
        stamps_fit(dots@, block_size as nat, size as nat),
    ensures
        outcome(r) == copy_block_to_dots_pair(size as nat, block_size as nat, block_color, dots@),
{
    if dots.len() == 0 {
        return None;
    }
    let block = gen_field_color(block_size, block_color);
    let question = write_dots(dots, write_block(0, block.as_slice(), gen_field(size)));
    let mut places: Vec<Block> = Vec::new();
    let mut colors: Vec<u8> = Vec::new();
    let mut k: usize = 0;
    while k < dots.len()
        invariant
            k <= dots@.len(),
            stamps_fit(dots@, block_size as nat, size as nat),
            places@.len() == k,
            colors@.len() == k,
            forall|j: int|
                0 <= j < k ==> places@[j] == (Block {
                    pos: (dots@[j].pos - block_size / 2) as usize,
                    len: block_size,
                }) && colors@[j] == dots@[j].color,
        decreases dots@.len() - k,
    {
        assert(block_size / 2 <= dots@[k as int].pos);
        places.push(Block { pos: dots[k].pos - block_size / 2, len: block_size });
        colors.push(dots[k].color);
        k += 1;
    }
    proof {
        assert(places@ =~= stamps(dots@, block_size as nat));
        assert(colors@ =~= dot_colors(dots@));
        assert forall|j: int| 0 <= j < places@.len() implies (#[trigger] places@[j]).pos
            + places@[j].len <= size by {
            assert(dots@[j].pos - block_size / 2 + block_size <= size);
        }
    }
    let answer = paint_colored_blocks(
        places.as_slice(),
        colors.as_slice(),
        write_block(0, block.as_slice(), gen_field(size)),
    );
    Some(Example { input: question, output: answer })
}

/// The dots that the two rules of this kind draw from: in colors of the
/// alphabet, the first far enough from the block at the left edge that the
/// copy round it does not touch the block, each next one far enough from
/// the one before that their copies do not touch, none further right than
/// `last`.
pub open spec fn copy_block_to_dots_draws(block_size: nat, last: nat, dots: Seq<Dot>) -> bool {
    &&& forall|k: int|
        0 <= k < dots.len() ==> block_size + block_size / 2 + 1 <= (#[trigger] dots[k]).pos
            <= last && 1 <= dots[k].color <= COLORS
    &&& forall|j: int, k: int|
        0 <= j < k < dots.len() ==> (#[trigger] dots[j]).pos + block_size + 1 <= (
        #[trigger] dots[k]).pos
}

/// Dots for a block of `block_size` cells, drawn from left to right up to
/// the cell `last`: at each cell far enough from what lies to its left a dot
/// is set with an even chance, in `color` or, where `color` is none, in a
/// color drawn for it.
fn draw_dots(block_size: usize, last: usize, color: Option<u8>, rng: &mut StdRng) -> (dots: Vec<
    Dot,
>)
    requires
        3 <= block_size <= 5,
        last < usize::MAX,
        color matches Some(c) ==> 1 <= c <= COLORS,
    ensures
        copy_block_to_dots_draws(block_size as nat, last as nat, dots@),
        color matches Some(c) ==> forall|k: int|
            0 <= k < dots@.len() ==> (#[trigger] dots@[k]).color == c,
{
    let mut dots: Vec<Dot> = Vec::new();
    let limit = last + 1;
    let mut pos: usize = advance(0, block_size + block_size / 2 + 1, limit);
    while pos < limit
        invariant
            3 <= block_size <= 5,
            limit == last + 1,
            pos <= limit,
            block_size + block_size / 2 + 1 <= pos || pos == limit,
            color matches Some(c) ==> 1 <= c <= COLORS,
            copy_block_to_dots_draws(block_size as nat, last as nat, dots@),
            color matches Some(c) ==> forall|k: int|
                0 <= k < dots@.len() ==> (#[trigger] dots@[k]).color == c,
            forall|k: int|
                0 <= k < dots@.len() ==> (#[trigger] dots@[k]).pos + block_size + 1 <= pos || pos
                    == limit,
        decreases limit - pos,
    {
        let mut step: usize = 1;
        if draw_ratio(rng, 1, 2) {
            let dot_color = match color {
                Some(c) => c,
                None => random_color(rng),
            };
            dots.push(Dot { pos, color: dot_color });
            step = block_size + 1;
        }
        pos = advance(pos, step, limit);
    }
    dots
}

/// Three or five, with an even chance.
fn draw_odd_size(rng: &mut StdRng) -> (block_size: usize)
    ensures
        block_size == 3 || block_size == 5,
{
    if draw_ratio(rng, 1, 2) {
        3
    } else {
        5
    }
}

/// Dots that lie far enough from the edges of the field have room for
/// their copies, and the input and output made of them are grids of the
/// alphabet.
proof fn lemma_copies_fit(size: nat, block_size: nat, block_color: u8, last: nat, dots: Seq<Dot>)
    requires
        3 <= block_size <= 5,
        block_size < size,
        last + block_size <= size,
        1 <= block_color <= COLORS,
        copy_block_to_dots_draws(block_size, last, dots),
    ensures
        stamps_fit(dots, block_size, size),
        dots.len() > 0 ==> copy_block_to_dots_pair(size, block_size, block_color, dots)->0.fits(
            size,
        ),
{
    let block = painted(blank(size), 0, solid(block_size, block_color));
    lemma_painted_valid(blank(size), 0, solid(block_size, block_color));
    assert(dots_fit(dots, size));
    lemma_dotted_valid(block, dots);
    assert(valid_grid(dot_colors(dots)));
    lemma_with_colored_blocks_valid(block, stamps(dots, block_size), dot_colors(dots));
}

/// What comes of a block and dots: nothing where the block is not shorter
/// than the field, else what [`copy_block_to_dots_pair`] says, which is
/// nothing without a dot.
pub open spec fn copy_block_to_dots_result(
    size: nat,
    block_size: nat,
    block_color: u8,
    dots: Seq<Dot>,
) -> Option<Pair> {
    if block_size >= size {
        None
    } else {
        copy_block_to_dots_pair(size, block_size, block_color, dots)
    }
}

/// What [`task_copy_block_to_dots`] can give on a field of `size` cells:
/// what comes of a block of three or five cells and, where it is shorter
/// than the field, of a color and of dots of that color that the rule can
/// draw. A field of less than eight cells has no room for a dot.
pub open spec fn copy_block_to_dots_outcome(size: nat, r: Option<Pair>) -> bool {
    &&& size <= 7 ==> r is None
    &&& exists|block_size: nat, color: u8, dots: Seq<Dot>|
        (block_size == 3 || block_size == 5) && (block_size < size ==> 1 <= color <= COLORS
            && copy_block_to_dots_draws(block_size, (size - block_size) as nat, dots)
            && dot_colors(dots) == solid(dots.len(), color)) && r
            == #[trigger] copy_block_to_dots_result(size, block_size, color, dots)
    &&& r matches Some(p) ==> p.fits(size)
}

/// A block of three or five cells at the left edge and some single cells
/// of the same color; the output shows a copy of the block round each of
/// these cells. Infeasible where the block is not shorter than the field,
/// and where no cell was set.
pub fn task_copy_block_to_dots(size: usize, rng: &mut StdRng) -> (r: Option<Example>)
    ensures
        copy_block_to_dots_outcome(size as nat, outcome(r)),
{
    let block_size = draw_odd_size(rng);
    if block_size >= size {
        proof {
            assert(copy_block_to_dots_result(
                size as nat,
                block_size as nat,
                0,
                Seq::<Dot>::empty(),
            ) is None);
        }
        return None;
    }
    let color = random_color(rng);
    let dots = draw_dots(block_size, size - block_size, Some(color), rng);
    proof {
        lemma_copies_fit(
            size as nat,
            block_size as nat,
            color,
            (size - block_size) as nat,
            dots@,
        );
        assert(dot_colors(dots@) =~= solid(dots@.len(), color));
    }
    let r = copy_block_to_dots_from(size, block_size, color, dots.as_slice());
    proof {
        assert(outcome(r) == copy_block_to_dots_result(
            size as nat,
            block_size as nat,
            color,
            dots@,
        ));
    }
    r
}

/// What [`task_copy_block_to_dots_colors`] can give on a field of `size`
/// cells: what comes of a block of three or five cells and, where it is
/// shorter than the field, of a color and of dots, each of a color of its
/// own, that the rule can draw. A field of less than nine cells has no room
/// for a dot.
pub open spec fn copy_block_to_dots_colors_outcome(size: nat, r: Option<Pair>) -> bool {
    &&& size <= 8 ==> r is None
    &&& exists|block_size: nat, color: u8, dots: Seq<Dot>|
        (block_size == 3 || block_size == 5) && (block_size < size ==> 1 <= color <= COLORS
            && copy_block_to_dots_draws(block_size, (size - block_size - 1) as nat, dots)) && r
            == #[trigger] copy_block_to_dots_result(size, block_size, color, dots)
    &&& r matches Some(p) ==> p.fits(size)
}

/// A block of three or five cells at the left edge and some single cells,
/// each of a color of its own; the output shows a copy of the block round
/// each of these cells, in the color of the cell. Infeasible where the block
/// is not shorter than the field, and where no cell was set.
pub fn task_copy_block_to_dots_colors(size: usize, rng: &mut StdRng) -> (r: Option<Example>)
    ensures
        copy_block_to_dots_colors_outcome(size as nat, outcome(r)),
{
    let block_size = draw_odd_size(rng);
    if block_size >= size {
        proof {
            assert(copy_block_to_dots_result(
                size as nat,
                block_size as nat,
                0,
                Seq::<Dot>::empty(),
            ) is None);
        }
        return None;
    }
    let color = random_color(rng);
    let dots = draw_dots(block_size, size - block_size - 1, None, rng);
    proof {
        lemma_copies_fit(
            size as nat,
            block_size as nat,
            color,
            (size - block_size - 1) as nat,
            dots@,
        );
    }
    let r = copy_block_to_dots_from(size, block_size, color, dots.as_slice());
    proof {
        assert(outcome(r) == copy_block_to_dots_result(
            size as nat,
            block_size as nat,
            color,
            dots@,
        ));
    }
    r
}

/// A pattern shown twice at the left edge, and the pattern repeated over
/// the whole field, the last copy cut at the right edge. Nothing where the
/// two copies would fill the field or more.
pub open spec fn repeat_pattern_full_pair(size: nat, pattern: Seq<u8>) -> Option<Pair> {
    if 2 * pattern.len() >= size {
        None
    } else {
        Some(
            Pair {
                input: painted(
                    painted(blank(size), 0, pattern),
                    pattern.len() as int,
                    pattern,
                ),
                output: Seq::new(size, |i: int| pattern[i % (pattern.len() as int)]),
            },
        )
    }
}

/// The example that shows `pattern` twice and asks for it all over the
/// field; infeasible where the two copies would fill the field or more.
pub fn repeat_pattern_full_from(size: usize, pattern: &[u8]) -> (r: Option<Example>)
    requires
        pattern@.len() >= 1,
    ensures
        outcome(r) == repeat_pattern_full_pair(size as nat, pattern@),
{
    let len = pattern.len();
    if len >= size || len >= size - len {
        return None;
    }
    let question = write_block(len, pattern, write_block(0, pattern, gen_field(size)));
    let mut answer: Vec<u8> = Vec::new();
    let mut i: usize = 0;
    while i < size
        invariant
            i <= size,
            len == pattern@.len(),
            len >= 1,
            answer@.len() == i,
            forall|k: int| 0 <= k < i ==> answer@[k] == pattern@[k % (len as int)],
        decreases size - i,
    {
        answer.push(pattern[i % len]);
        i += 1;
    }
    assert(answer@ =~= Seq::new(size as nat, |i: int| pattern@[i % (pattern@.len() as int)]));
    Some(Example { input: question, output: answer })
}

/// What [`task_repeat_pattern_full`] can give on a field of `size` cells: for each
/// outcome, the draws that it comes from.
pub open spec fn repeat_pattern_full_outcome(size: nat, r: Option<Pair>) -> bool {
    &&& size <= 4 ==> r is None
    &&& size > 10 ==> r is Some
    &&& r matches Some(p) ==> p.fits(size)
    &&& exists|pattern: Seq<u8>|
        2 <= pattern.len() <= 5 && fully_colored(pattern) && r
            == #[trigger] repeat_pattern_full_pair(size, pattern)
}

/// A random pattern of two to five cells, shown twice at the left edge;
/// the output repeats it over the whole field and cuts the last copy at the
/// right edge. Infeasible where the two copies would fill the field or more.
pub fn task_repeat_pattern_full(size: usize, rng: &mut StdRng) -> (r: Option<Example>)
    ensures
        repeat_pattern_full_outcome(size as nat, outcome(r)),
{
    let pattern_size = draw_through(rng, 2, 5);
    let mut pattern: Vec<u8> = Vec::new();
    let mut i: usize = 0;
    while i < pattern_size
        invariant
            i <= pattern_size,
            pattern@.len() == i,
            fully_colored(pattern@),
        decreases pattern_size - i,
    {
        let color = random_color(rng);
        pattern.push(color);
        i += 1;
    }
    let r = repeat_pattern_full_from(size, pattern.as_slice());
    proof {
        if r is Some {
            let p = pattern@;
            assert(valid_grid(p)) by {
                assert forall|i: int| 0 <= i < p.len() implies #[trigger] p[i] <= COLORS by {
                    assert(1 <= p[i] <= COLORS);
                }
            }
            lemma_painted_valid(blank(size as nat), 0, p);
            lemma_painted_valid(painted(blank(size as nat), 0, p), p.len() as int, p);
            let out = Seq::new(size as nat, |i: int| p[i % (p.len() as int)]);
            assert forall|i: int| 0 <= i < out.len() implies #[trigger] out[i] <= COLORS by {
                assert(0 <= i % (p.len() as int) < p.len());
                assert(1 <= p[i % (p.len() as int)] <= COLORS);
            }
        }
    }
    r
}

} // verus!
