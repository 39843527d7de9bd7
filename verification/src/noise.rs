//! Rules that ask to tell a block from the noise beside it or inside it.

use crate::blocks::{lemma_order, random_order, Block};
use crate::example::{outcome, Example, Pair};
use crate::grid::{
    blank, dots_apart, dots_fit, dotted, gen_field, gen_field_color, has_background,
    lemma_dotted_valid,
    lemma_painted_valid, painted, solid, write_block, write_dots, Dot, COLORS,
};
use crate::random::{draw_below, draw_through, permute_color_not_black, random_color};
use rand::rngs::StdRng;
use vstd::prelude::*;

verus! {

/// A dot of `color` in each of `cells`, in their order.
pub open spec fn dots_of(cells: Seq<usize>, color: u8) -> Seq<Dot> {
    Seq::new(cells.len(), |k: int| Dot { pos: cells[k], color })
}

/// A dot of `color` in each of `cells`, in their order.
pub fn make_dots(cells: &[usize], color: u8) -> (dots: Vec<Dot>)
    ensures
        dots@ == dots_of(cells@, color),
{
    let mut dots: Vec<Dot> = Vec::new();
    let mut k: usize = 0;
    while k < cells.len()
        invariant
            k <= cells@.len(),
            dots@ == dots_of(cells@.take(k as int), color),
        decreases cells@.len() - k,
    {
        dots.push(Dot { pos: cells[k], color });
        assert(dots@ =~= dots_of(cells@.take(k + 1), color));
        k += 1;
    }
    assert(cells@.take(cells@.len() as int) == cells@);
    dots
}

/// A block and some single cells of the same color, and the block alone.
pub open spec fn block_and_noise_remove_pair(
    size: nat,
    color: u8,
    block: Block,
    noise: Seq<usize>,
) -> Pair {
    let input = dotted(
        painted(blank(size), block.pos as int, solid(block.len as nat, color)),
        dots_of(noise, color),
    );
    Pair { input, output: dotted(input, dots_of(noise, 0)) }
}

/// The example that shows `block` and the cells `noise` in `color` and
/// asks for the field without the noise.
pub fn block_and_noise_remove_from(size: usize, color: u8, block: Block, noise: &[usize]) -> (e:
    Example)
    requires
        block.pos + block.len <= size,
        forall|k: int| 0 <= k < noise@.len() ==> #[trigger] noise@[k] < size,
    ensures
        e@ == block_and_noise_remove_pair(size as nat, color, block, noise@),
{
    let run = gen_field_color(block.len, color);
    let field = write_block(block.pos, run.as_slice(), gen_field(size));
    let shown = make_dots(noise, color);
    let gone = make_dots(noise, 0);
    let question = write_dots(shown.as_slice(), field);
    let answer = write_dots(gone.as_slice(), question.clone());
    Example { input: question, output: answer }
}

/// Whether cell `i` lies in the run of `len` cells from `pos` on or right
/// beside it.
pub open spec fn touches(pos: int, len: int, i: int) -> bool {
    pos - 1 <= i <= pos + len
}

/// Whether cell `i` touches the block or one of the cells of noise, so
/// that no cell of noise can be set there.
pub open spec fn taken(block: Block, noise: Seq<usize>, i: int) -> bool {
    touches(block.pos as int, block.len as int, i) || exists|k: int|
        0 <= k < noise.len() && touches(#[trigger] noise[k] as int, 1, i)
}

/// Whether the field has no cell left for a cell of noise.
pub open spec fn crowded(size: nat, block: Block, noise: Seq<usize>) -> bool {
    forall|i: int| 0 <= i < size ==> #[trigger] taken(block, noise, i)
}

/// What [`task_block_and_noise_remove`] draws: a color, a block of at
/// least two cells, the number of cells of noise that are wanted, one to
/// three, and cells of noise, none of which touches the block or another
/// one. They are as many as are wanted, or fewer where the field has no
/// cell left for one more.
pub open spec fn block_and_noise_remove_draws(
    size: nat,
    color: u8,
    block: Block,
    noise: Seq<usize>,
    wanted: nat,
) -> bool {
    &&& 1 <= color <= COLORS
    &&& 2 <= block.len
    &&& block.pos + block.len <= size
    &&& 1 <= wanted <= 3
    &&& noise.len() <= wanted
    &&& noise.len() < wanted ==> crowded(size, block, noise)
    &&& forall|k: int|
        0 <= k < noise.len() ==> #[trigger] noise[k] < size && !touches(
            block.pos as int,
            block.len as int,
            noise[k] as int,
        )
    &&& forall|j: int, k: int|
        0 <= j < k < noise.len() ==> !touches(
            #[trigger] noise[j] as int,
            1,
            #[trigger] noise[k] as int,
        )
}

/// What comes of the draws: nothing where fewer cells of noise were set
/// than are wanted, else the example of the block and the noise.
pub open spec fn block_and_noise_remove_result(
    size: nat,
    color: u8,
    block: Block,
    noise: Seq<usize>,
    wanted: nat,
) -> Option<Pair> {
    if noise.len() < wanted {
        None
    } else {
        Some(block_and_noise_remove_pair(size, color, block, noise))
    }
}

/// As many flags as the field has cells, none of them set.
pub fn all_clear(size: usize) -> (flags: Vec<bool>)
    ensures
        flags@ == Seq::new(size as nat, |i: int| false),
{
    let mut flags: Vec<bool> = Vec::new();
    let mut i: usize = 0;
    while i < size
        invariant
            i <= size,
            flags@ == Seq::new(i as nat, |i: int| false),
        decreases size - i,
    {
        flags.push(false);
        i += 1;
    }
    flags
}

/// Sets the flag of every cell that lies in the run of `len` cells from
/// `pos` on or right beside it.
pub fn forbid_around(forbidden: &mut Vec<bool>, pos: usize, len: usize)
    requires
        pos + len <= old(forbidden)@.len(),
    ensures
        final(forbidden)@ == Seq::new(
            old(forbidden)@.len(),
            |i: int| old(forbidden)@[i] || touches(pos as int, len as int, i),
        ),
{
    let size = forbidden.len();
    let first = if pos > 0 {
        pos - 1
    } else {
        0
    };
    let end = if pos + len < size {
        pos + len + 1
    } else {
        size
    };
    let mut i: usize = first;
    let ghost before = forbidden@;
    while i < end
        invariant
            first <= i <= end <= size,
            pos + len <= size,
            first == (if pos > 0 {
                pos - 1
            } else {
                0int
            }),
            end == (if pos + len < size {
                pos + len + 1
            } else {
                size as int
            }),
            forbidden@.len() == size,
            before.len() == size,
            forall|k: int|
                0 <= k < size ==> #[trigger] forbidden@[k] == (before[k] || (first <= k < i)),
        decreases end - i,
    {
        forbidden.set(i, true);
        i += 1;
    }
    assert forall|k: int| 0 <= k < size implies #[trigger] forbidden@[k] == (before[k] || touches(
        pos as int,
        len as int,
        k,
    )) by {
        assert(forbidden@[k] == (before[k] || (first <= k < end)));
    }
    assert(forbidden@ =~= Seq::new(
        before.len(),
        |i: int| before[i] || touches(pos as int, len as int, i),
    ));
}

/// The cells whose flag is not set, from left to right.
pub fn free_cells(forbidden: &[bool]) -> (cells: Vec<usize>)
    ensures
        forall|k: int|
            0 <= k < cells@.len() ==> #[trigger] cells@[k] < forbidden@.len()
                && !forbidden@[cells@[k] as int],
        forall|j: int, k: int| 0 <= j < k < cells@.len() ==> cells@[j] < cells@[k],
        forall|i: int| 0 <= i < forbidden@.len() && !forbidden@[i] ==> cells@.contains(i as usize),
{
    let mut cells: Vec<usize> = Vec::new();
    let mut i: usize = 0;
    while i < forbidden.len()
        invariant
            i <= forbidden@.len(),
            forall|k: int|
                0 <= k < cells@.len() ==> #[trigger] cells@[k] < i && !forbidden@[cells@[k] as int],
            forall|j: int, k: int| 0 <= j < k < cells@.len() ==> cells@[j] < cells@[k],
            forall|c: int| 0 <= c < i && !forbidden@[c] ==> cells@.contains(c as usize),
        decreases forbidden@.len() - i,
    {
        if !forbidden[i] {
            let ghost before = cells@;
            cells.push(i);
            proof {
                assert(cells@[before.len() as int] == i);
                assert forall|c: int| 0 <= c < i + 1 && !forbidden@[c] implies cells@.contains(
                    c as usize,
                ) by {
                    if c < i {
                        let k = choose|k: int| 0 <= k < before.len() && before[k] == c as usize;
                        assert(cells@[k] == c as usize);
                    }
                }
            }
        }
        i += 1;
    }
    cells
}

/// What [`task_block_and_noise_remove`] can give on a field of `size`
/// cells: what comes of some draws that it can make. A field of less than
/// four cells has no room for a block and a cell of noise apart from it.
pub open spec fn block_and_noise_remove_outcome(size: nat, r: Option<Pair>) -> bool {
    &&& size <= 3 ==> r is None
    &&& exists|color: u8, block: Block, noise: Seq<usize>, wanted: nat|
        block_and_noise_remove_draws(size, color, block, noise, wanted) && r
            == #[trigger] block_and_noise_remove_result(size, color, block, noise, wanted)
    &&& r matches Some(p) ==> p.fits(size)
}

/// A solid block and one to three single cells of its color, none of which
/// touches the block or another one; the output shows the block alone.
/// Infeasible where the field has no free cell left for a cell of noise that
/// is still to be set.
pub fn task_block_and_noise_remove(size: usize, rng: &mut StdRng) -> (r: Option<Example>)
    requires
        size >= 2,
    ensures
        block_and_noise_remove_outcome(size as nat, outcome(r)),
{
    let color = random_color(rng);
    let block_size = draw_through(rng, 2, size);
    let block_pos = draw_through(rng, 0, size - block_size);
    let block = Block { pos: block_pos, len: block_size };
    let mut forbidden = all_clear(size);
    forbid_around(&mut forbidden, block_pos, block_size);
    let noise_count = draw_through(rng, 1, 3);
    let mut noise: Vec<usize> = Vec::new();
    while noise.len() < noise_count
        invariant
            noise@.len() <= noise_count <= 3,
            1 <= noise_count,
            1 <= color <= COLORS,
            2 <= block.len,
            forbidden@.len() == size,
            block.pos + block.len <= size,
            forall|i: int|
                0 <= i < size && touches(block.pos as int, block.len as int, i)
                    ==> #[trigger] forbidden@[i],
            forall|k: int, i: int|
                0 <= k < noise@.len() && 0 <= i < size && touches(
                    #[trigger] noise@[k] as int,
                    1,
                    i,
                ) ==> #[trigger] forbidden@[i],
            forall|i: int| 0 <= i < size && #[trigger] forbidden@[i] ==> taken(block, noise@, i),
            forall|k: int|
                0 <= k < noise@.len() ==> #[trigger] noise@[k] < size && !touches(
                    block.pos as int,
                    block.len as int,
                    noise@[k] as int,
                ),
            forall|j: int, k: int|
                0 <= j < k < noise@.len() ==> !touches(
                    #[trigger] noise@[j] as int,
                    1,
                    #[trigger] noise@[k] as int,
                ),
        decreases noise_count - noise@.len(),
    {
        let allowed = free_cells(forbidden.as_slice());
        if allowed.len() == 0 {
            proof {
                assert forall|i: int| 0 <= i < size implies #[trigger] taken(
                    block,
                    noise@,
                    i,
                ) by {
                    if !forbidden@[i] {
                        assert(allowed@.contains(i as usize));
                    }
                }
                assert(block_and_noise_remove_draws(
                    size as nat,
                    color,
                    block,
                    noise@,
                    noise_count as nat,
                ));
                assert(block_and_noise_remove_result(
                    size as nat,
                    color,
                    block,
                    noise@,
                    noise_count as nat,
                ) is None);
            }
            return None;
        }
        let noise_pos = allowed[draw_below(rng, 0, allowed.len())];
        let ghost before = noise@;
        let ghost flags = forbidden@;
        assert(!flags[noise_pos as int]);
        noise.push(noise_pos);
        forbid_around(&mut forbidden, noise_pos, 1);
        proof {
            assert forall|j: int, k: int| 0 <= j < k < noise@.len() implies !touches(
                #[trigger] noise@[j] as int,
                1,
                #[trigger] noise@[k] as int,
            ) by {
                if k == before.len() {
                    assert(noise@[j] == before[j]);
                    if touches(before[j] as int, 1, noise_pos as int) {
                        assert(flags[noise_pos as int]);
                    }
                } else {
                    assert(noise@[j] == before[j] && noise@[k] == before[k]);
                }
            }
            assert forall|k: int, i: int|
                0 <= k < noise@.len() && 0 <= i < size && touches(
                    #[trigger] noise@[k] as int,
                    1,
                    i,
                ) implies #[trigger] forbidden@[i] by {
                if k < before.len() {
                    assert(noise@[k] == before[k]);
                    assert(flags[i]);
                }
            }
            assert forall|i: int| 0 <= i < size && #[trigger] forbidden@[i] implies taken(
                block,
                noise@,
                i,
            ) by {
                if flags[i] {
                    assert(taken(block, before, i));
                    if !touches(block.pos as int, block.len as int, i) {
                        let k = choose|k: int|
                            0 <= k < before.len() && touches(#[trigger] before[k] as int, 1, i);
                        assert(noise@[k] == before[k]);
                    }
                } else {
                    assert(noise@[before.len() as int] == noise_pos);
                }
            }
        }
    }
    let e = block_and_noise_remove_from(size, color, block, noise.as_slice());
    proof {
        assert(block_and_noise_remove_draws(size as nat, color, block, noise@, noise_count as nat));
        assert(Some(e@) == block_and_noise_remove_result(
            size as nat,
            color,
            block,
            noise@,
            noise_count as nat,
        ));
        assert(noise@[0] < size && !touches(block.pos as int, block.len as int, noise@[0] as int));
        let field = painted(blank(size as nat), block.pos as int, solid(block.len as nat, color));
        lemma_painted_valid(blank(size as nat), block.pos as int, solid(block.len as nat, color));
        lemma_dots_of_valid(field, noise@, color);
        lemma_dots_of_valid(dotted(field, dots_of(noise@, color)), noise@, 0);
    }
    Some(e)
}

/// Writing a color of the alphabet into cells of a grid of colors gives a
/// grid of colors of the same length.
proof fn lemma_dots_of_valid(field: Seq<u8>, cells: Seq<usize>, color: u8)
    requires
        crate::grid::valid_grid(field),
        color <= COLORS,
        forall|k: int| 0 <= k < cells.len() ==> #[trigger] cells[k] < field.len(),
    ensures
        crate::grid::valid_grid(dotted(field, dots_of(cells, color))),
        dotted(field, dots_of(cells, color)).len() == field.len(),
    decreases cells.len(),
{
    if cells.len() > 0 {
        lemma_dots_of_valid(field, cells.drop_last(), color);
        assert(dots_of(cells, color).drop_last() == dots_of(cells.drop_last(), color));
    }
}

/// A block with some cells of other colors inside, and the block alone.
pub open spec fn block_and_noise_remove_inside_pair(
    size: nat,
    color: u8,
    block: Block,
    noise: Seq<Dot>,
) -> Pair {
    let field = painted(blank(size), block.pos as int, solid(block.len as nat, color));
    Pair { input: dotted(field, noise), output: field }
}

/// The example that shows `block` in `color` with the cells `noise` in it
/// and asks for the block alone.
pub fn block_and_noise_remove_inside_from(
    size: usize,
    color: u8,
    block: Block,
    noise: &[Dot],
) -> (e: Example)
    requires
        block.pos + block.len <= size,
        forall|k: int| 0 <= k < noise@.len() ==> (#[trigger] noise@[k]).pos < size,
    ensures
        e@ == block_and_noise_remove_inside_pair(size as nat, color, block, noise@),
{
    let run = gen_field_color(block.len, color);
    let answer = write_block(block.pos, run.as_slice(), gen_field(size));
    let question = write_dots(noise, answer.clone());
    Example { input: question, output: answer }
}

/// The most cells of noise that fit a block of `block_size` cells: one
/// less than half of its cells, and one at least.
pub open spec fn most_noise(block_size: nat) -> nat {
    if block_size / 2 >= 2 {
        (block_size / 2 - 1) as nat
    } else {
        1
    }
}

/// What [`task_block_and_noise_remove_inside`] draws: a color, a block of
/// at least six cells, and in it less than half as many cells of noise, no
/// two in one place, each in a color other than the block's, which is the
/// background where the draw came out so.
pub open spec fn block_and_noise_remove_inside_draws(
    size: nat,
    color: u8,
    block: Block,
    noise: Seq<Dot>,
) -> bool {
    &&& 1 <= color <= COLORS
    &&& 6 <= block.len
    &&& block.pos + block.len <= size
    &&& 1 <= noise.len() <= most_noise(block.len as nat)
    &&& dots_apart(noise)
    &&& forall|k: int|
        0 <= k < noise.len() ==> block.pos <= (#[trigger] noise[k]).pos < block.pos + block.len
            && noise[k].color <= COLORS && noise[k].color != color
}

/// What comes of the draws: nothing where a color of the noise came out as
/// the background, else the example of the block and the noise.
pub open spec fn block_and_noise_remove_inside_result(
    size: nat,
    color: u8,
    block: Block,
    noise: Seq<Dot>,
) -> Option<Pair> {
    if has_background(noise) {
        None
    } else {
        Some(block_and_noise_remove_inside_pair(size, color, block, noise))
    }
}

/// What [`task_block_and_noise_remove_inside`] can give on a field of
/// `size` cells: nothing on a field of six cells or less, else what comes of
/// some draws that it can make.
pub open spec fn block_and_noise_remove_inside_outcome(size: nat, r: Option<Pair>) -> bool {
    &&& size <= 6 ==> r is None
    &&& size > 6 ==> exists|color: u8, block: Block, noise: Seq<Dot>|
        block_and_noise_remove_inside_draws(size, color, block, noise) && r
            == #[trigger] block_and_noise_remove_inside_result(size, color, block, noise)
    &&& r matches Some(p) ==> p.fits(size)
}

/// A solid block of at least six cells with some cells of other colors
/// inside; the output shows the block alone. Infeasible on a field of six
/// cells or less, and where a color of the noise came out as the background.
pub fn task_block_and_noise_remove_inside(size: usize, rng: &mut StdRng) -> (r: Option<Example>)
    ensures
        block_and_noise_remove_inside_outcome(size as nat, outcome(r)),
{
    if size <= 6 {
        return None;
    }
    let color = random_color(rng);
    let block_size = draw_through(rng, 6, size);
    let block_pos = draw_through(rng, 0, size - block_size);
    let block = Block { pos: block_pos, len: block_size };
    let max_noise = if block_size / 2 >= 2 {
        block_size / 2 - 1
    } else {
        1
    };
    let noise_count = draw_through(rng, 1, max_noise);
    let order = random_order(block_size, rng);
    proof {
        lemma_order(order@);
    }
    let mut noise: Vec<Dot> = Vec::new();
    let mut k: usize = 0;
    while k < noise_count
        invariant
            k <= noise_count <= block_size,
            size > 6,
            block == (Block { pos: block_pos, len: block_size }),
            6 <= block_size,
            noise_count <= most_noise(block_size as nat),
            order@.len() == block_size,
            order@.no_duplicates(),
            forall|i: int| 0 <= i < order@.len() ==> #[trigger] order@[i] < block_size,
            block_pos + block_size <= size,
            1 <= color <= COLORS,
            noise@.len() == k,
            forall|j: int|
                0 <= j < k ==> (#[trigger] noise@[j]).pos == block_pos + order@[j] && 1
                    <= noise@[j].color <= COLORS && noise@[j].color != color,
        decreases noise_count - k,
    {
        assert(order@[k as int] < block_size);
        let noise_color = match permute_color_not_black(color, rng) {
            Some(c) => c,
            None => {
                proof {
                    let place = (block_pos + order@[k as int]) as usize;
                    let failed = noise@.push(Dot { pos: place, color: 0 });
                    assert(failed[k as int].color == 0);
                    assert(has_background(failed));
                    assert forall|i: int, j: int| 0 <= i < j < failed.len() implies (
                    #[trigger] failed[i]).pos != (#[trigger] failed[j]).pos by {
                        assert(order@[i] != order@[j]);
                    }
                    assert(block_and_noise_remove_inside_draws(size as nat, color, block, failed));
                    assert(block_and_noise_remove_inside_result(size as nat, color, block, failed)
                        is None);
                }
                return None;
            },
        };
        noise.push(Dot { pos: block_pos + order[k], color: noise_color });
        k += 1;
    }
    let e = block_and_noise_remove_inside_from(size, color, block, noise.as_slice());
    proof {
        assert(dots_apart(noise@)) by {
            assert forall|i: int, j: int| 0 <= i < j < noise@.len() implies (
            #[trigger] noise@[i]).pos != (#[trigger] noise@[j]).pos by {
                assert(order@[i] != order@[j]);
            }
        }
        assert(block_and_noise_remove_inside_draws(size as nat, color, block, noise@));
        assert(!has_background(noise@));
        assert(Some(e@) == block_and_noise_remove_inside_result(size as nat, color, block, noise@));
        let field = painted(blank(size as nat), block.pos as int, solid(block.len as nat, color));
        lemma_painted_valid(blank(size as nat), block.pos as int, solid(block.len as nat, color));
        assert(dots_fit(noise@, size as nat));
        lemma_dotted_valid(field, noise@);
    }
    Some(e)
}

} // verus!
