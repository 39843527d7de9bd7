//! Rules that tell the blocks of a row apart by their length: they paint,
//! mark, recolor or sort them.

use crate::blocks::{
    advance, ascending, blocks_fit, blocks_sized, blocks_spaced, lemma_with_blocks_valid, lengths,
    pack, packed, paint_blocks, sort_lengths, span, with_blocks, Block,
};
use crate::example::{outcome, Example, Pair};
use crate::grid::{
    blank, gen_field, gen_field_color, lemma_painted_valid, painted, solid, write_block, COLORS,
};
use crate::random::{
    draw_ratio, draw_through, permute_color_not_black, random_color, shuffle,
};
use rand::rngs::StdRng;
use vstd::prelude::*;
use vstd::seq_lib::{to_multiset_contains, to_multiset_len, to_multiset_remove};

verus! {

/// Whether block `k` is longer than every other block.
pub open spec fn is_biggest(blocks: Seq<Block>, k: int) -> bool {
    &&& 0 <= k < blocks.len()
    &&& forall|j: int|
        0 <= j < blocks.len() && j != k ==> (#[trigger] blocks[j]).len < blocks[k].len
}

/// Whether one block is longer than every other block.
pub open spec fn has_biggest(blocks: Seq<Block>) -> bool {
    exists|k: int| is_biggest(blocks, k)
}

/// The block that is longer than every other block, where there is one.
pub open spec fn biggest(blocks: Seq<Block>) -> Block {
    blocks[choose|k: int| is_biggest(blocks, k)]
}

/// A row of blocks of `color`, and the same row with its biggest block in
/// the first color. Nothing where there are less than two blocks or no
/// block is longer than all others.
pub open spec fn paint_biggest_block_pair(size: nat, blocks: Seq<Block>, color: u8) -> Option<
    Pair,
> {
    if blocks.len() >= 2 && has_biggest(blocks) {
        let input = with_blocks(blank(size), blocks, color);
        let big = biggest(blocks);
        Some(Pair { input, output: painted(input, big.pos as int, solid(big.len as nat, 1)) })
    } else {
        None
    }
}

/// The example of `blocks` in `color` whose biggest block is repainted;
/// infeasible with less than two blocks, and where the greatest length
/// occurs twice.
pub fn paint_biggest_block_from(size: usize, blocks: &[Block], color: u8) -> (r: Option<Example>)
    requires
        blocks_fit(blocks@, size as nat),
    ensures
        outcome(r) == paint_biggest_block_pair(size as nat, blocks@, color),
{
    if blocks.len() < 2 {
        return None;
    }
    let mut best: usize = 0;
    let mut alone = true;
    let ghost mut rival: int = 0;
    let mut i: usize = 1;
    while i < blocks.len()
        invariant
            1 <= i <= blocks@.len(),
            best < i,
            forall|j: int| 0 <= j < i ==> (#[trigger] blocks@[j]).len <= blocks@[best as int].len,
            alone ==> forall|j: int|
                0 <= j < i && j != best ==> (#[trigger] blocks@[j]).len < blocks@[best as int].len,
            !alone ==> 0 <= rival < i && rival != best && blocks@[rival].len
                == blocks@[best as int].len,
        decreases blocks@.len() - i,
    {
        if blocks[i].len > blocks[best].len {
            best = i;
            alone = true;
        } else if blocks[i].len == blocks[best].len {
            alone = false;
            proof {
                rival = i as int;
            }
        }
        i += 1;
    }
    if !alone {
        proof {
            if has_biggest(blocks@) {
                let k = choose|k: int| is_biggest(blocks@, k);
                if k == best {
                    assert(blocks@[rival].len < blocks@[k].len);
                } else {
                    assert(blocks@[best as int].len < blocks@[k].len);
                }
            }
        }
        return None;
    }
    proof {
        assert(is_biggest(blocks@, best as int));
        let k = choose|k: int| is_biggest(blocks@, k);
        if k != best {
            assert(blocks@[best as int].len < blocks@[k].len);
            assert(blocks@[k].len < blocks@[best as int].len);
        }
    }
    let question = paint_blocks(blocks, color, gen_field(size));
    let big = blocks[best];
    let run = gen_field_color(big.len, 1);
    let answer = write_block(big.pos, run.as_slice(), question.clone());
    Some(Example { input: question, output: answer })
}

/// What [`task_paint_biggest_block`] draws: a color other than the first,
/// which is none where it came out as the background, and blocks of two to
/// six cells, at least one cell apart.
pub open spec fn paint_biggest_block_draws(
    size: nat,
    blocks: Seq<Block>,
    color: Option<u8>,
) -> bool {
    &&& blocks_fit(blocks, size)
    &&& blocks_spaced(blocks, 1)
    &&& blocks_sized(blocks, 2, 6)
    &&& color matches Some(c) ==> 2 <= c <= COLORS
}

/// What comes of the draws: nothing without a color, else what
/// [`paint_biggest_block_pair`] says, which is nothing with less than two
/// blocks and where no block is longer than all others.
pub open spec fn paint_biggest_block_result(
    size: nat,
    blocks: Seq<Block>,
    color: Option<u8>,
) -> Option<Pair> {
    match color {
        Some(c) => paint_biggest_block_pair(size, blocks, c),
        None => None,
    }
}

/// The shorter of a length and a limit.
fn capped(length: usize, limit: usize) -> (r: usize)
    ensures
        r == (if length <= limit {
            length
        } else {
            limit
        }),
{
    if length <= limit {
        length
    } else {
        limit
    }
}

/// What [`task_paint_biggest_block`] can give on a field of `size` cells:
/// what comes of some draws that it can make. A field of less than six
/// cells has no room for two blocks of different lengths.
pub open spec fn paint_biggest_block_outcome(size: nat, r: Option<Pair>) -> bool {
    &&& size <= 5 ==> r is None
    &&& exists|blocks: Seq<Block>, color: Option<u8>|
        paint_biggest_block_draws(size, blocks, color) && r
            == #[trigger] paint_biggest_block_result(size, blocks, color)
    &&& r matches Some(p) ==> p.fits(size)
}

/// Some blocks of one color, of which the biggest takes the first color in
/// the output. Infeasible where the color came out as the background, with
/// less than two blocks, and where no block is longer than all others.
pub fn task_paint_biggest_block(size: usize, rng: &mut StdRng) -> (r: Option<Example>)
    ensures
        paint_biggest_block_outcome(size as nat, outcome(r)),
{
    let color = match permute_color_not_black(1, rng) {
        Some(c) => c,
        None => {
            proof {
                let none = Seq::<Block>::empty();
                assert(paint_biggest_block_draws(size as nat, none, None));
                assert(paint_biggest_block_result(size as nat, none, None) is None);
            }
            return None;
        },
    };
    let mut blocks: Vec<Block> = Vec::new();
    let mut pos: usize = 0;
    while pos < size
        invariant
            pos <= size,
            blocks_fit(blocks@, size as nat),
            blocks_spaced(blocks@, 1),
            blocks_sized(blocks@, 2, 6),
            forall|k: int|
                0 <= k < blocks@.len() ==> (#[trigger] blocks@[k]).pos + blocks@[k].len + 1 <= pos
                    || pos == size,
        decreases size - pos,
    {
        if draw_ratio(rng, 2, 5) && size - pos >= 2 {
            let block_size = draw_through(rng, 2, capped(size - pos, 6));
            blocks.push(Block { pos, len: block_size });
            pos = advance(pos, block_size + 1, size);
        } else {
            pos += 1;
        }
    }
    let r = paint_biggest_block_from(size, blocks.as_slice(), color);
    proof {
        assert(paint_biggest_block_draws(size as nat, blocks@, Some(color)));
        assert(outcome(r) == paint_biggest_block_result(size as nat, blocks@, Some(color)));
        if r is Some {
            let k = choose|k: int| is_biggest(blocks@, k);
            let j = if k == 0 {
                1int
            } else {
                0int
            };
            assert(2 <= blocks@[j].len < blocks@[k].len);
            if j < k {
                assert(blocks@[j].pos + blocks@[j].len + 1 <= blocks@[k].pos);
            } else {
                assert(blocks@[k].pos + blocks@[k].len + 1 <= blocks@[j].pos);
            }
            assert(blocks@[j].pos + blocks@[j].len <= size && blocks@[k].pos + blocks@[k].len
                <= size);
            let input = with_blocks(blank(size as nat), blocks@, color);
            let big = biggest(blocks@);
            lemma_with_blocks_valid(blank(size as nat), blocks@, color);
            lemma_painted_valid(input, big.pos as int, solid(big.len as nat, 1));
        }
    }
    r
}

/// Taking one length out of a row frees its cells and one more.
pub proof fn lemma_span_remove(lens: Seq<usize>, j: int)
    requires
        0 <= j < lens.len(),
    ensures
        span(lens) == span(lens.remove(j)) + lens[j] + 1,
    decreases lens.len(),
{
    if j == lens.len() - 1 {
        assert(lens.remove(j) == lens.drop_last());
    } else {
        lemma_span_remove(lens.drop_last(), j);
        assert(lens.remove(j).drop_last() == lens.drop_last().remove(j));
        assert(lens.remove(j).last() == lens.last());
    }
}

/// Rows of the same lengths take the same number of cells, whatever the
/// order of the lengths.
pub proof fn lemma_span_of_order(a: Seq<usize>, b: Seq<usize>)
    requires
        a.to_multiset() == b.to_multiset(),
    ensures
        span(a) == span(b),
        a.len() == b.len(),
    decreases a.len(),
{
    to_multiset_len(a);
    to_multiset_len(b);
    if a.len() > 0 {
        let x = a.last();
        assert(a[a.len() - 1] == x);
        to_multiset_contains(a, x);
        to_multiset_contains(b, x);
        let j = choose|j: int| 0 <= j < b.len() && b[j] == x;
        to_multiset_remove(b, j);
        to_multiset_remove(a, a.len() - 1);
        assert(a.remove(a.len() - 1) == a.drop_last());
        lemma_span_of_order(a.drop_last(), b.remove(j));
        lemma_span_remove(b, j);
    }
}

/// Blocks that lie in a field at least one cell apart can be pushed
/// together to one cell apart and still lie in the field.
pub proof fn lemma_spaced_span(blocks: Seq<Block>, size: nat, k: int)
    requires
        blocks_fit(blocks, size),
        blocks_spaced(blocks, 1),
        1 <= k <= blocks.len(),
    ensures
        span(lengths(blocks).take(k)) <= blocks[k - 1].pos + blocks[k - 1].len + 1,
        span(lengths(blocks).take(k)) <= size + 1,
    decreases k,
{
    let lens = lengths(blocks);
    assert(lens.take(k).drop_last() == lens.take(k - 1));
    assert(lens.take(k).last() == blocks[k - 1].len);
    assert(span(lens.take(k)) == span(lens.take(k - 1)) + blocks[k - 1].len + 1);
    assert(blocks[k - 1].pos + blocks[k - 1].len <= size);
    if k > 1 {
        lemma_spaced_span(blocks, size, k - 1);
        assert(blocks[k - 2].pos + blocks[k - 2].len + 1 <= blocks[k - 1].pos);
    } else {
        assert(lens.take(0).len() == 0);
    }
}

/// A row of blocks of `color`, and blocks of the same lengths from the
/// shortest to the longest, laid out from the left edge on one cell apart.
/// Nothing where there are less than two blocks, or where the blocks laid
/// out so would not fit.
pub open spec fn sort_blocks_by_size_pair(size: nat, blocks: Seq<Block>, color: u8) -> Option<
    Pair,
> {
    if blocks.len() < 2 || span(lengths(blocks)) > size + 1 {
        None
    } else {
        Some(
            Pair {
                input: with_blocks(blank(size), blocks, color),
                output: with_blocks(blank(size), packed(ascending(lengths(blocks))), color),
            },
        )
    }
}

/// The lengths of `blocks`, in their order, and whether a row of them one
/// cell apart fits a field of `size` cells.
fn measure(size: usize, blocks: &[Block]) -> (r: (Vec<usize>, bool))
    requires
        size < usize::MAX,
        blocks_fit(blocks@, size as nat),
    ensures
        r.0@ == lengths(blocks@),
        r.1 == (span(lengths(blocks@)) <= size + 1),
{
    let mut lens: Vec<usize> = Vec::new();
    let mut used: usize = 0;
    let mut fits = true;
    let mut k: usize = 0;
    while k < blocks.len()
        invariant
            k <= blocks@.len(),
            size < usize::MAX,
            blocks_fit(blocks@, size as nat),
            lens@ == lengths(blocks@).take(k as int),
            fits ==> used == span(lens@) && used <= size + 1,
            !fits ==> span(lens@) > size + 1,
        decreases blocks@.len() - k,
    {
        let len = blocks[k].len;
        proof {
            assert(lengths(blocks@).take(k + 1).drop_last() == lengths(blocks@).take(k as int));
            assert(lengths(blocks@).take(k + 1) == lens@.push(len));
            assert(lens@.push(len).drop_last() == lens@);
        }
        lens.push(len);
        if fits {
            if used > size || len > size - used {
                fits = false;
            } else {
                used = used + len + 1;
                if used > size + 1 {
                    fits = false;
                }
            }
        }
        k += 1;
    }
    assert(lengths(blocks@).take(blocks@.len() as int) == lengths(blocks@));
    (lens, fits)
}

/// The example of `blocks` in `color` that the output shows in the order
/// of their lengths; infeasible with less than two blocks, and where the
/// blocks one cell apart would not fit the field.
pub fn sort_blocks_by_size_from(size: usize, blocks: &[Block], color: u8) -> (r: Option<Example>)
    requires
        size < usize::MAX,
        blocks_fit(blocks@, size as nat),
    ensures
        outcome(r) == sort_blocks_by_size_pair(size as nat, blocks@, color),
{
    if blocks.len() < 2 {
        return None;
    }
    let (lens, fits) = measure(size, blocks);
    if !fits {
        return None;
    }
    let question = paint_blocks(blocks, color, gen_field(size));
    let ghost drawn = lens@;
    let sorted = sort_lengths(lens);
    proof {
        drawn.lemma_sort_by_ensures(crate::blocks::at_most());
        lemma_span_of_order(drawn, sorted@);
    }
    let row = pack(sorted.as_slice());
    let answer = paint_blocks(row.as_slice(), color, gen_field(size));
    Some(Example { input: question, output: answer })
}

/// The rows that [`task_sort_blocks_by_size`] draws from: blocks of one to
/// six cells, at least one cell apart.
pub open spec fn sort_blocks_by_size_draws(size: nat, blocks: Seq<Block>, color: u8) -> bool {
    &&& blocks_fit(blocks, size)
    &&& blocks_spaced(blocks, 1)
    &&& blocks_sized(blocks, 1, 6)
    &&& 1 <= color <= COLORS
}

/// What [`task_sort_blocks_by_size`] can give on a field of `size` cells: for each
/// outcome, the draws that it comes from.
pub open spec fn sort_blocks_by_size_outcome(size: nat, r: Option<Pair>) -> bool {
    &&& r matches Some(p) ==> p.fits(size)
    &&& exists|blocks: Seq<Block>, color: u8|
        sort_blocks_by_size_draws(size, blocks, color) && span(lengths(blocks)) <= size
            + 1 && r == #[trigger] sort_blocks_by_size_pair(
            size,
            blocks,
            color,
        )
}

/// Some blocks of one color and different places; the output shows them
/// from the shortest to the longest, from the left edge on and one cell
/// apart. Infeasible with less than two blocks.
pub fn task_sort_blocks_by_size(size: usize, rng: &mut StdRng) -> (r: Option<Example>)
    requires
        size < usize::MAX,
    ensures
        sort_blocks_by_size_outcome(size as nat, outcome(r)),
{
    let color = random_color(rng);
    let mut blocks: Vec<Block> = Vec::new();
    let mut pos: usize = 0;
    while pos < size
        invariant
            pos <= size,
            blocks_fit(blocks@, size as nat),
            blocks_spaced(blocks@, 1),
            blocks_sized(blocks@, 1, 6),
            forall|k: int|
                0 <= k < blocks@.len() ==> (#[trigger] blocks@[k]).pos + blocks@[k].len + 1 <= pos
                    || pos == size,
        decreases size - pos,
    {
        if draw_ratio(rng, 2, 5) && size - pos >= 2 {
            let block_size = draw_through(rng, 1, capped(size - pos, 6));
            blocks.push(Block { pos, len: block_size });
            let gap = draw_through(rng, 1, 4);
            pos = advance(pos, block_size + gap, size);
        } else {
            pos += 1;
        }
    }
    let r = sort_blocks_by_size_from(size, blocks.as_slice(), color);
    proof {
        assert(sort_blocks_by_size_draws(size as nat, blocks@, color));
        if blocks@.len() >= 1 {
            lemma_spaced_span(blocks@, size as nat, blocks@.len() as int);
            assert(lengths(blocks@).take(blocks@.len() as int) == lengths(blocks@));
        } else {
            assert(lengths(blocks@).len() == 0);
        }
        lemma_with_blocks_valid(blank(size as nat), blocks@, color);
        lemma_with_blocks_valid(blank(size as nat), packed(ascending(lengths(blocks@))), color);
    }
    r
}

/// The lengths one, two and so on up to `n`.
pub open spec fn ramp(n: nat) -> Seq<usize> {
    Seq::new(n, |i: int| (i + 1) as usize)
}

/// Whether `order` holds each of the lengths from one up to its own length
/// once.
pub open spec fn is_ramp_order(order: Seq<usize>) -> bool {
    order.to_multiset() == ramp(order.len()).to_multiset()
}

/// Blocks of all lengths from one up to the number of blocks in some
/// order, one cell apart from the left edge on, and the same blocks from
/// the shortest to the longest.
pub open spec fn sort_complete_sequence_pair(size: nat, order: Seq<usize>, color: u8) -> Pair {
    Pair {
        input: with_blocks(blank(size), packed(order), color),
        output: with_blocks(blank(size), packed(ramp(order.len())), color),
    }
}

/// The example that shows blocks of the lengths `order` and asks for them
/// from the shortest to the longest.
pub fn sort_complete_sequence_from(size: usize, order: &[usize], color: u8) -> (e: Example)
    requires
        is_ramp_order(order@),
        span(ramp(order@.len())) <= size + 1,
        size < usize::MAX,
    ensures
        e@ == sort_complete_sequence_pair(size as nat, order@, color),
{
    let sorted = count_up(order.len());
    proof {
        lemma_span_of_order(order@, ramp(order@.len()));
    }
    let shown = pack(order);
    let asked = pack(sorted.as_slice());
    let question = paint_blocks(shown.as_slice(), color, gen_field(size));
    let answer = paint_blocks(asked.as_slice(), color, gen_field(size));
    Example { input: question, output: answer }
}

/// The lengths one, two and so on up to `n`.
pub fn count_up(n: usize) -> (lens: Vec<usize>)
    ensures
        lens@ == ramp(n as nat),
{
    let mut lens: Vec<usize> = Vec::new();
    let mut i: usize = 0;
    while i < n
        invariant
            i <= n,
            lens@ == ramp(i as nat),
        decreases n - i,
    {
        lens.push(i + 1);
        i += 1;
    }
    lens
}

/// One block more in a row of rising lengths takes its cells and a free
/// cell more.
pub proof fn lemma_ramp_span(n: nat)
    requires
        n < usize::MAX,
    ensures
        span(ramp(n + 1)) == span(ramp(n)) + n + 2,
        n <= span(ramp(n)),
    decreases n,
{
    assert(ramp(n + 1).drop_last() == ramp(n));
    assert(ramp(n + 1).last() == n + 1);
    if n > 0 {
        lemma_ramp_span((n - 1) as nat);
    }
}

/// How many blocks of the lengths one, two and so on, one cell apart, fit a
/// field of `size` cells. The last of them may end at the edge of the
/// field: a row takes one cell less than its span.
pub fn longest_ramp(size: usize) -> (n: usize)
    requires
        size < usize::MAX,
    ensures
        span(ramp(n as nat)) <= size + 1 < span(ramp((n + 1) as nat)),
{
    let mut n: usize = 0;
    let mut used: usize = 0;
    proof {
        lemma_ramp_span(0);
    }
    while used <= size && n < size - used
        invariant
            size < usize::MAX,
            used <= size + 1,
            n <= used,
            used == span(ramp(n as nat)),
            span(ramp((n + 1) as nat)) == used + n + 2,
        decreases size + 1 - used,
    {
        used = used + n + 2;
        n = n + 1;
        proof {
            lemma_ramp_span(n as nat);
        }
    }
    n
}

/// What [`task_sort_complete_sequence`] can give on a field of `size`
/// cells: nothing on less than two cells; else blocks of all lengths from
/// one up to the greatest for which the row, one cell apart, still fits the
/// field, in some order that the rule can draw.
pub open spec fn sort_complete_sequence_outcome(size: nat, r: Option<Pair>) -> bool {
    &&& size < 2 <==> r is None
    &&& r matches Some(p) ==> p.fits(size) && exists|order: Seq<usize>, color: u8|
        is_ramp_order(order) && span(ramp(order.len())) <= size + 1 < span(
            ramp(order.len() + 1),
        ) && 1 <= color <= COLORS && p == #[trigger] sort_complete_sequence_pair(
            size,
            order,
            color,
        )
}

/// Blocks of one color of all lengths from one up to the greatest that the
/// field has room for, in a random order and one cell apart; the output
/// shows them from the shortest to the longest. Infeasible on a field of
/// less than two cells.
pub fn task_sort_complete_sequence(size: usize, rng: &mut StdRng) -> (r: Option<Example>)
    requires
        size < usize::MAX,
    ensures
        sort_complete_sequence_outcome(size as nat, outcome(r)),
{
    if size < 2 {
        return None;
    }
    let max_size = longest_ramp(size);
    proof {
        lemma_ramp_span(0);
    }
    let color = random_color(rng);
    let mut order = count_up(max_size);
    shuffle(&mut order, rng);
    proof {
        to_multiset_len(order@);
        to_multiset_len(ramp(max_size as nat));
    }
    let e = sort_complete_sequence_from(size, order.as_slice(), color);
    proof {
        lemma_with_blocks_valid(blank(size as nat), packed(order@), color);
        lemma_with_blocks_valid(blank(size as nat), packed(ramp(order@.len())), color);
    }
    Some(e)
}

/// Two blocks of the third color, and the longer one in the first color
/// and the shorter one in the second. Nothing where both are equally long.
pub open spec fn recolor_blocks_by_size_pair(size: nat, first: Block, second: Block) -> Option<
    Pair,
> {
    if first.len == second.len {
        None
    } else {
        let input = painted(
            painted(blank(size), first.pos as int, solid(first.len as nat, 3)),
            second.pos as int,
            solid(second.len as nat, 3),
        );
        let colors: (u8, u8) = if first.len > second.len {
            (1, 2)
        } else {
            (2, 1)
        };
        Some(
            Pair {
                input,
                output: painted(
                    painted(input, first.pos as int, solid(first.len as nat, colors.0)),
                    second.pos as int,
                    solid(second.len as nat, colors.1),
                ),
            },
        )
    }
}

/// The example of the blocks `first` and `second`, of which the output
/// shows the longer in the first color and the shorter in the second;
/// infeasible where both are equally long.
pub fn recolor_blocks_by_size_from(size: usize, first: Block, second: Block) -> (r: Option<
    Example,
>)
    requires
        first.pos + first.len <= size,
        second.pos + second.len <= size,
    ensures
        outcome(r) == recolor_blocks_by_size_pair(size as nat, first, second),
{
    if first.len == second.len {
        return None;
    }
    let one = gen_field_color(first.len, 3);
    let other = gen_field_color(second.len, 3);
    let question = write_block(
        second.pos,
        other.as_slice(),
        write_block(first.pos, one.as_slice(), gen_field(size)),
    );
    let (first_color, second_color): (u8, u8) = if first.len > second.len {
        (1, 2)
    } else {
        (2, 1)
    };
    let one = gen_field_color(first.len, first_color);
    let other = gen_field_color(second.len, second_color);
    let answer = write_block(
        second.pos,
        other.as_slice(),
        write_block(first.pos, one.as_slice(), question.clone()),
    );
    Some(Example { input: question, output: answer })
}

/// What [`task_recolor_blocks_by_size`] draws: two lengths of two to
/// eight cells; and where they differ and the field has room for both
/// blocks and a cell between them, the places of the blocks, the second to
/// the right of the first and at least one cell away from it.
pub open spec fn recolor_blocks_by_size_draws(size: nat, first: Block, second: Block) -> bool {
    &&& 2 <= first.len <= 8
    &&& 2 <= second.len <= 8
    &&& first.len != second.len && first.len + second.len + 1 <= size ==> {
        &&& first.pos + first.len + 1 <= second.pos
        &&& second.pos + second.len <= size
    }
}

/// What comes of the draws: nothing where the field has no room for both
/// blocks and a cell between them, else what
/// [`recolor_blocks_by_size_pair`] says, which is nothing for blocks of the
/// same length.
pub open spec fn recolor_blocks_by_size_result(size: nat, first: Block, second: Block) -> Option<
    Pair,
> {
    if first.len + second.len + 1 > size {
        None
    } else {
        recolor_blocks_by_size_pair(size, first, second)
    }
}

/// What [`task_recolor_blocks_by_size`] can give on a field of `size`
/// cells: what comes of some draws that it can make. A field of less than
/// six cells has no room for two blocks of different lengths.
pub open spec fn recolor_blocks_by_size_outcome(size: nat, r: Option<Pair>) -> bool {
    &&& size < 6 ==> r is None
    &&& exists|first: Block, second: Block|
        recolor_blocks_by_size_draws(size, first, second) && r
            == #[trigger] recolor_blocks_by_size_result(size, first, second)
    &&& r matches Some(p) ==> p.fits(size)
}

/// Two blocks of the third color and of different lengths; the output
/// shows the longer one in the first color and the shorter one in the
/// second. Infeasible where both lengths came out the same, and where the
/// two blocks and a cell between them do not fit the field.
pub fn task_recolor_blocks_by_size(size: usize, rng: &mut StdRng) -> (r: Option<Example>)
    ensures
        recolor_blocks_by_size_outcome(size as nat, outcome(r)),
{
    let size1 = draw_through(rng, 2, 8);
    let size2 = draw_through(rng, 2, 8);
    proof {
        let first = Block { pos: 0, len: size1 };
        let second = Block { pos: 0, len: size2 };
        if size2 == size1 || size1 + size2 + 1 > size {
            assert(recolor_blocks_by_size_draws(size as nat, first, second));
            assert(recolor_blocks_by_size_result(size as nat, first, second) is None);
        }
    }
    if size2 == size1 {
        return None;
    }
    if size1 + size2 + 1 > size {
        return None;
    }
    let pos1 = draw_through(rng, 0, size - (size1 + size2 + 1));
    let pos2 = draw_through(rng, pos1 + size1 + 1, size - size2);
    let first = Block { pos: pos1, len: size1 };
    let second = Block { pos: pos2, len: size2 };
    let r = recolor_blocks_by_size_from(size, first, second);
    proof {
        assert(recolor_blocks_by_size_draws(size as nat, first, second));
        assert(outcome(r) == recolor_blocks_by_size_result(size as nat, first, second));
        let colors: (u8, u8) = if first.len > second.len {
            (1, 2)
        } else {
            (2, 1)
        };
        let a = painted(blank(size as nat), pos1 as int, solid(size1 as nat, 3));
        lemma_painted_valid(blank(size as nat), pos1 as int, solid(size1 as nat, 3));
        lemma_painted_valid(a, pos2 as int, solid(size2 as nat, 3));
        let input = painted(a, pos2 as int, solid(size2 as nat, 3));
        lemma_painted_valid(input, pos1 as int, solid(size1 as nat, colors.0));
        lemma_painted_valid(
            painted(input, pos1 as int, solid(size1 as nat, colors.0)),
            pos2 as int,
            solid(size2 as nat, colors.1),
        );
    }
    r
}

} // verus!
