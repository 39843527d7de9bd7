//! Rows of blocks: where they lie, how they are painted, and how a list of
//! lengths is put in order and laid out.

use crate::grid::{gen_field_color, painted, solid, valid_grid, write_block, COLORS};
use crate::random::shuffle;
use rand::rngs::StdRng;
use vstd::prelude::*;
use vstd::relations::{sorted_by, total_ordering};
use vstd::seq_lib::{
    lemma_sorted_unique, to_multiset_build, to_multiset_contains, to_multiset_len,
    to_multiset_remove, to_multiset_update,
};

verus! {

/// A run of cells: its first cell and its length.
#[derive(Clone, Copy, Debug, PartialEq, Eq, Hash)]
pub struct Block {
    pub pos: usize,
    pub len: usize,
}

/// Whether cell `i` lies in one of `blocks`.
pub open spec fn covered(blocks: Seq<Block>, i: int) -> bool {
    exists|k: int|
        0 <= k < blocks.len() && (#[trigger] blocks[k]).pos <= i < blocks[k].pos + blocks[k].len
}

/// `field` with every cell that lies in one of `blocks` in `color`.
pub open spec fn with_blocks(field: Seq<u8>, blocks: Seq<Block>, color: u8) -> Seq<u8> {
    Seq::new(
        field.len(),
        |i: int|
            if covered(blocks, i) {
                color
            } else {
                field[i]
            },
    )
}

/// `field` with each of `blocks` painted in the color of `colors` that has
/// its index, one block after the other.
pub open spec fn with_colored_blocks(field: Seq<u8>, blocks: Seq<Block>, colors: Seq<u8>) -> Seq<u8>
    decreases blocks.len(),
{
    if blocks.len() == 0 {
        field
    } else {
        painted(
            with_colored_blocks(field, blocks.drop_last(), colors),
            blocks.last().pos as int,
            solid(blocks.last().len as nat, colors[blocks.len() - 1]),
        )
    }
}

/// Every block ends inside a field of `size` cells.
pub open spec fn blocks_fit(blocks: Seq<Block>, size: nat) -> bool {
    forall|k: int| 0 <= k < blocks.len() ==> (#[trigger] blocks[k]).pos + blocks[k].len <= size
}

/// The blocks follow each other from left to right with at least `gap`
/// cells between one and the next.
pub open spec fn blocks_spaced(blocks: Seq<Block>, gap: nat) -> bool {
    forall|j: int, k: int|
        0 <= j < k < blocks.len() ==> (#[trigger] blocks[j]).pos + blocks[j].len + gap <= (
        #[trigger] blocks[k]).pos
}

/// Every block has at least `low` and at most `high` cells.
pub open spec fn blocks_sized(blocks: Seq<Block>, low: nat, high: nat) -> bool {
    forall|k: int| 0 <= k < blocks.len() ==> low <= (#[trigger] blocks[k]).len <= high
}

/// The lengths of `blocks`, in their order.
pub open spec fn lengths(blocks: Seq<Block>) -> Seq<usize> {
    Seq::new(blocks.len(), |k: int| blocks[k].len)
}

/// Painting blocks in a color of the alphabet over a grid of colors gives a
/// grid of colors of the same length.
pub proof fn lemma_with_blocks_valid(field: Seq<u8>, blocks: Seq<Block>, color: u8)
    requires
        valid_grid(field),
        color <= COLORS,
    ensures
        valid_grid(with_blocks(field, blocks, color)),
        with_blocks(field, blocks, color).len() == field.len(),
{
}

/// Painting blocks in colors of the alphabet over a grid of colors gives a
/// grid of colors of the same length.
pub proof fn lemma_with_colored_blocks_valid(field: Seq<u8>, blocks: Seq<Block>, colors: Seq<u8>)
    requires
        valid_grid(field),
        valid_grid(colors),
        colors.len() >= blocks.len(),
    ensures
        valid_grid(with_colored_blocks(field, blocks, colors)),
        with_colored_blocks(field, blocks, colors).len() == field.len(),
    decreases blocks.len(),
{
    if blocks.len() > 0 {
        lemma_with_colored_blocks_valid(field, blocks.drop_last(), colors);
    }
}

/// One block more covers what was covered before and its own cells.
pub proof fn lemma_covered_next(blocks: Seq<Block>, n: int, i: int)
    requires
        0 <= n < blocks.len(),
    ensures
        covered(blocks.take(n + 1), i) <==> covered(blocks.take(n), i) || blocks[n].pos <= i
            < blocks[n].pos + blocks[n].len,
{
    let before = blocks.take(n);
    let after = blocks.take(n + 1);
    if covered(before, i) {
        let k = choose|k: int|
            0 <= k < before.len() && (#[trigger] before[k]).pos <= i < before[k].pos
                + before[k].len;
        assert(after[k] == before[k]);
    }
    if blocks[n].pos <= i < blocks[n].pos + blocks[n].len {
        assert(after[n] == blocks[n]);
    }
    if covered(after, i) {
        let k = choose|k: int|
            0 <= k < after.len() && (#[trigger] after[k]).pos <= i < after[k].pos + after[k].len;
        if k < n {
            assert(before[k] == after[k]);
        }
    }
}

/// Paints every block of `blocks` in `color`.
pub fn paint_blocks(blocks: &[Block], color: u8, field: Vec<u8>) -> (out: Vec<u8>)
    requires
        blocks_fit(blocks@, field@.len()),
    ensures
        out@ == with_blocks(field@, blocks@, color),
{
    let mut out = field;
    let mut n: usize = 0;
    assert(out@ =~= with_blocks(field@, blocks@.take(0), color));
    while n < blocks.len()
        invariant
            n <= blocks@.len(),
            blocks_fit(blocks@, field@.len()),
            out@ == with_blocks(field@, blocks@.take(n as int), color),
        decreases blocks@.len() - n,
    {
        let block = blocks[n];
        let run = gen_field_color(block.len, color);
        let ghost before = out@;
        out = write_block(block.pos, run.as_slice(), out);
        proof {
            assert forall|i: int| 0 <= i < field@.len() implies out@[i] == with_blocks(
                field@,
                blocks@.take(n + 1),
                color,
            )[i] by {
                lemma_covered_next(blocks@, n as int, i);
            }
            assert(out@ =~= with_blocks(field@, blocks@.take(n + 1), color));
        }
        n += 1;
    }
    assert(blocks@.take(blocks@.len() as int) == blocks@);
    out
}

/// Paints each block of `blocks` in the color of `colors` that has its
/// index, one block after the other.
pub fn paint_colored_blocks(blocks: &[Block], colors: &[u8], field: Vec<u8>) -> (out: Vec<u8>)
    requires
        blocks_fit(blocks@, field@.len()),
        colors@.len() >= blocks@.len(),
    ensures
        out@ == with_colored_blocks(field@, blocks@, colors@),
{
    let mut out = field;
    let mut n: usize = 0;
    while n < blocks.len()
        invariant
            n <= blocks@.len(),
            blocks_fit(blocks@, field@.len()),
            colors@.len() >= blocks@.len(),
            out@.len() == field@.len(),
            out@ == with_colored_blocks(field@, blocks@.take(n as int), colors@),
        decreases blocks@.len() - n,
    {
        let block = blocks[n];
        let run = gen_field_color(block.len, colors[n]);
        assert(blocks@.take(n + 1).drop_last() == blocks@.take(n as int));
        out = write_block(block.pos, run.as_slice(), out);
        n += 1;
    }
    assert(blocks@.take(blocks@.len() as int) == blocks@);
    out
}

/// `pos` moved on by `step` cells, but not past `size`.
pub fn advance(pos: usize, step: usize, size: usize) -> (next: usize)
    requires
        pos <= size,
    ensures
        next == (if pos + step <= size {
            pos + step
        } else {
            size as int
        }),
{
    if size - pos <= step {
        size
    } else {
        pos + step
    }
}

/// The cells that a row of blocks of these lengths takes, each block
/// followed by one free cell.
pub open spec fn span(lens: Seq<usize>) -> nat
    decreases lens.len(),
{
    if lens.len() == 0 {
        0
    } else {
        span(lens.drop_last()) + (lens.last() as nat) + 1
    }
}

/// Blocks of the lengths `lens` laid out from the left edge on, with one
/// free cell between one and the next.
pub open spec fn packed(lens: Seq<usize>) -> Seq<Block> {
    Seq::new(lens.len(), |k: int| Block { pos: span(lens.take(k)) as usize, len: lens[k] })
}

/// A row that is part of another takes no more cells.
pub proof fn lemma_span_grows(lens: Seq<usize>, j: int, k: int)
    requires
        0 <= j <= k <= lens.len(),
    ensures
        span(lens.take(j)) <= span(lens.take(k)),
    decreases k - j,
{
    if j < k {
        lemma_span_grows(lens, j, k - 1);
        assert(lens.take(k).drop_last() == lens.take(k - 1));
    }
}

/// Lays out blocks of the lengths `lens` from the left edge on, with one
/// free cell between one and the next.
pub fn pack(lens: &[usize]) -> (blocks: Vec<Block>)
    requires
        span(lens@) <= usize::MAX,
    ensures
        blocks@ == packed(lens@),
        blocks_fit(blocks@, (span(lens@) - 1) as nat),
        blocks_spaced(blocks@, 1),
{
    let mut blocks: Vec<Block> = Vec::new();
    let mut pos: usize = 0;
    let mut k: usize = 0;
    while k < lens.len()
        invariant
            k <= lens@.len(),
            span(lens@) <= usize::MAX,
            pos == span(lens@.take(k as int)),
            blocks@.len() == k,
            forall|j: int|
                0 <= j < k ==> blocks@[j] == (Block {
                    pos: span(lens@.take(j)) as usize,
                    len: lens@[j],
                }),
        decreases lens@.len() - k,
    {
        proof {
            lemma_span_grows(lens@, k + 1, lens@.len() as int);
            assert(lens@.take(lens@.len() as int) == lens@);
            assert(lens@.take(k + 1).drop_last() == lens@.take(k as int));
        }
        blocks.push(Block { pos, len: lens[k] });
        pos = pos + lens[k] + 1;
        k += 1;
    }
    proof {
        assert(blocks@ =~= packed(lens@));
        assert(lens@.take(lens@.len() as int) == lens@);
        assert forall|j: int| 0 <= j < blocks@.len() implies (#[trigger] blocks@[j]).pos
            + blocks@[j].len + 1 == span(lens@.take(j + 1)) && span(lens@.take(j + 1)) <= span(
            lens@,
        ) by {
            lemma_span_grows(lens@, j + 1, lens@.len() as int);
            assert(lens@.take(j + 1).drop_last() == lens@.take(j));
        }
        assert forall|j: int, k: int| 0 <= j < k < blocks@.len() implies (#[trigger] blocks@[j]).pos
            + blocks@[j].len + 1 <= (#[trigger] blocks@[k]).pos by {
            lemma_span_grows(lens@, j + 1, k);
            lemma_span_grows(lens@, k, lens@.len() as int);
            assert(blocks@[k].pos == span(lens@.take(k)));
            assert(blocks@[j].pos + blocks@[j].len + 1 == span(lens@.take(j + 1)));
        }
    }
    blocks
}

/// The order of lengths: at most.
pub open spec fn at_most() -> spec_fn(usize, usize) -> bool {
    |a: usize, b: usize| a <= b
}

/// `lens` from the shortest to the longest.
pub open spec fn ascending(lens: Seq<usize>) -> Seq<usize> {
    lens.sort_by(at_most())
}

/// Puts `lens` in order from the shortest to the longest.
pub fn sort_lengths(lens: Vec<usize>) -> (out: Vec<usize>)
    ensures
        out@ == ascending(lens@),
{
    let mut out = lens;
    let n = out.len();
    let mut i: usize = 1;
    while i < n
        invariant
            n == out@.len(),
            1 <= i || n == 0,
            out@.to_multiset() == lens@.to_multiset(),
            forall|a: int, b: int| 0 <= a < b < i && b < n ==> out@[a] <= out@[b],
        decreases n - i,
    {
        let mut j: usize = i;
        while j > 0 && out[j - 1] > out[j]
            invariant
                j <= i < n,
                n == out@.len(),
                out@.to_multiset() == lens@.to_multiset(),
                forall|a: int, b: int| 0 <= a < b <= i && a != j && b != j ==> out@[a] <= out@[b],
                forall|b: int| j < b <= i ==> out@[j as int] <= out@[b],
            decreases j,
        {
            let ghost before = out@;
            let small = out[j];
            let big = out[j - 1];
            out.set(j - 1, small);
            out.set(j, big);
            proof {
                broadcast use {
                    vstd::multiset::group_multiset_axioms,
                    vstd::multiset::group_multiset_properties,
                };

                to_multiset_update(before, j - 1, small);
                to_multiset_update(before.update(j - 1, small), j as int, big);
                assert(before[j - 1] == big && before[j as int] == small);
                to_multiset_contains(before, big);
                to_multiset_contains(before, small);
                let m0 = before.to_multiset();
                let m1 = m0.insert(small).remove(big);
                let m2 = m1.insert(big).remove(small);
                assert forall|x: usize| m2.count(x) == m0.count(x) by {
                    assert(m0.insert(small).count(big) == m0.count(big));
                    assert(m1.insert(big).count(small) == m1.count(small));
                }
                assert(m2 =~= m0);
            }
            j -= 1;
        }
        i += 1;
    }
    proof {
        assert(total_ordering(at_most()));
        assert(sorted_by(out@, at_most()));
        lens@.lemma_sort_by_ensures(at_most());
        lemma_sorted_unique(out@, lens@.sort_by(at_most()), at_most());
    }
    out
}

/// The places `0`, `1`, and so on up to `n`, which is left out.
pub open spec fn places(n: nat) -> Seq<usize> {
    Seq::new(n, |i: int| i as usize)
}

/// Whether `order` names each of its own places once.
pub open spec fn is_order(order: Seq<usize>) -> bool {
    order.to_multiset() == places(order.len()).to_multiset()
}

/// An order names places only, and none of them twice.
pub proof fn lemma_order(order: Seq<usize>)
    requires
        is_order(order),
        order.len() <= usize::MAX,
    ensures
        order.no_duplicates(),
        forall|i: int| 0 <= i < order.len() ==> #[trigger] order[i] < order.len(),
{
    let all = places(order.len());
    assert forall|i: int, j: int| 0 <= i < all.len() && 0 <= j < all.len() && i != j implies all[i]
        != all[j] by {
        assert(all[i] == i as usize && all[j] == j as usize);
    }
    all.lemma_multiset_has_no_duplicates();
    order.lemma_multiset_has_no_duplicates_conv();
    assert forall|i: int| 0 <= i < order.len() implies #[trigger] order[i] < order.len() by {
        to_multiset_contains(order, order[i]);
        to_multiset_contains(all, order[i]);
        assert(order.contains(order[i]));
        let k = choose|k: int| 0 <= k < all.len() && all[k] == order[i];
    }
}

/// The places of `n` items in a random order.
pub fn random_order(n: usize, rng: &mut StdRng) -> (order: Vec<usize>)
    ensures
        order@.len() == n,
        is_order(order@),
{
    let mut order: Vec<usize> = Vec::new();
    let mut i: usize = 0;
    while i < n
        invariant
            i <= n,
            order@ == places(i as nat),
        decreases n - i,
    {
        order.push(i);
        i += 1;
    }
    shuffle(&mut order, rng);
    proof {
        to_multiset_len(order@);
        to_multiset_len(places(n as nat));
    }
    order
}

} // verus!
