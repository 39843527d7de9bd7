//! The invariant analyzer: what stays the same between the input and the
//! output of every example of a task.

use crate::example::{Example, Pair};
use crate::grid::{
    equal_to, lemma_filter_next, occurrences, other_than, valid_grid, without_color, COLORS,
};
use vstd::prelude::*;

verus! {

/// For each cell, whether it holds `background`.
pub open spec fn background_mask(grid: Seq<u8>, background: u8) -> Seq<bool> {
    Seq::new(grid.len(), |i: int| grid[i] == background)
}

/// The test that a flag is not set.
pub open spec fn unset() -> spec_fn(bool) -> bool {
    |b: bool| !b
}

/// How many flags of `mask` are not set.
pub open spec fn unset_count(mask: Seq<bool>) -> nat {
    mask.filter(unset()).len()
}

/// How many cells of `grid` hold something else than the background.
pub open spec fn visible_cells(grid: Seq<u8>) -> nat {
    without_color(grid, 0).len()
}

/// Whether `color` is one of the colors, not the background, and some cell
/// of `grid` holds it.
pub open spec fn in_palette(grid: Seq<u8>, color: u8) -> bool {
    1 <= color <= COLORS && grid.contains(color)
}

/// The palette of `grid`: one flag for the background and for each color,
/// set where the color is in the grid. The flag of the background is never
/// set.
pub open spec fn palette_of(grid: Seq<u8>) -> Seq<bool> {
    Seq::new((COLORS + 1) as nat, |c: int| in_palette(grid, c as u8))
}

/// The colors whose flag is set in `palette`.
pub open spec fn palette_set(palette: Seq<bool>) -> Set<u8> {
    Set::new(|c: u8| c < palette.len() && palette[c as int])
}

/// The two grids have the background in the same cells.
pub open spec fn same_mask(p: Pair) -> bool {
    background_mask(p.input, 0) == background_mask(p.output, 0)
}

/// The two grids have as many cells that are not the background.
pub open spec fn same_count(p: Pair) -> bool {
    visible_cells(p.input) == visible_cells(p.output)
}

/// Each color occurs as often in the output as in the input.
pub open spec fn same_colors(p: Pair) -> bool {
    forall|c: u8| 1 <= c <= COLORS ==> occurrences(p.input, c) == occurrences(p.output, c)
}

/// The two grids hold the same colors.
pub open spec fn same_palette(p: Pair) -> bool {
    palette_of(p.input) == palette_of(p.output)
}

/// Every color of the input is a color of the output.
pub open spec fn palette_is_subset(p: Pair) -> bool {
    forall|c: u8| in_palette(p.input, c) ==> in_palette(p.output, c)
}

/// Whether `color` is in the output of one of the `examples`.
pub open spec fn in_some_output(examples: Seq<Example>, color: u8) -> bool {
    exists|k: int| 0 <= k < examples.len() && in_palette((#[trigger] examples[k])@.output, color)
}

/// Whether one of the `examples` has `color` in its output and not in its
/// input.
pub open spec fn new_in_some_output(examples: Seq<Example>, color: u8) -> bool {
    exists|k: int|
        0 <= k < examples.len() && in_palette((#[trigger] examples[k])@.output, color)
            && !in_palette(examples[k]@.input, color)
}

/// What holds of every example of a task, and the colors that its outputs
/// hold. A palette has one flag for the background, which is never set, and
/// one for each color.
#[derive(Clone, Debug, PartialEq, Eq)]
pub struct InvariantSummary {
    pub same_mask: bool,
    pub same_count: bool,
    pub same_colors: bool,
    pub same_palette: bool,
    pub palette_is_subset: bool,
    pub output_palette: Vec<bool>,
    pub new_colors_palette: Vec<bool>,
}

impl InvariantSummary {
    /// Whether `self` is the summary of `examples`: each flag says that the
    /// relation holds in every example, the output palette holds the colors
    /// of all outputs, and the palette of new colors holds the colors that
    /// some output has and its input has not.
    pub open spec fn describes(&self, examples: Seq<Example>) -> bool {
        &&& self.same_mask == forall|k: int|
            0 <= k < examples.len() ==> same_mask((#[trigger] examples[k])@)
        &&& self.same_count == forall|k: int|
            0 <= k < examples.len() ==> same_count((#[trigger] examples[k])@)
        &&& self.same_colors == forall|k: int|
            0 <= k < examples.len() ==> same_colors((#[trigger] examples[k])@)
        &&& self.same_palette == forall|k: int|
            0 <= k < examples.len() ==> same_palette((#[trigger] examples[k])@)
        &&& self.palette_is_subset == forall|k: int|
            0 <= k < examples.len() ==> palette_is_subset((#[trigger] examples[k])@)
        &&& self.output_palette@.len() == COLORS + 1
        &&& self.new_colors_palette@.len() == COLORS + 1
        &&& forall|c: u8|
            c <= COLORS ==> #[trigger] self.output_palette@[c as int] == in_some_output(
                examples,
                c,
            )
        &&& forall|c: u8|
            c <= COLORS ==> #[trigger] self.new_colors_palette@[c as int] == new_in_some_output(
                examples,
                c,
            )
    }
}

/// For each cell of `grid`, whether it holds `background`.
pub fn get_background_mask(grid: &[u8], background: u8) -> (mask: Vec<bool>)
    ensures
        mask@ == background_mask(grid@, background),
{
    let mut mask: Vec<bool> = Vec::new();
    let mut i: usize = 0;
    while i < grid.len()
        invariant
            i <= grid@.len(),
            mask@ == background_mask(grid@.take(i as int), background),
        decreases grid@.len() - i,
    {
        mask.push(grid[i] == background);
        i += 1;
    }
    assert(grid@.take(grid@.len() as int) == grid@);
    mask
}

/// How many flags of `mask` are not set.
pub fn count_non_background(mask: &[bool]) -> (count: usize)
    ensures
        count == unset_count(mask@),
{
    let mut count: usize = 0;
    let mut i: usize = 0;
    proof {
        reveal(Seq::filter);
    }
    while i < mask.len()
        invariant
            i <= mask@.len(),
            count == unset_count(mask@.take(i as int)),
            count <= i,
        decreases mask@.len() - i,
    {
        proof {
            lemma_filter_next(mask@, i as int, unset());
        }
        if !mask[i] {
            count += 1;
        }
        i += 1;
    }
    assert(mask@.take(mask@.len() as int) == mask@);
    count
}

/// How often the background and each color occur in `grid`: the count of
/// color `c` is at index `c`.
pub fn count_colors(grid: &[u8]) -> (counts: Vec<usize>)
    requires
        valid_grid(grid@),
    ensures
        counts@.len() == COLORS + 1,
        forall|c: u8| c <= COLORS ==> #[trigger] counts@[c as int] == occurrences(grid@, c),
{
    let mut counts: Vec<usize> = Vec::new();
    let mut c: u8 = 0;
    proof {
        reveal(Seq::filter);
    }
    while c <= COLORS
        invariant
            c <= COLORS + 1,
            counts@.len() == c,
            forall|k: int| 0 <= k < c ==> counts@[k] == 0,
        decreases COLORS + 1 - c,
    {
        counts.push(0);
        c += 1;
    }
    let mut i: usize = 0;
    while i < grid.len()
        invariant
            i <= grid@.len(),
            valid_grid(grid@),
            counts@.len() == COLORS + 1,
            forall|c: u8|
                c <= COLORS ==> #[trigger] counts@[c as int] == occurrences(
                    grid@.take(i as int),
                    c,
                ),
        decreases grid@.len() - i,
    {
        let color = grid[i];
        proof {
            assert forall|c: u8| c <= COLORS implies occurrences(grid@.take(i + 1), c) == (if c
                == color {
                occurrences(grid@.take(i as int), c) + 1
            } else {
                occurrences(grid@.take(i as int), c)
            }) && occurrences(grid@.take(i as int), c) <= i by {
                lemma_filter_next(grid@, i as int, equal_to(c));
            }
            assert(counts@[color as int] == occurrences(grid@.take(i as int), color));
        }
        let seen = counts[color as usize];
        counts.set(color as usize, seen + 1);
        i += 1;
    }
    assert(grid@.take(grid@.len() as int) == grid@);
    counts
}

/// The palette that holds no color.
pub fn empty_palette() -> (palette: Vec<bool>)
    ensures
        palette@ == Seq::new((COLORS + 1) as nat, |c: int| false),
{
    let mut palette: Vec<bool> = Vec::new();
    let mut c: u8 = 0;
    while c <= COLORS
        invariant
            c <= COLORS + 1,
            palette@ == Seq::new(c as nat, |c: int| false),
        decreases COLORS + 1 - c,
    {
        palette.push(false);
        c += 1;
    }
    palette
}

/// For each count, whether it is not zero.
pub fn convert_to_palette(colors_count: &[usize]) -> (palette: Vec<bool>)
    ensures
        palette@ == Seq::new(colors_count@.len(), |c: int| colors_count@[c] != 0),
{
    let mut palette: Vec<bool> = Vec::new();
    let mut i: usize = 0;
    while i < colors_count.len()
        invariant
            i <= colors_count@.len(),
            palette@ == Seq::new(i as nat, |c: int| colors_count@[c] != 0),
        decreases colors_count@.len() - i,
    {
        palette.push(colors_count[i] != 0);
        i += 1;
    }
    palette
}

/// The shorter of two lengths.
pub open spec fn shorter(a: nat, b: nat) -> nat {
    if a <= b {
        a
    } else {
        b
    }
}

/// The colors of either palette. Of two palettes of different lengths the
/// longer one counts as far as the shorter one reaches.
pub fn or_palette(palette1: &[bool], palette2: &[bool]) -> (palette: Vec<bool>)
    ensures
        palette@ == Seq::new(
            shorter(palette1@.len(), palette2@.len()),
            |c: int| palette1@[c] || palette2@[c],
        ),
{
    let mut palette: Vec<bool> = Vec::new();
    let mut i: usize = 0;
    while i < palette1.len() && i < palette2.len()
        invariant
            i <= shorter(palette1@.len(), palette2@.len()),
            palette@ == Seq::new(i as nat, |c: int| palette1@[c] || palette2@[c]),
        decreases palette1@.len() - i,
    {
        palette.push(palette1[i] || palette2[i]);
        i += 1;
    }
    palette
}

/// The colors of `palette_new` that `palette_prev` has not. Of two palettes
/// of different lengths the longer one counts as far as the shorter one
/// reaches.
pub fn get_new_colors(palette_prev: &[bool], palette_new: &[bool]) -> (palette: Vec<bool>)
    ensures
        palette@ == Seq::new(
            shorter(palette_prev@.len(), palette_new@.len()),
            |c: int| !palette_prev@[c] && palette_new@[c],
        ),
{
    let mut palette: Vec<bool> = Vec::new();
    let mut i: usize = 0;
    while i < palette_prev.len() && i < palette_new.len()
        invariant
            i <= shorter(palette_prev@.len(), palette_new@.len()),
            palette@ == Seq::new(i as nat, |c: int| !palette_prev@[c] && palette_new@[c]),
        decreases palette_prev@.len() - i,
    {
        palette.push(!palette_prev[i] && palette_new[i]);
        i += 1;
    }
    palette
}

/// Whether `palette` has every color of `palette_sub`. Of two palettes of
/// different lengths the longer one counts as far as the shorter one
/// reaches.
pub fn is_subset_palette(palette: &[bool], palette_sub: &[bool]) -> (subset: bool)
    ensures
        subset == forall|c: int|
            0 <= c < shorter(palette@.len(), palette_sub@.len()) ==> (#[trigger] palette_sub@[c]
                ==> palette@[c]),
{
    let mut i: usize = 0;
    while i < palette.len() && i < palette_sub.len()
        invariant
            i <= shorter(palette@.len(), palette_sub@.len()),
            forall|c: int| 0 <= c < i ==> (#[trigger] palette_sub@[c] ==> palette@[c]),
        decreases palette@.len() - i,
    {
        if palette_sub[i] && !palette[i] {
            return false;
        }
        i += 1;
    }
    true
}

/// Whether two lists of flags are equal.
fn same_flags(a: &[bool], b: &[bool]) -> (same: bool)
    ensures
        same == (a@ == b@),
{
    if a.len() != b.len() {
        return false;
    }
    let mut i: usize = 0;
    while i < a.len()
        invariant
            i <= a@.len(),
            a@.len() == b@.len(),
            forall|k: int| 0 <= k < i ==> a@[k] == b@[k],
        decreases a@.len() - i,
    {
        if a[i] != b[i] {
            return false;
        }
        i += 1;
    }
    assert(a@ =~= b@);
    true
}

/// Whether two lists of counts are equal.
fn same_counts(a: &[usize], b: &[usize]) -> (same: bool)
    ensures
        same == (a@ == b@),
{
    if a.len() != b.len() {
        return false;
    }
    let mut i: usize = 0;
    while i < a.len()
        invariant
            i <= a@.len(),
            a@.len() == b@.len(),
            forall|k: int| 0 <= k < i ==> a@[k] == b@[k],
        decreases a@.len() - i,
    {
        if a[i] != b[i] {
            return false;
        }
        i += 1;
    }
    assert(a@ =~= b@);
    true
}

/// The flags of a mask that are not set are as many as the cells that do
/// not hold the background.
pub proof fn lemma_mask_counts_visible(grid: Seq<u8>, background: u8)
    ensures
        unset_count(background_mask(grid, background)) == without_color(grid, background).len(),
    decreases grid.len(),
{
    reveal(Seq::filter);
    if grid.len() > 0 {
        lemma_mask_counts_visible(grid.drop_last(), background);
        assert(background_mask(grid, background).drop_last() == background_mask(
            grid.drop_last(),
            background,
        ));
    }
}

/// A color occurs in a grid exactly if some cell holds it.
pub proof fn lemma_occurs_iff_contained(grid: Seq<u8>, color: u8)
    ensures
        occurrences(grid, color) != 0 <==> grid.contains(color),
    decreases grid.len(),
{
    reveal(Seq::filter);
    if grid.len() > 0 {
        let rest = grid.drop_last();
        lemma_occurs_iff_contained(rest, color);
        if rest.contains(color) {
            let k = choose|k: int| 0 <= k < rest.len() && rest[k] == color;
            assert(grid[k] == color);
        }
        if grid.contains(color) && grid.last() != color {
            let k = choose|k: int| 0 <= k < grid.len() && grid[k] == color;
            assert(rest[k] == color);
        }
        if grid.last() == color {
            assert(grid[grid.len() - 1] == color);
        }
    }
}

/// What one grid shows of itself: where its background is, how many cells
/// are not background, how often each color occurs, and its palette.
struct Census {
    mask: Vec<bool>,
    count: usize,
    colors: Vec<usize>,
    palette: Vec<bool>,
}

/// The census of `grid`, with the background counted as absent.
fn census(grid: &[u8]) -> (r: Census)
    requires
        valid_grid(grid@),
    ensures
        r.mask@ == background_mask(grid@, 0),
        r.count == visible_cells(grid@),
        r.colors@.len() == COLORS + 1,
        r.colors@[0] == 0,
        forall|c: u8| 1 <= c <= COLORS ==> #[trigger] r.colors@[c as int] == occurrences(grid@, c),
        r.palette@ == palette_of(grid@),
{
    let mask = get_background_mask(grid, 0);
    let count = count_non_background(mask.as_slice());
    let mut colors = count_colors(grid);
    colors.set(0, 0);
    let palette = convert_to_palette(colors.as_slice());
    proof {
        lemma_mask_counts_visible(grid@, 0);
        assert forall|c: int| 0 <= c <= COLORS implies palette@[c] == in_palette(
            grid@,
            c as u8,
        ) by {
            lemma_occurs_iff_contained(grid@, c as u8);
            if c != 0 {
                assert(colors@[(c as u8) as int] == occurrences(grid@, c as u8));
            }
        }
        assert(palette@ =~= palette_of(grid@));
    }
    Census { mask, count, colors, palette }
}

/// The colors that `p` has in its output and not in its input, as a palette.
pub open spec fn new_colors_of(p: Pair) -> Seq<bool> {
    Seq::new(
        (COLORS + 1) as nat,
        |c: int| in_palette(p.output, c as u8) && !in_palette(p.input, c as u8),
    )
}

/// How the output of one example relates to its input.
pub fn example_invariants(example: &Example) -> (r: InvariantSummary)
    requires
        valid_grid(example@.input),
        valid_grid(example@.output),
    ensures
        r.same_mask == same_mask(example@),
        r.same_count == same_count(example@),
        r.same_colors == same_colors(example@),
        r.same_palette == same_palette(example@),
        r.palette_is_subset == palette_is_subset(example@),
        r.output_palette@ == palette_of(example@.output),
        r.new_colors_palette@ == new_colors_of(example@),
{
    let input = census(example.input.as_slice());
    let output = census(example.output.as_slice());
    let same_mask = same_flags(input.mask.as_slice(), output.mask.as_slice());
    let same_count = input.count == output.count;
    let same_colors = same_counts(input.colors.as_slice(), output.colors.as_slice());
    let same_palette = same_flags(input.palette.as_slice(), output.palette.as_slice());
    let palette_is_subset = is_subset_palette(output.palette.as_slice(), input.palette.as_slice());
    let new_colors_palette = get_new_colors(input.palette.as_slice(), output.palette.as_slice());
    proof {
        let p = example@;
        if same_colors {
            assert forall|c: u8| 1 <= c <= COLORS implies occurrences(p.input, c) == occurrences(
                p.output,
                c,
            ) by {
                assert(input.colors@[c as int] == output.colors@[c as int]);
            }
        }
        if crate::analysis::same_colors(p) {
            assert forall|k: int| 0 <= k <= COLORS implies input.colors@[k]
                == output.colors@[k] by {
                if k != 0 {
                    assert(input.colors@[(k as u8) as int] == occurrences(p.input, k as u8));
                    assert(output.colors@[(k as u8) as int] == occurrences(p.output, k as u8));
                }
            }
            assert(input.colors@ =~= output.colors@);
        }
        if palette_is_subset {
            assert forall|c: u8| in_palette(p.input, c) implies in_palette(p.output, c) by {
                assert(input.palette@[c as int]);
            }
        }
        if crate::analysis::palette_is_subset(p) {
            assert forall|c: int|
                0 <= c <= COLORS && #[trigger] input.palette@[c] implies output.palette@[c] by {
                assert(in_palette(p.input, c as u8));
            }
        }
        assert(input.palette@.len() == COLORS + 1 && output.palette@.len() == COLORS + 1);
        assert(new_colors_palette@.len() == COLORS + 1);
        assert forall|c: int| 0 <= c <= COLORS implies new_colors_palette@[c] == new_colors_of(
            p,
        )[c] by {
            assert(input.palette@[c] == in_palette(p.input, c as u8));
            assert(output.palette@[c] == in_palette(p.output, c as u8));
        }
        assert(new_colors_palette@ =~= new_colors_of(p));
    }
    InvariantSummary {
        same_mask,
        same_count,
        same_colors,
        same_palette,
        palette_is_subset,
        output_palette: output.palette,
        new_colors_palette,
    }
}

/// Summarizes a task: which relations between input and output hold in
/// every example, which colors the outputs hold, and which colors some
/// output has that its input has not.
pub fn calc_invariants(examples: &[Example]) -> (summary: InvariantSummary)
    requires
        forall|k: int|
            0 <= k < examples@.len() ==> valid_grid((#[trigger] examples@[k])@.input) && valid_grid(
                examples@[k]@.output,
            ),
    ensures
        summary.describes(examples@),
{
    let mut summary = InvariantSummary {
        same_mask: true,
        same_count: true,
        same_colors: true,
        same_palette: true,
        palette_is_subset: true,
        output_palette: empty_palette(),
        new_colors_palette: empty_palette(),
    };
    let mut i: usize = 0;
    while i < examples.len()
        invariant
            i <= examples@.len(),
            forall|k: int|
                0 <= k < examples@.len() ==> valid_grid((#[trigger] examples@[k])@.input)
                    && valid_grid(examples@[k]@.output),
            summary.describes(examples@.take(i as int)),
        decreases examples@.len() - i,
    {
        let one = example_invariants(&examples[i]);
        let output_palette = or_palette(
            summary.output_palette.as_slice(),
            one.output_palette.as_slice(),
        );
        let new_colors_palette = or_palette(
            summary.new_colors_palette.as_slice(),
            one.new_colors_palette.as_slice(),
        );
        let next = InvariantSummary {
            same_mask: summary.same_mask && one.same_mask,
            same_count: summary.same_count && one.same_count,
            same_colors: summary.same_colors && one.same_colors,
            same_palette: summary.same_palette && one.same_palette,
            palette_is_subset: summary.palette_is_subset && one.palette_is_subset,
            output_palette,
            new_colors_palette,
        };
        proof {
            let before = examples@.take(i as int);
            let after = examples@.take(i + 1);
            assert(after[i as int] == examples@[i as int]);
            assert forall|k: int| 0 <= k < before.len() implies before[k] == after[k] by {}
            assert forall|c: u8| c <= COLORS implies in_some_output(after, c) == (in_some_output(
                before,
                c,
            ) || in_palette(examples@[i as int]@.output, c)) by {
                if in_some_output(before, c) {
                    let k = choose|k: int|
                        0 <= k < before.len() && in_palette((#[trigger] before[k])@.output, c);
                    assert(in_palette(after[k]@.output, c));
                }
                if in_palette(examples@[i as int]@.output, c) {
                    assert(in_palette(after[i as int]@.output, c));
                }
                if in_some_output(after, c) {
                    let k = choose|k: int|
                        0 <= k < after.len() && in_palette((#[trigger] after[k])@.output, c);
                    if k < i {
                        assert(in_palette(before[k]@.output, c));
                    }
                }
            }
            assert forall|c: u8| c <= COLORS implies new_in_some_output(after, c) == (
            new_in_some_output(before, c) || (in_palette(examples@[i as int]@.output, c)
                && !in_palette(examples@[i as int]@.input, c))) by {
                if new_in_some_output(before, c) {
                    let k = choose|k: int|
                        0 <= k < before.len() && in_palette((#[trigger] before[k])@.output, c)
                            && !in_palette(before[k]@.input, c);
                    assert(in_palette(after[k]@.output, c) && !in_palette(after[k]@.input, c));
                }
                if in_palette(examples@[i as int]@.output, c) && !in_palette(
                    examples@[i as int]@.input,
                    c,
                ) {
                    assert(in_palette(after[i as int]@.output, c) && !in_palette(
                        after[i as int]@.input,
                        c,
                    ));
                }
                if new_in_some_output(after, c) {
                    let k = choose|k: int|
                        0 <= k < after.len() && in_palette((#[trigger] after[k])@.output, c)
                            && !in_palette(after[k]@.input, c);
                    if k < i {
                        assert(in_palette(before[k]@.output, c) && !in_palette(
                            before[k]@.input,
                            c,
                        ));
                    }
                }
            }
            assert(next.describes(after));
        }
        summary = next;
        i += 1;
    }
    assert(examples@.take(examples@.len() as int) == examples@);
    summary
}

/// In a task whose every example has the same palette and as many visible
/// cells in its output as in its input, the summary says so, every input
/// palette is within its output palette, and no color is new.
pub proof fn lemma_kept_palette_and_count(summary: InvariantSummary, examples: Seq<Example>)
    requires
        summary.describes(examples),
        forall|k: int|
            0 <= k < examples.len() ==> same_palette((#[trigger] examples[k])@) && same_count(
                examples[k]@,
            ),
    ensures
        summary.same_count,
        summary.same_palette,
        summary.palette_is_subset,
        palette_set(summary.new_colors_palette@) == Set::<u8>::empty(),
{
    assert forall|k: int| 0 <= k < examples.len() implies palette_is_subset(
        (#[trigger] examples[k])@,
    ) by {
        lemma_same_palette_is_subset(examples[k]@);
    }
    assert forall|c: u8| c <= COLORS implies !new_in_some_output(examples, c) by {
        if new_in_some_output(examples, c) {
            let k = choose|k: int|
                0 <= k < examples.len() && in_palette((#[trigger] examples[k])@.output, c)
                    && !in_palette(examples[k]@.input, c);
            lemma_same_palette_is_subset(examples[k]@);
            assert(palette_of(examples[k]@.input)[c as int] == palette_of(
                examples[k]@.output,
            )[c as int]);
        }
    }
    assert forall|c: u8| !palette_set(summary.new_colors_palette@).contains(c) by {
        if c <= COLORS {
            assert(summary.new_colors_palette@[c as int] == new_in_some_output(examples, c));
        }
    }
    assert(palette_set(summary.new_colors_palette@) =~= Set::<u8>::empty());
}

/// In a task whose every example has the background in the same cells of
/// input and output and each color as often in both, with that the same
/// palette and the same count of visible cells, every flag of the summary is
/// set and no color is new.
pub proof fn lemma_kept_cells(summary: InvariantSummary, examples: Seq<Example>)
    requires
        summary.describes(examples),
        forall|k: int|
            0 <= k < examples.len() ==> same_palette((#[trigger] examples[k])@) && same_count(
                examples[k]@,
            ) && same_mask(examples[k]@) && same_colors(examples[k]@),
    ensures
        summary.same_mask,
        summary.same_count,
        summary.same_colors,
        summary.same_palette,
        summary.palette_is_subset,
        palette_set(summary.new_colors_palette@) == Set::<u8>::empty(),
{
    lemma_kept_palette_and_count(summary, examples);
}

/// The flags of a summary are not independent: a task that keeps the mask
/// keeps the count, one that keeps how often each color occurs keeps the
/// palette, and one that keeps the palette has every input palette within
/// its output palette.
pub proof fn lemma_flags_follow(summary: InvariantSummary, examples: Seq<Example>)
    requires
        summary.describes(examples),
    ensures
        summary.same_mask ==> summary.same_count,
        summary.same_colors ==> summary.same_palette,
        summary.same_palette ==> summary.palette_is_subset,
{
    if summary.same_mask {
        assert forall|k: int| 0 <= k < examples.len() implies same_count(
            (#[trigger] examples[k])@,
        ) by {
            lemma_same_mask_same_count(examples[k]@);
        }
    }
    if summary.same_colors {
        assert forall|k: int| 0 <= k < examples.len() implies same_palette(
            (#[trigger] examples[k])@,
        ) by {
            lemma_same_colors_same_palette(examples[k]@);
        }
    }
    if summary.same_palette {
        assert forall|k: int| 0 <= k < examples.len() implies palette_is_subset(
            (#[trigger] examples[k])@,
        ) by {
            lemma_same_palette_is_subset(examples[k]@);
        }
    }
}

/// Grids with the background in the same cells have as many visible cells.
pub proof fn lemma_same_mask_same_count(p: Pair)
    requires
        same_mask(p),
    ensures
        same_count(p),
{
    lemma_mask_counts_visible(p.input, 0);
    lemma_mask_counts_visible(p.output, 0);
}

/// Grids that hold each color equally often hold the same colors.
pub proof fn lemma_same_colors_same_palette(p: Pair)
    requires
        same_colors(p),
    ensures
        same_palette(p),
{
    assert forall|c: int| 0 <= c <= COLORS implies #[trigger] palette_of(p.input)[c]
        == palette_of(p.output)[c] by {
        lemma_occurs_iff_contained(p.input, c as u8);
        lemma_occurs_iff_contained(p.output, c as u8);
    }
    assert(palette_of(p.input) =~= palette_of(p.output));
}

/// Grids with the same palette have each other's colors.
pub proof fn lemma_same_palette_is_subset(p: Pair)
    requires
        same_palette(p),
    ensures
        palette_is_subset(p),
{
    assert forall|c: u8| in_palette(p.input, c) implies in_palette(p.output, c) by {
        assert(palette_of(p.input)[c as int] == palette_of(p.output)[c as int]);
    }
}

} // verus!
