//! Rules in which scattered cells fall toward an end of the field, and the
//! rule that recolors them.

use crate::example::{outcome, Example, Pair};
use crate::grid::{
    blank, equal_to, gen_field, gen_field_color, lemma_filter_next, lemma_painted_valid,
    occurrences, other_than, painted, remove_color, solid, valid_grid, without_color,
    write_block, COLORS,
};
use crate::random::{
    draw_ratio, gen_random_sparse_field, gen_random_sparse_field_two_colors, two_colored,
};
use rand::rngs::StdRng;
use vstd::prelude::*;

verus! {

/// What is left of a grid without one color is no longer than the grid,
/// and holds colors of the alphabet where the grid does.
pub proof fn lemma_without_color_fits(field: Seq<u8>, color: u8)
    ensures
        without_color(field, color).len() <= field.len(),
        valid_grid(field) ==> valid_grid(without_color(field, color)),
    decreases field.len(),
{
    reveal(Seq::filter);
    if field.len() > 0 {
        lemma_without_color_fits(field.drop_last(), color);
    }
}

/// Two different colors together occur in no more cells than a grid has.
pub proof fn lemma_two_colors_fit(field: Seq<u8>, a: u8, b: u8)
    requires
        a != b,
    ensures
        occurrences(field, a) + occurrences(field, b) <= field.len(),
    decreases field.len(),
{
    reveal(Seq::filter);
    if field.len() > 0 {
        lemma_two_colors_fit(field.drop_last(), a, b);
    }
}

/// How many cells of `grid` hold `color`.
pub fn count_color(grid: &[u8], color: u8) -> (count: usize)
    ensures
        count == occurrences(grid@, color),
{
    let mut count: usize = 0;
    let mut i: usize = 0;
    proof {
        reveal(Seq::filter);
    }
    while i < grid.len()
        invariant
            i <= grid@.len(),
            count == occurrences(grid@.take(i as int), color),
            count <= i,
        decreases grid@.len() - i,
    {
        proof {
            lemma_filter_next(grid@, i as int, equal_to(color));
        }
        if grid[i] == color {
            count += 1;
        }
        i += 1;
    }
    assert(grid@.take(grid@.len() as int) == grid@);
    count
}

/// A grid, and its colored cells moved together at the left end in their
/// order.
pub open spec fn gravity_pair(input: Seq<u8>) -> Pair {
    Pair { input, output: painted(blank(input.len()), 0, without_color(input, 0)) }
}

/// The example in which the colored cells of `input` fall to the left.
pub fn gravity_from(input: Vec<u8>) -> (e: Example)
    ensures
        e@ == gravity_pair(input@),
{
    let fallen = remove_color(0, input.clone());
    proof {
        lemma_without_color_fits(input@, 0);
    }
    let answer = write_block(0, fallen.as_slice(), gen_field(input.len()));
    Example { input, output: answer }
}

/// What [`task_gravity`] can give on a field of `size` cells: for each
/// outcome, the draws that it comes from.
pub open spec fn gravity_outcome(size: nat, r: Option<Pair>) -> bool {
    &&& r matches Some(p) && p.fits(size) && p == gravity_pair(p.input)
}

/// Scattered cells of any color fall to the left end of the field and keep
/// their order.
pub fn task_gravity(size: usize, rng: &mut StdRng) -> (r: Option<Example>)
    ensures
        gravity_outcome(size as nat, outcome(r)),
{
    let question = gen_random_sparse_field(size, rng);
    proof {
        lemma_without_color_fits(question@, 0);
        lemma_painted_valid(blank(size as nat), 0, without_color(question@, 0));
    }
    Some(gravity_from(question))
}

/// A grid, and as many cells of the first color at the left end as the
/// grid has colored cells.
pub open spec fn gravity_counting_pair(input: Seq<u8>) -> Pair {
    Pair {
        input,
        output: painted(blank(input.len()), 0, solid(without_color(input, 0).len(), 1)),
    }
}

/// The example in which the colored cells of `input` fall to the left and
/// all take the first color.
pub fn gravity_counting_from(input: Vec<u8>) -> (e: Example)
    ensures
        e@ == gravity_counting_pair(input@),
{
    let count = remove_color(0, input.clone()).len();
    proof {
        lemma_without_color_fits(input@, 0);
    }
    let block = gen_field_color(count, 1);
    let answer = write_block(0, block.as_slice(), gen_field(input.len()));
    Example { input, output: answer }
}

/// What [`task_gravity_counting`] can give on a field of `size` cells: for each
/// outcome, the draws that it comes from.
pub open spec fn gravity_counting_outcome(size: nat, r: Option<Pair>) -> bool {
    &&& r matches Some(p) && p.fits(size) && p == gravity_counting_pair(p.input)
}

/// Scattered cells of any color fall to the left end of the field and then
/// all take the first color, so that the output counts them.
pub fn task_gravity_counting(size: usize, rng: &mut StdRng) -> (r: Option<Example>)
    ensures
        gravity_counting_outcome(size as nat, outcome(r)),
{
    let question = gen_random_sparse_field(size, rng);
    proof {
        lemma_without_color_fits(question@, 0);
        lemma_painted_valid(blank(size as nat), 0, solid(without_color(question@, 0).len(), 1));
    }
    Some(gravity_counting_from(question))
}

/// The colored cells of `input` that do not hold `color`, in their order.
pub open spec fn others(input: Seq<u8>, color: u8) -> Seq<u8> {
    without_color(without_color(input, 0), color)
}

/// A grid, and its cells that are not of the second color at the left end
/// and those that are not of the first color at the right end, each group in
/// its order. Where the two groups meet, the left one lies on top.
pub open spec fn gravity_antigravity_pair(input: Seq<u8>) -> Pair {
    let size = input.len();
    let left = others(input, 2);
    let right = others(input, 1);
    Pair { input, output: painted(painted(blank(size), size - right.len(), right), 0, left) }
}

/// The example in which the cells of the first color of `input` fall to
/// the left and those of the second color to the right.
pub fn gravity_antigravity_from(input: Vec<u8>) -> (e: Example)
    ensures
        e@ == gravity_antigravity_pair(input@),
{
    let size = input.len();
    let left = remove_color(2, remove_color(0, input.clone()));
    let right = remove_color(1, remove_color(0, input.clone()));
    proof {
        lemma_without_color_fits(input@, 0);
        lemma_without_color_fits(without_color(input@, 0), 2);
        lemma_without_color_fits(without_color(input@, 0), 1);
    }
    let answer = write_block(
        0,
        left.as_slice(),
        write_block(size - right.len(), right.as_slice(), gen_field(size)),
    );
    Example { input, output: answer }
}

/// What [`task_gravity_antigravity`] can give on a field of `size` cells: for each
/// outcome, the draws that it comes from.
pub open spec fn gravity_antigravity_outcome(size: nat, r: Option<Pair>) -> bool {
    &&& r matches Some(p) && p.fits(size) && two_colored(p.input) && p
        == gravity_antigravity_pair(p.input)
}

/// Scattered cells of the first two colors: those of the first color fall
/// to the left end of the field, those of the second color to the right
/// end.
pub fn task_gravity_antigravity(size: usize, rng: &mut StdRng) -> (r: Option<Example>)
    ensures
        gravity_antigravity_outcome(size as nat, outcome(r)),
{
    let question = gen_random_sparse_field_two_colors(size, rng);
    proof {
        let input = question@;
        assert(valid_grid(input)) by {
            assert forall|i: int| 0 <= i < input.len() implies #[trigger] input[i] <= COLORS by {
                assert(input[i] <= 2);
            }
        }
        lemma_without_color_fits(input, 0);
        lemma_without_color_fits(without_color(input, 0), 2);
        lemma_without_color_fits(without_color(input, 0), 1);
        lemma_painted_valid(blank(size as nat), size - others(input, 1).len(), others(input, 1));
        lemma_painted_valid(
            painted(blank(size as nat), size - others(input, 1).len(), others(input, 1)),
            0,
            others(input, 2),
        );
    }
    Some(gravity_antigravity_from(question))
}

/// The first cell of `input` at or after `from` that holds the background;
/// the length of `input` where there is none.
pub open spec fn first_background(input: Seq<u8>, from: int) -> int
    decreases input.len() - from,
{
    if from < 0 || from >= input.len() {
        input.len() as int
    } else if input[from] == 0 {
        from
    } else {
        first_background(input, from + 1)
    }
}

/// `input` after every colored cell with a background cell somewhere to
/// its left has moved one cell to the left: the first background cell is
/// gone, what lay to its right has moved up, and the last cell is
/// background. A grid without background stays as it is.
pub open spec fn stepped_left(input: Seq<u8>) -> Seq<u8> {
    let gap = first_background(input, 0);
    if gap >= input.len() {
        input
    } else {
        input.remove(gap).push(0)
    }
}

/// The first background cell at or after `from` is where it is said to be:
/// no cell between `from` and `gap` holds the background, and `gap` does or
/// is the end of the grid.
proof fn lemma_first_background(input: Seq<u8>, from: int, gap: int)
    requires
        0 <= from <= gap <= input.len(),
        forall|k: int| from <= k < gap ==> input[k] != 0,
        gap < input.len() ==> input[gap] == 0,
    ensures
        first_background(input, from) == gap,
    decreases gap - from,
{
    if from < gap {
        lemma_first_background(input, from + 1, gap);
    }
}

/// A grid, and the grid after one step of its colored cells to the left.
pub open spec fn gravity_one_step_pair(input: Seq<u8>) -> Pair {
    Pair { input, output: stepped_left(input) }
}

/// The example in which each colored cell of `input` moves one cell to the
/// left where the cell there is free or becomes free in the same step.
pub fn gravity_one_step_from(input: Vec<u8>) -> (e: Example)
    ensures
        e@ == gravity_one_step_pair(input@),
{
    let size = input.len();
    let mut answer = input.clone();
    if size == 0 {
        assert(answer@ =~= stepped_left(input@));
        return Example { input, output: answer };
    }
    let ghost mut gap: int = if input@[0] == 0 {
        0
    } else {
        1
    };
    let mut i: usize = 1;
    while i < size
        invariant
            1 <= i <= size,
            size == input@.len(),
            answer@.len() == size,
            0 <= gap <= i,
            forall|k: int| 0 <= k < gap ==> input@[k] != 0,
            gap < i ==> input@[gap] == 0,
            forall|k: int| 0 <= k < gap ==> answer@[k] == input@[k],
            forall|k: int| gap <= k < i - 1 ==> answer@[k] == input@[k + 1],
            gap < i ==> answer@[i - 1] == 0,
            forall|k: int| i <= k < size ==> answer@[k] == input@[k],
        decreases size - i,
    {
        if answer[i] != 0 && answer[i - 1] == 0 {
            let color = answer[i];
            answer.set(i - 1, color);
            answer.set(i, 0);
        }
        proof {
            if gap == i && input@[i as int] != 0 {
                gap = gap + 1;
            }
        }
        i += 1;
    }
    proof {
        lemma_first_background(input@, 0, gap);
        if gap < size {
            assert(answer@ =~= input@.remove(gap).push(0));
        } else {
            assert(answer@ =~= input@);
        }
    }
    Example { input, output: answer }
}

/// What [`task_gravity_one_step`] can give on a field of `size` cells: for each
/// outcome, the draws that it comes from.
pub open spec fn gravity_one_step_outcome(size: nat, r: Option<Pair>) -> bool {
    &&& r matches Some(p) && p.fits(size) && p == gravity_one_step_pair(p.input)
}

/// Scattered cells of any color; in the output each of them has moved one
/// cell to the left where it could.
pub fn task_gravity_one_step(size: usize, rng: &mut StdRng) -> (r: Option<Example>)
    ensures
        gravity_one_step_outcome(size as nat, outcome(r)),
{
    let question = gen_random_sparse_field(size, rng);
    let e = gravity_one_step_from(question);
    proof {
        let input = e@.input;
        let gap = first_background(input, 0);
        lemma_first_background_in_range(input, 0);
    }
    Some(e)
}

/// The first background cell at or after `from` lies between `from` and the
/// end of the grid.
proof fn lemma_first_background_in_range(input: Seq<u8>, from: int)
    requires
        0 <= from <= input.len(),
    ensures
        from <= first_background(input, from) <= input.len(),
    decreases input.len() - from,
{
    if from < input.len() && input[from] != 0 {
        lemma_first_background_in_range(input, from + 1);
    }
}

/// A grid, and the fifth color wherever the grid holds a color.
pub open spec fn change_to_five_pair(input: Seq<u8>) -> Pair {
    Pair {
        input,
        output: Seq::new(
            input.len(),
            |i: int|
                if input[i] != 0 {
                    5u8
                } else {
                    0u8
                },
        ),
    }
}

/// The example in which each colored cell of `input` takes the fifth
/// color.
pub fn change_to_five_from(input: Vec<u8>) -> (e: Example)
    ensures
        e@ == change_to_five_pair(input@),
{
    let mut answer: Vec<u8> = Vec::new();
    let mut i: usize = 0;
    while i < input.len()
        invariant
            i <= input@.len(),
            answer@.len() == i,
            forall|k: int|
                0 <= k < i ==> answer@[k] == (if input@[k] != 0 {
                    5u8
                } else {
                    0u8
                }),
        decreases input@.len() - i,
    {
        answer.push(
            if input[i] != 0 {
                5
            } else {
                0
            },
        );
        i += 1;
    }
    assert(answer@ =~= change_to_five_pair(input@).output);
    Example { input, output: answer }
}

/// What [`task_change_to_five`] can give on a field of `size` cells: for each
/// outcome, the draws that it comes from.
pub open spec fn change_to_five_outcome(size: nat, r: Option<Pair>) -> bool {
    &&& r matches Some(p) && p.fits(size) && p == change_to_five_pair(p.input)
}

/// Scattered cells of any color; in the output each of them holds the
/// fifth color.
pub fn task_change_to_five(size: usize, rng: &mut StdRng) -> (r: Option<Example>)
    ensures
        change_to_five_outcome(size as nat, outcome(r)),
{
    let question = gen_random_sparse_field(size, rng);
    Some(change_to_five_from(question))
}

/// A grid, and at the left end first as many cells of the second color as
/// the grid has, then as many of the first color as it has.
pub open spec fn gravity_weighted_colors_pair(input: Seq<u8>) -> Pair {
    let heavy = occurrences(input, 2);
    let light = occurrences(input, 1);
    Pair {
        input,
        output: painted(
            painted(blank(input.len()), heavy as int, solid(light, 1)),
            0,
            solid(heavy, 2),
        ),
    }
}

/// The example in which the cells of the first two colors of `input` fall
/// to the left, all of the second color before all of the first.
pub fn gravity_weighted_colors_from(input: Vec<u8>) -> (e: Example)
    ensures
        e@ == gravity_weighted_colors_pair(input@),
{
    let light = count_color(input.as_slice(), 1);
    let heavy = count_color(input.as_slice(), 2);
    proof {
        lemma_two_colors_fit(input@, 1, 2);
    }
    let light_block = gen_field_color(light, 1);
    let heavy_block = gen_field_color(heavy, 2);
    let answer = write_block(
        0,
        heavy_block.as_slice(),
        write_block(heavy, light_block.as_slice(), gen_field(input.len())),
    );
    Example { input, output: answer }
}

/// A grid of `size` cells, each with an even chance the background, else
/// with an even chance the first or the second color.
fn gen_random_weighted_field(size: usize, rng: &mut StdRng) -> (field: Vec<u8>)
    ensures
        field@.len() == size,
        two_colored(field@),
{
    let mut field: Vec<u8> = Vec::new();
    let mut i: usize = 0;
    while i < size
        invariant
            i <= size,
            field@.len() == i,
            two_colored(field@),
        decreases size - i,
    {
        let color = if draw_ratio(rng, 1, 2) {
            if draw_ratio(rng, 1, 2) {
                1
            } else {
                2
            }
        } else {
            0
        };
        field.push(color);
        i += 1;
    }
    field
}

/// What [`task_gravity_weighted_colors`] can give on a field of `size` cells: for each
/// outcome, the draws that it comes from.
pub open spec fn gravity_weighted_colors_outcome(size: nat, r: Option<Pair>) -> bool {
    &&& r matches Some(p) && p.fits(size) && two_colored(p.input) && p
        == gravity_weighted_colors_pair(p.input)
}

/// Scattered cells of the first two colors fall to the left end of the
/// field, and the second color is the heavier: all its cells come first,
/// then all cells of the first color.
pub fn task_gravity_weighted_colors(size: usize, rng: &mut StdRng) -> (r: Option<Example>)
    ensures
        gravity_weighted_colors_outcome(size as nat, outcome(r)),
{
    let question = gen_random_weighted_field(size, rng);
    proof {
        let input = question@;
        assert(valid_grid(input)) by {
            assert forall|i: int| 0 <= i < input.len() implies #[trigger] input[i] <= COLORS by {
                assert(input[i] <= 2);
            }
        }
        lemma_two_colors_fit(input, 1, 2);
        let heavy = occurrences(input, 2);
        let light = occurrences(input, 1);
        lemma_painted_valid(blank(size as nat), heavy as int, solid(light, 1));
        lemma_painted_valid(
            painted(blank(size as nat), heavy as int, solid(light, 1)),
            0,
            solid(heavy, 2),
        );
    }
    Some(gravity_weighted_colors_from(question))
}

} // verus!
