//! Rules in which a colored cell spreads its color over the cells beside it.

use crate::example::{outcome, Example, Pair};
use crate::grid::{
    blank, dots_apart, dots_fit, dotted, gen_field, gen_field_color, has_background,
    lemma_dotted_valid,
    lemma_painted_valid, painted, solid, valid_grid, write_block, write_dots, Dot, Side, COLORS,
};
use crate::random::{draw_below, draw_ratio, draw_through, permute_color_not_black, random_color};
use rand::rngs::StdRng;
use vstd::prelude::*;

verus! {

/// Two cells of `color`, and the run of `color` from the one to the other;
/// nothing where the two places are the same.
pub open spec fn two_points_and_fill_pair(size: nat, color: u8, one: int, other: int) -> Option<
    Pair,
> {
    if one == other {
        None
    } else {
        let low = if one < other {
            one
        } else {
            other
        };
        let high = if one < other {
            other
        } else {
            one
        };
        Some(
            Pair {
                input: blank(size).update(low, color).update(high, color),
                output: painted(blank(size), low, solid((high - low + 1) as nat, color)),
            },
        )
    }
}

/// The example with two cells of `color` at `one` and `other`, which the output
/// joins; infeasible where the two are one cell.
pub fn two_points_and_fill_from(size: usize, color: u8, one: usize, other: usize) -> (r: Option<
    Example,
>)
    requires
        one < size,
        other < size,
    ensures
        outcome(r) == two_points_and_fill_pair(size as nat, color, one as int, other as int),
{
    if one == other {
        return None;
    }
    let (low, high) = if one < other {
        (one, other)
    } else {
        (other, one)
    };
    let mut question = gen_field(size);
    question.set(low, color);
    question.set(high, color);
    let run = gen_field_color(high - low + 1, color);
    let answer = write_block(low, run.as_slice(), gen_field(size));
    Some(Example { input: question, output: answer })
}

/// What [`task_two_points_and_fill`] can give on a field of `size` cells: for each
/// outcome, the draws that it comes from.
pub open spec fn two_points_and_fill_outcome(size: nat, r: Option<Pair>) -> bool {
    &&& exists|color: u8, one: int, other: int|
        1 <= color <= COLORS && 0 <= one < size && 0 <= other < size && r
            == #[trigger] two_points_and_fill_pair(size, color, one, other)
    &&& r matches Some(p) ==> p.fits(size)
}

/// Two cells of one color, and in the output everything between them is
/// filled with that color. Infeasible where both draws name the same cell.
pub fn task_two_points_and_fill(size: usize, rng: &mut StdRng) -> (r: Option<Example>)
    requires
        size >= 1,
    ensures
        two_points_and_fill_outcome(size as nat, outcome(r)),
{
    let color = random_color(rng);
    let one = draw_below(rng, 0, size);
    let other = draw_below(rng, 0, size);
    let r = two_points_and_fill_from(size, color, one, other);
    proof {
        if one != other {
            let low = if one < other {
                one
            } else {
                other
            };
            let high = if one < other {
                other
            } else {
                one
            };
            lemma_painted_valid(
                blank(size as nat),
                low as int,
                solid((high - low + 1) as nat, color),
            );
        }
    }
    r
}

/// A block with a seed cell on one side of it, and the seed's color spread
/// from the block to the edge of the field on that side.
pub open spec fn fill_from_pixel_pair(
    size: nat,
    block_pos: int,
    block_size: nat,
    block_color: u8,
    seed_color: u8,
    side: Side,
) -> Pair {
    let block = painted(blank(size), block_pos, solid(block_size, block_color));
    match side {
        Side::Left => Pair {
            input: block.update(block_pos - 1, seed_color),
            output: painted(block, 0, solid(block_pos as nat, seed_color)),
        },
        Side::Right => Pair {
            input: block.update(block_pos + block_size, seed_color),
            output: painted(
                block,
                block_pos + block_size,
                solid((size - block_pos - block_size) as nat, seed_color),
            ),
        },
    }
}

/// The example with a block of `block_color` and a seed cell of
/// `seed_color` next to it on `side`, which fills the field up to the edge.
pub fn fill_from_pixel_from(
    size: usize,
    block_pos: usize,
    block_size: usize,
    block_color: u8,
    seed_color: u8,
    side: Side,
) -> (e: Example)
    requires
        1 <= block_pos,
        block_pos + block_size < size,
    ensures
        e@ == fill_from_pixel_pair(
            size as nat,
            block_pos as int,
            block_size as nat,
            block_color,
            seed_color,
            side,
        ),
{
    let block = gen_field_color(block_size, block_color);
    let mut question = write_block(block_pos, block.as_slice(), gen_field(size));
    let field = write_block(block_pos, block.as_slice(), gen_field(size));
    match side {
        Side::Left => {
            question.set(block_pos - 1, seed_color);
            let run = gen_field_color(block_pos, seed_color);
            let answer = write_block(0, run.as_slice(), field);
            Example { input: question, output: answer }
        },
        Side::Right => {
            question.set(block_pos + block_size, seed_color);
            let run = gen_field_color(size - block_pos - block_size, seed_color);
            let answer = write_block(block_pos + block_size, run.as_slice(), field);
            Example { input: question, output: answer }
        },
    }
}

/// What [`task_fill_from_pixel`] draws: the length of the block; and where
/// the field has room for the block with a cell on either side and one
/// more, the place and the color of the block and the color of the seed,
/// which is none where it came out as the background.
pub open spec fn fill_from_pixel_draws(
    size: nat,
    block_pos: int,
    block_size: nat,
    block_color: u8,
    seed: Option<u8>,
) -> bool {
    &&& 3 <= block_size <= 6
    &&& block_size + 2 < size ==> {
        &&& 1 <= block_pos
        &&& block_pos + block_size + 1 < size
        &&& 1 <= block_color <= COLORS
        &&& seed matches Some(c) ==> 1 <= c <= COLORS && c != block_color
    }
}

/// What comes of the draws: nothing where the field is too short for the
/// block, and nothing where the seed has no color; else the example of the
/// block and the seed.
pub open spec fn fill_from_pixel_result(
    size: nat,
    block_pos: int,
    block_size: nat,
    block_color: u8,
    seed: Option<u8>,
    side: Side,
) -> Option<Pair> {
    if block_size + 2 >= size {
        None
    } else {
        match seed {
            Some(c) => Some(
                fill_from_pixel_pair(size, block_pos, block_size, block_color, c, side),
            ),
            None => None,
        }
    }
}

/// What [`task_fill_from_pixel`] can give on a field of `size` cells: what
/// comes of some draws that it can make. A field of less than six cells is
/// too short for every block.
pub open spec fn fill_from_pixel_outcome(size: nat, r: Option<Pair>) -> bool {
    &&& size <= 5 ==> r is None
    &&& exists|block_pos: int, block_size: nat, block_color: u8, seed: Option<u8>, side: Side|
        fill_from_pixel_draws(size, block_pos, block_size, block_color, seed) && r
            == #[trigger] fill_from_pixel_result(
            size,
            block_pos,
            block_size,
            block_color,
            seed,
            side,
        )
    &&& r matches Some(p) ==> p.fits(size)
}

/// A solid block of at least three cells with one cell of another color at
/// its left or right side; that cell fills its side of the field with its
/// color. Infeasible where the block leaves no room on both sides, or where
/// the color drawn for the seed came out as the background.
pub fn task_fill_from_pixel(size: usize, rng: &mut StdRng) -> (r: Option<Example>)
    ensures
        fill_from_pixel_outcome(size as nat, outcome(r)),
{
    let block_size = draw_through(rng, 3, 6);
    if size < 2 || block_size >= size - 2 {
        proof {
            assert(fill_from_pixel_result(size as nat, 0, block_size as nat, 0, None, Side::Left)
                is None);
        }
        return None;
    }
    let block_pos = draw_below(rng, 1, size - block_size - 1);
    let block_color = random_color(rng);
    let seed_color = match permute_color_not_black(block_color, rng) {
        Some(c) => c,
        None => {
            proof {
                assert(fill_from_pixel_result(
                    size as nat,
                    block_pos as int,
                    block_size as nat,
                    block_color,
                    None,
                    Side::Left,
                ) is None);
            }
            return None;
        },
    };
    let side = if draw_ratio(rng, 1, 2) {
        Side::Left
    } else {
        Side::Right
    };
    let e = fill_from_pixel_from(size, block_pos, block_size, block_color, seed_color, side);
    proof {
        assert(Some(e@) == fill_from_pixel_result(
            size as nat,
            block_pos as int,
            block_size as nat,
            block_color,
            Some(seed_color),
            side,
        ));
        let block = painted(
            blank(size as nat),
            block_pos as int,
            solid(block_size as nat, block_color),
        );
        lemma_painted_valid(
            blank(size as nat),
            block_pos as int,
            solid(block_size as nat, block_color),
        );
        lemma_painted_valid(block, 0, solid(block_pos as nat, seed_color));
        lemma_painted_valid(
            block,
            block_pos + block_size,
            solid((size - block_pos - block_size) as nat, seed_color),
        );
    }
    Some(e)
}

/// The color of one cell after the seeds of a block have spread: to the
/// left of the left seed and to the right of the right seed the seed's color
/// comes in runs as long as the block, one cell apart, the first of them
/// starting with the seed itself; every other cell is as in `input`.
pub open spec fn duplicated_cell(
    input: Seq<u8>,
    i: int,
    block_pos: int,
    block_size: nat,
    left: Option<u8>,
    right: Option<u8>,
) -> u8 {
    let left_seed = block_pos - 2;
    let right_seed = block_pos + block_size + 1;
    let period = (block_size + 1) as int;
    if left is Some && i <= left_seed && (left_seed - i) % period < block_size {
        left->0
    } else if right is Some && i >= right_seed && (i - right_seed) % period < block_size {
        right->0
    } else {
        input[i]
    }
}

/// The input of a block with seeds: the block in the first color, and each
/// seed that is there one cell away from it.
pub open spec fn seeded_block(
    size: nat,
    block_pos: int,
    block_size: nat,
    left: Option<u8>,
    right: Option<u8>,
) -> Seq<u8> {
    let block = painted(blank(size), block_pos, solid(block_size, 1));
    let with_left = if left is Some {
        block.update(block_pos - 2, left->0)
    } else {
        block
    };
    if right is Some {
        with_left.update(block_pos + block_size + 1, right->0)
    } else {
        with_left
    }
}

/// A block with a seed cell one cell away on one or both sides, and the
/// block repeated outward from each seed in the seed's color up to the edge
/// of the field; nothing where there is no seed.
pub open spec fn duplicate_block_from_seeds_pair(
    size: nat,
    block_pos: int,
    block_size: nat,
    left: Option<u8>,
    right: Option<u8>,
) -> Option<Pair> {
    if left is None && right is None {
        None
    } else {
        let input = seeded_block(size, block_pos, block_size, left, right);
        Some(
            Pair {
                input,
                output: Seq::new(
                    size,
                    |i: int| duplicated_cell(input, i, block_pos, block_size, left, right),
                ),
            },
        )
    }
}

/// The example of a block at `block_pos` with the seeds `left` and `right`;
/// infeasible without a seed.
pub fn duplicate_block_from_seeds_from(
    size: usize,
    block_pos: usize,
    block_size: usize,
    left: Option<u8>,
    right: Option<u8>,
) -> (r: Option<Example>)
    requires
        2 <= block_pos,
        block_pos + block_size + 1 < size,
    ensures
        outcome(r) == duplicate_block_from_seeds_pair(
            size as nat,
            block_pos as int,
            block_size as nat,
            left,
            right,
        ),
{
    if left.is_none() && right.is_none() {
        return None;
    }
    let block = gen_field_color(block_size, 1);
    let mut question = write_block(block_pos, block.as_slice(), gen_field(size));
    let left_seed = block_pos - 2;
    let right_seed = block_pos + block_size + 1;
    let period = block_size + 1;
    if let Some(color) = left {
        question.set(left_seed, color);
    }
    if let Some(color) = right {
        question.set(right_seed, color);
    }
    let mut answer: Vec<u8> = Vec::new();
    let mut i: usize = 0;
    while i < size
        invariant
            i <= size,
            2 <= block_pos,
            block_pos + block_size + 1 < size,
            left_seed == block_pos - 2,
            right_seed == block_pos + block_size + 1,
            period == block_size + 1,
            question@.len() == size,
            answer@.len() == i,
            forall|k: int|
                0 <= k < i ==> answer@[k] == duplicated_cell(
                    question@,
                    k,
                    block_pos as int,
                    block_size as nat,
                    left,
                    right,
                ),
        decreases size - i,
    {
        let cell = if left.is_some() && i <= left_seed && (left_seed - i) % period < block_size {
            left.unwrap()
        } else if right.is_some() && i >= right_seed && (i - right_seed) % period < block_size {
            right.unwrap()
        } else {
            question[i]
        };
        answer.push(cell);
        i += 1;
    }
    assert(answer@ =~= Seq::new(
        size as nat,
        |i: int|
            duplicated_cell(question@, i, block_pos as int, block_size as nat, left, right),
    ));
    Some(Example { input: question, output: answer })
}

/// A seed color where `wanted`, else none.
fn draw_seed(wanted: bool, rng: &mut StdRng) -> (seed: Option<u8>)
    ensures
        seed is Some == wanted,
        seed matches Some(c) ==> 1 <= c <= COLORS,
{
    if wanted {
        Some(random_color(rng))
    } else {
        None
    }
}

/// What [`task_duplicate_block_from_seeds`] draws: the length of the
/// block; and where the field has room for the block with two cells on
/// either side, the place of the block and, for each side, whether it has a
/// seed and of which color.
pub open spec fn duplicate_block_from_seeds_draws(
    size: nat,
    block_pos: int,
    block_size: nat,
    left: Option<u8>,
    right: Option<u8>,
) -> bool {
    &&& 2 <= block_size <= 4
    &&& size > block_size + 3 ==> {
        &&& 2 <= block_pos
        &&& block_pos + block_size + 1 < size
        &&& left matches Some(c) ==> 1 <= c <= COLORS
        &&& right matches Some(c) ==> 1 <= c <= COLORS
    }
}

/// What comes of the draws: nothing where the field is too short for the
/// block and its seeds, else what [`duplicate_block_from_seeds_pair`] says,
/// which is nothing without a seed.
pub open spec fn duplicate_block_from_seeds_result(
    size: nat,
    block_pos: int,
    block_size: nat,
    left: Option<u8>,
    right: Option<u8>,
) -> Option<Pair> {
    if size <= block_size + 3 {
        None
    } else {
        duplicate_block_from_seeds_pair(size, block_pos, block_size, left, right)
    }
}

/// What [`task_duplicate_block_from_seeds`] can give on a field of `size`
/// cells: what comes of some draws that it can make. A field of less than
/// six cells is too short for every block.
pub open spec fn duplicate_block_from_seeds_outcome(size: nat, r: Option<Pair>) -> bool {
    &&& size <= 5 ==> r is None
    &&& exists|block_pos: int, block_size: nat, left: Option<u8>, right: Option<u8>|
        duplicate_block_from_seeds_draws(size, block_pos, block_size, left, right) && r
            == #[trigger] duplicate_block_from_seeds_result(
            size,
            block_pos,
            block_size,
            left,
            right,
        )
    &&& r matches Some(p) ==> p.fits(size)
}

/// A block in the first color with a seed cell of some color one cell away
/// on its left, on its right or on both sides. From each seed on the block
/// is repeated in the seed's color, with a gap of one cell, until the edge
/// of the field, where the last copy may be cut. Infeasible on a field too
/// short for block and seeds, and where neither seed was drawn.
pub fn task_duplicate_block_from_seeds(size: usize, rng: &mut StdRng) -> (r: Option<Example>)
    ensures
        duplicate_block_from_seeds_outcome(size as nat, outcome(r)),
{
    let block_size = draw_through(rng, 2, 4);
    if size <= 3 + block_size {
        proof {
            assert(duplicate_block_from_seeds_result(size as nat, 0, block_size as nat, None, None)
                is None);
        }
        return None;
    }
    let block_pos = draw_below(rng, 2, size - block_size - 1);
    let left_seed = draw_ratio(rng, 1, 2);
    let right_seed = draw_ratio(rng, 1, 2);
    if !left_seed && !right_seed {
        proof {
            assert(duplicate_block_from_seeds_result(
                size as nat,
                block_pos as int,
                block_size as nat,
                None,
                None,
            ) is None);
        }
        return None;
    }
    let left = draw_seed(left_seed, rng);
    let right = draw_seed(right_seed, rng);
    let r = duplicate_block_from_seeds_from(size, block_pos, block_size, left, right);
    proof {
        assert(outcome(r) == duplicate_block_from_seeds_result(
            size as nat,
            block_pos as int,
            block_size as nat,
            left,
            right,
        ));
        lemma_painted_valid(blank(size as nat), block_pos as int, solid(block_size as nat, 1));
    }
    r
}

/// The color of the nearest cell at or to the right of `i` that is not
/// background; background where there is none.
pub open spec fn next_color(field: Seq<u8>, i: int) -> u8
    decreases field.len() - i,
{
    if i < 0 || i >= field.len() {
        0
    } else if field[i] != 0 {
        field[i]
    } else {
        next_color(field, i + 1)
    }
}

/// The color of the nearest cell at or to the left of `i` that is not
/// background; background where there is none.
pub open spec fn previous_color(field: Seq<u8>, i: int) -> u8
    decreases i + 1,
{
    if i < 0 || i >= field.len() {
        0
    } else if field[i] != 0 {
        field[i]
    } else {
        previous_color(field, i - 1)
    }
}

/// `input` after each colored cell has spread its color toward `side` up to
/// the next colored cell.
pub open spec fn spread_toward(input: Seq<u8>, side: Side) -> Seq<u8> {
    match side {
        Side::Left => Seq::new(input.len(), |i: int| next_color(input, i)),
        Side::Right => Seq::new(input.len(), |i: int| previous_color(input, i)),
    }
}

/// `input` after each colored cell has spread its color toward `side` up to
/// the next colored cell.
pub fn spread(input: &[u8], side: Side) -> (out: Vec<u8>)
    ensures
        out@ == spread_toward(input@, side),
{
    let size = input.len();
    let mut out = gen_field(size);
    match side {
        Side::Left => {
            let mut i: usize = size;
            let mut color: u8 = 0;
            while i > 0
                invariant
                    i <= size,
                    size == input@.len(),
                    out@.len() == size,
                    color == next_color(input@, i as int),
                    forall|k: int| i <= k < size ==> out@[k] == next_color(input@, k),
                decreases i,
            {
                i -= 1;
                if input[i] != 0 {
                    color = input[i];
                }
                out.set(i, color);
            }
        },
        Side::Right => {
            let mut i: usize = 0;
            let mut color: u8 = 0;
            while i < size
                invariant
                    i <= size,
                    size == input@.len(),
                    out@.len() == size,
                    color == previous_color(input@, i - 1),
                    forall|k: int| 0 <= k < i ==> out@[k] == previous_color(input@, k),
                decreases size - i,
            {
                if input[i] != 0 {
                    color = input[i];
                }
                out.set(i, color);
                i += 1;
            }
        },
    }
    assert(out@ =~= spread_toward(input@, side));
    out
}

/// The cell in which the marker of a field of `size` cells lies: the
/// outermost cell on `side`.
pub open spec fn marker_cell(size: nat, side: Side) -> int {
    match side {
        Side::Left => 0,
        Side::Right => size - 1,
    }
}

/// A marker in the fifth color at one end of the field and some colored
/// cells; in the output each of them has spread its color toward the marker
/// up to the next colored cell.
pub open spec fn fill_until_collision_pair(size: nat, side: Side, pixels: Seq<Dot>) -> Pair {
    let input = dotted(blank(size).update(marker_cell(size, side), 5), pixels);
    Pair { input, output: spread_toward(input, side) }
}

/// The example with the marker at the end of the field on `side` and the
/// colored cells `pixels`.
pub fn fill_until_collision_from(size: usize, side: Side, pixels: &[Dot]) -> (e: Example)
    requires
        size >= 1,
        forall|k: int| 0 <= k < pixels@.len() ==> (#[trigger] pixels@[k]).pos < size,
    ensures
        e@ == fill_until_collision_pair(size as nat, side, pixels@),
{
    let mut field = gen_field(size);
    match side {
        Side::Left => {
            field.set(0, 5);
        },
        Side::Right => {
            field.set(size - 1, 5);
        },
    }
    let question = write_dots(pixels, field);
    let answer = spread(question.as_slice(), side);
    Example { input: question, output: answer }
}

/// Whether `pos` is one of `positions`.
pub fn is_taken(positions: &[usize], pos: usize) -> (taken: bool)
    ensures
        taken == positions@.contains(pos),
{
    let mut i: usize = 0;
    while i < positions.len()
        invariant
            i <= positions@.len(),
            forall|k: int| 0 <= k < i ==> positions@[k] != pos,
        decreases positions@.len() - i,
    {
        if positions[i] == pos {
            return true;
        }
        i += 1;
    }
    false
}

/// What [`task_fill_until_collision`] draws: two to four cells, none where
/// the marker lies, and for each a color other than the marker's, which is
/// the background where the draw came out so.
pub open spec fn fill_until_collision_draws(size: nat, side: Side, pixels: Seq<Dot>) -> bool {
    &&& 2 <= pixels.len() <= 4
    &&& forall|k: int|
        0 <= k < pixels.len() ==> (#[trigger] pixels[k]).pos < size && pixels[k].pos
            != marker_cell(size, side) && pixels[k].color <= COLORS && pixels[k].color != 5
}

/// What comes of the draws: nothing where a cell was drawn twice, and
/// nothing where a color came out as the background; else the example of
/// the marker and the cells.
pub open spec fn fill_until_collision_result(size: nat, side: Side, pixels: Seq<Dot>) -> Option<
    Pair,
> {
    if !dots_apart(pixels) || has_background(pixels) {
        None
    } else {
        Some(fill_until_collision_pair(size, side, pixels))
    }
}

/// What [`task_fill_until_collision`] can give on a field of `size` cells:
/// nothing on a field of less than four cells, else what comes of some
/// draws that it can make.
pub open spec fn fill_until_collision_outcome(size: nat, r: Option<Pair>) -> bool {
    &&& size < 4 ==> r is None
    &&& size >= 4 ==> exists|side: Side, pixels: Seq<Dot>|
        fill_until_collision_draws(size, side, pixels) && r
            == #[trigger] fill_until_collision_result(size, side, pixels)
    &&& r matches Some(p) ==> p.fits(size)
}

/// A marker at the left or the right end of the field and two to four cells
/// of other colors; each of them fills the empty cells on its marker side
/// with its color until it reaches another cell. Infeasible on a field of
/// less than four cells, where a cell was drawn twice, and where a color
/// came out as the background.
pub fn task_fill_until_collision(size: usize, rng: &mut StdRng) -> (r: Option<Example>)
    ensures
        fill_until_collision_outcome(size as nat, outcome(r)),
{
    if size < 4 {
        return None;
    }
    let side = if draw_ratio(rng, 1, 2) {
        Side::Left
    } else {
        Side::Right
    };
    let num_pixels = draw_through(rng, 2, 4);
    let mut positions: Vec<usize> = Vec::new();
    let mut i: usize = 0;
    while i < num_pixels
        invariant
            i <= num_pixels,
            2 <= num_pixels <= 4,
            size >= 4,
            positions@.len() == i,
            positions@.no_duplicates(),
            forall|k: int|
                0 <= k < i ==> #[trigger] positions@[k] < size && positions@[k] != marker_cell(
                    size as nat,
                    side,
                ),
        decreases num_pixels - i,
    {
        let pos = match side {
            Side::Left => draw_below(rng, 1, size),
            Side::Right => draw_below(rng, 0, size - 1),
        };
        if is_taken(positions.as_slice(), pos) {
            proof {
                let drawn = positions@;
                let pixels = Seq::new(
                    num_pixels as nat,
                    |k: int|
                        Dot {
                            pos: if k < i {
                                drawn[k]
                            } else {
                                pos
                            },
                            color: 1,
                        },
                );
                let j = choose|j: int| 0 <= j < drawn.len() && drawn[j] == pos;
                assert(pixels[j].pos == pixels[i as int].pos);
                assert(!dots_apart(pixels));
                assert(fill_until_collision_draws(size as nat, side, pixels));
                assert(fill_until_collision_result(size as nat, side, pixels) is None);
            }
            return None;
        }
        positions.push(pos);
        i += 1;
    }
    let mut pixels: Vec<Dot> = Vec::new();
    let mut i: usize = 0;
    while i < num_pixels
        invariant
            i <= num_pixels,
            2 <= num_pixels <= 4,
            positions@.len() == num_pixels,
            positions@.no_duplicates(),
            forall|k: int|
                0 <= k < num_pixels ==> #[trigger] positions@[k] < size && positions@[k]
                    != marker_cell(size as nat, side),
            pixels@.len() == i,
            forall|k: int|
                0 <= k < i ==> (#[trigger] pixels@[k]).pos == positions@[k] && 1
                    <= pixels@[k].color <= COLORS && pixels@[k].color != 5,
        decreases num_pixels - i,
    {
        let color = match permute_color_not_black(5, rng) {
            Some(c) => c,
            None => {
                proof {
                    let places = positions@;
                    let failed = Seq::new(
                        num_pixels as nat,
                        |k: int| Dot { pos: places[k], color: 0 },
                    );
                    assert(failed[0].color == 0);
                    assert(has_background(failed));
                    assert(fill_until_collision_draws(size as nat, side, failed));
                    assert(fill_until_collision_result(size as nat, side, failed) is None);
                }
                return None;
            },
        };
        pixels.push(Dot { pos: positions[i], color });
        i += 1;
    }
    let e = fill_until_collision_from(size, side, pixels.as_slice());
    proof {
        assert(fill_until_collision_draws(size as nat, side, pixels@));
        assert(dots_apart(pixels@));
        assert(!has_background(pixels@));
        assert(Some(e@) == fill_until_collision_result(size as nat, side, pixels@));
        assert(dots_fit(pixels@, size as nat));
        let marked = blank(size as nat).update(marker_cell(size as nat, side), 5);
        lemma_dotted_valid(marked, pixels@);
        lemma_spread_valid(dotted(marked, pixels@), side);
    }
    Some(e)
}

/// Spreading the colors of a grid of colors gives a grid of colors of the
/// same length.
pub proof fn lemma_spread_valid(input: Seq<u8>, side: Side)
    requires
        valid_grid(input),
    ensures
        valid_grid(spread_toward(input, side)),
        spread_toward(input, side).len() == input.len(),
{
    assert forall|i: int| 0 <= i < input.len() implies next_color(input, i) <= COLORS
        && previous_color(input, i) <= COLORS by {
        lemma_next_color_valid(input, i);
        lemma_previous_color_valid(input, i);
    }
}

/// The nearest color to the right is a color of the grid or the background.
proof fn lemma_next_color_valid(input: Seq<u8>, i: int)
    requires
        valid_grid(input),
    ensures
        next_color(input, i) <= COLORS,
    decreases input.len() - i,
{
    if 0 <= i < input.len() && input[i] == 0 {
        lemma_next_color_valid(input, i + 1);
    }
}

/// The nearest color to the left is a color of the grid or the background.
proof fn lemma_previous_color_valid(input: Seq<u8>, i: int)
    requires
        valid_grid(input),
    ensures
        previous_color(input, i) <= COLORS,
    decreases i + 1,
{
    if 0 <= i < input.len() && input[i] == 0 {
        lemma_previous_color_valid(input, i - 1);
    }
}

} // verus!
