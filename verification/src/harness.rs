//! The generation harness: it runs one rule again and again under a budget
//! of attempts and collects the distinct examples that come out.

use crate::blocks::{lemma_order, random_order};
use crate::example::{
    lemma_inverse_fits, lemma_mirror_fits, outcome, task_identity, task_inverse, task_mirror,
    Example, Pair,
};
use crate::gravity::{
    change_to_five_outcome, gravity_antigravity_outcome, gravity_counting_outcome,
    gravity_one_step_outcome, gravity_outcome, gravity_weighted_colors_outcome, task_change_to_five,
    task_gravity, task_gravity_antigravity, task_gravity_counting, task_gravity_one_step,
    task_gravity_weighted_colors,
};
use crate::marks::{
    color_left_half_blocks_outcome, mark_size_two_blocks_outcome, task_color_left_half_blocks,
    task_mark_size_two_blocks,
};
use crate::noise::{
    block_and_noise_remove_inside_outcome, block_and_noise_remove_outcome,
    task_block_and_noise_remove, task_block_and_noise_remove_inside,
};
use crate::order::{
    paint_biggest_block_outcome, recolor_blocks_by_size_outcome, sort_blocks_by_size_outcome,
    sort_complete_sequence_outcome, task_paint_biggest_block, task_recolor_blocks_by_size,
    task_sort_blocks_by_size, task_sort_complete_sequence,
};
use crate::palette::{
    copy_block_to_dots_colors_outcome, copy_block_to_dots_outcome,
    recolor_blocks_from_palette_outcome, repeat_pattern_full_outcome, task_copy_block_to_dots,
    task_copy_block_to_dots_colors, task_recolor_blocks_from_palette, task_repeat_pattern_full,
};
use crate::propagate::{
    duplicate_block_from_seeds_outcome, fill_from_pixel_outcome, fill_until_collision_outcome,
    task_duplicate_block_from_seeds, task_fill_from_pixel, task_fill_until_collision,
    task_two_points_and_fill, two_points_and_fill_outcome,
};
use crate::random::draw_below;
use crate::reflect::{
    reflect_block_around_dot_outcome, reflect_block_with_border_pixel_outcome,
    reflect_block_with_border_pixel_random_outcome, task_reflect_block_around_dot,
    task_reflect_block_with_border_pixel, task_reflect_block_with_border_pixel_random,
};
use crate::shift::{
    move_block_by_own_size_outcome, move_n_pix_outcome, move_n_pix_wrapped_outcome,
    task_move_block_by_own_size, task_move_n_pix, task_move_n_pix_wrapped,
};
use crate::touch::{
    block_scale_to_dot_outcome, block_touch_dot_n_pix_outcome, block_touch_dot_outcome,
    task_block_scale_to_dot, task_block_touch_dot, task_block_touch_dot_n_pix,
};
use rand::rngs::StdRng;
use vstd::prelude::*;

verus! {

/// The smallest field that the harness asks a rule for.
pub const MIN_SIZE: usize = 5;

/// The field sizes that the harness asks a rule for end before this one.
pub const END_SIZE: usize = 30;

/// The rules of the catalog, each with what it takes besides the size of
/// the field.
#[derive(Clone, Copy, Debug, PartialEq, Eq, Hash)]
pub enum Rule {
    MoveNPix { move_pix: usize, solid: bool },
    MoveNPixWrapped { move_pix: usize, solid: bool },
    MoveBlockByOwnSize,
    Gravity,
    GravityCounting,
    GravityAntigravity,
    GravityOneStep,
    GravityWeightedColors,
    ChangeToFive,
    BlockTouchDot,
    BlockTouchDotNPix { move_pix: usize },
    BlockScaleToDot,
    TwoPointsAndFill,
    FillFromPixel,
    FillUntilCollision,
    DuplicateBlockFromSeeds,
    ReflectBlockWithBorderPixel,
    ReflectBlockWithBorderPixelRandom,
    ReflectBlockAroundDot,
    BlockAndNoiseRemove,
    BlockAndNoiseRemoveInside,
    CopyBlockToDots,
    CopyBlockToDotsColors,
    RecolorBlocksFromPalette,
    RepeatPatternFull,
    PaintBiggestBlock,
    SortBlocksBySize,
    SortCompleteSequence,
    RecolorBlocksBySize,
    MarkSizeTwoBlocks,
    ColorLeftHalfBlocks,
}

/// What is done to the example that a rule generated.
#[derive(Clone, Copy, Debug, PartialEq, Eq, Hash)]
pub enum Combinator {
    Identity,
    Mirror,
    Inverse,
}

impl Combinator {
    /// The pair that the combinator makes of `p`.
    pub open spec fn applied(self, p: Pair) -> Pair {
        match self {
            Combinator::Identity => p,
            Combinator::Mirror => p.mirrored(),
            Combinator::Inverse => p.inverted(),
        }
    }

    /// Applies the combinator to the outcome of a rule; an infeasible
    /// outcome stays infeasible.
    pub fn apply(self, example: Option<Example>) -> (r: Option<Example>)
        ensures
            outcome(r) == (match outcome(example) {
                Some(p) => Some(self.applied(p)),
                None => None,
            }),
    {
        match self {
            Combinator::Identity => task_identity(example),
            Combinator::Mirror => task_mirror(example),
            Combinator::Inverse => task_inverse(example),
        }
    }
}

impl Rule {
    /// Whether the rule can be asked for a field of `size` cells: the field
    /// has two cells at least, and the machine can count as far as the rule
    /// has to.
    pub open spec fn admits(self, size: nat) -> bool {
        &&& 2 <= size < usize::MAX
        &&& self matches Rule::MoveNPixWrapped { move_pix, .. } ==> size + size + move_pix
            <= usize::MAX
    }

    /// Whether the rule can be asked for every field size of the harness.
    pub open spec fn usable(self) -> bool {
        self matches Rule::MoveNPixWrapped { move_pix, .. } ==> END_SIZE + END_SIZE + move_pix
            <= usize::MAX
    }

    /// Whether `r` is an outcome that the rule can have on a field of
    /// `size` cells: what the rule's own function says of its result.
    pub open spec fn yields(self, size: nat, r: Option<Pair>) -> bool {
        match self {
            Rule::MoveNPix { move_pix, solid } => move_n_pix_outcome(
                size,
                move_pix as nat,
                solid,
                r,
            ),
            Rule::MoveNPixWrapped { move_pix, solid } => move_n_pix_wrapped_outcome(
                size,
                move_pix as nat,
                solid,
                r,
            ),
            Rule::MoveBlockByOwnSize => move_block_by_own_size_outcome(size, r),
            Rule::Gravity => gravity_outcome(size, r),
            Rule::GravityCounting => gravity_counting_outcome(size, r),
            Rule::GravityAntigravity => gravity_antigravity_outcome(size, r),
            Rule::GravityOneStep => gravity_one_step_outcome(size, r),
            Rule::GravityWeightedColors => gravity_weighted_colors_outcome(size, r),
            Rule::ChangeToFive => change_to_five_outcome(size, r),
            Rule::BlockTouchDot => block_touch_dot_outcome(size, r),
            Rule::BlockTouchDotNPix { move_pix } => block_touch_dot_n_pix_outcome(
                size,
                move_pix as nat,
                r,
            ),
            Rule::BlockScaleToDot => block_scale_to_dot_outcome(size, r),
            Rule::TwoPointsAndFill => two_points_and_fill_outcome(size, r),
            Rule::FillFromPixel => fill_from_pixel_outcome(size, r),
            Rule::FillUntilCollision => fill_until_collision_outcome(size, r),
            Rule::DuplicateBlockFromSeeds => duplicate_block_from_seeds_outcome(size, r),
            Rule::ReflectBlockWithBorderPixel => reflect_block_with_border_pixel_outcome(size, r),
            Rule::ReflectBlockWithBorderPixelRandom => {
                reflect_block_with_border_pixel_random_outcome(size, r)
            },
            Rule::ReflectBlockAroundDot => reflect_block_around_dot_outcome(size, r),
            Rule::BlockAndNoiseRemove => block_and_noise_remove_outcome(size, r),
            Rule::BlockAndNoiseRemoveInside => block_and_noise_remove_inside_outcome(size, r),
            Rule::CopyBlockToDots => copy_block_to_dots_outcome(size, r),
            Rule::CopyBlockToDotsColors => copy_block_to_dots_colors_outcome(size, r),
            Rule::RecolorBlocksFromPalette => recolor_blocks_from_palette_outcome(size, r),
            Rule::RepeatPatternFull => repeat_pattern_full_outcome(size, r),
            Rule::PaintBiggestBlock => paint_biggest_block_outcome(size, r),
            Rule::SortBlocksBySize => sort_blocks_by_size_outcome(size, r),
            Rule::SortCompleteSequence => sort_complete_sequence_outcome(size, r),
            Rule::RecolorBlocksBySize => recolor_blocks_by_size_outcome(size, r),
            Rule::MarkSizeTwoBlocks => mark_size_two_blocks_outcome(size, r),
            Rule::ColorLeftHalfBlocks => color_left_half_blocks_outcome(size, r),
        }
    }

    /// Whether the rule can generate a pair, on a field of one of the sizes
    /// of the harness, of which `combinator` makes `p`.
    pub open spec fn makes(self, combinator: Combinator, p: Pair) -> bool {
        exists|size: nat, q: Pair|
            MIN_SIZE <= size < END_SIZE && #[trigger] self.yields(size, Some(q)) && p
                == combinator.applied(q)
    }

    /// Whether the rule gives an example on every field of `size` cells,
    /// whatever it draws.
    pub open spec fn certain(self, size: nat) -> bool {
        match self {
            Rule::MoveNPix { move_pix, .. } => size > move_pix + 1,
            Rule::MoveNPixWrapped { .. } => true,
            Rule::MoveBlockByOwnSize => true,
            Rule::Gravity => true,
            Rule::GravityCounting => true,
            Rule::GravityAntigravity => true,
            Rule::GravityOneStep => true,
            Rule::GravityWeightedColors => true,
            Rule::ChangeToFive => true,
            Rule::SortCompleteSequence => size >= 2,
            Rule::RepeatPatternFull => size > 10,
            _ => false,
        }
    }

    /// Whether the rule gives an example on a field of every size of the
    /// harness, whatever it draws.
    pub open spec fn never_fails(self) -> bool {
        forall|size: nat| MIN_SIZE <= size < END_SIZE ==> #[trigger] self.certain(size)
    }

    /// One attempt of the rule at a field of `size` cells.
    pub fn run(self, size: usize, rng: &mut StdRng) -> (r: Option<Example>)
        requires
            self.admits(size as nat),
        ensures
            self.yields(size as nat, outcome(r)),
            self.certain(size as nat) ==> r is Some,
            r matches Some(e) ==> e@.fits(size as nat),
    {
        match self {
            Rule::MoveNPix { move_pix, solid } => task_move_n_pix(size, move_pix, solid, rng),
            Rule::MoveNPixWrapped { move_pix, solid } => task_move_n_pix_wrapped(
                size,
                move_pix,
                solid,
                rng,
            ),
            Rule::MoveBlockByOwnSize => task_move_block_by_own_size(size, rng),
            Rule::Gravity => task_gravity(size, rng),
            Rule::GravityCounting => task_gravity_counting(size, rng),
            Rule::GravityAntigravity => task_gravity_antigravity(size, rng),
            Rule::GravityOneStep => task_gravity_one_step(size, rng),
            Rule::GravityWeightedColors => task_gravity_weighted_colors(size, rng),
            Rule::ChangeToFive => task_change_to_five(size, rng),
            Rule::BlockTouchDot => task_block_touch_dot(size, rng),
            Rule::BlockTouchDotNPix { move_pix } => task_block_touch_dot_n_pix(
                size,
                move_pix,
                rng,
            ),
            Rule::BlockScaleToDot => task_block_scale_to_dot(size, rng),
            Rule::TwoPointsAndFill => task_two_points_and_fill(size, rng),
            Rule::FillFromPixel => task_fill_from_pixel(size, rng),
            Rule::FillUntilCollision => task_fill_until_collision(size, rng),
            Rule::DuplicateBlockFromSeeds => task_duplicate_block_from_seeds(size, rng),
            Rule::ReflectBlockWithBorderPixel => task_reflect_block_with_border_pixel(size, rng),
            Rule::ReflectBlockWithBorderPixelRandom => task_reflect_block_with_border_pixel_random(
                size,
                rng,
            ),
            Rule::ReflectBlockAroundDot => task_reflect_block_around_dot(size, rng),
            Rule::BlockAndNoiseRemove => task_block_and_noise_remove(size, rng),
            Rule::BlockAndNoiseRemoveInside => task_block_and_noise_remove_inside(size, rng),
            Rule::CopyBlockToDots => task_copy_block_to_dots(size, rng),
            Rule::CopyBlockToDotsColors => task_copy_block_to_dots_colors(size, rng),
            Rule::RecolorBlocksFromPalette => task_recolor_blocks_from_palette(size, rng),
            Rule::RepeatPatternFull => task_repeat_pattern_full(size, rng),
            Rule::PaintBiggestBlock => task_paint_biggest_block(size, rng),
            Rule::SortBlocksBySize => task_sort_blocks_by_size(size, rng),
            Rule::SortCompleteSequence => task_sort_complete_sequence(size, rng),
            Rule::RecolorBlocksBySize => task_recolor_blocks_by_size(size, rng),
            Rule::MarkSizeTwoBlocks => task_mark_size_two_blocks(size, rng),
            Rule::ColorLeftHalfBlocks => task_color_left_half_blocks(size, rng),
        }
    }
}

/// No two of the examples hold the same cells.
pub open spec fn distinct(examples: Seq<Example>) -> bool {
    forall|j: int, k: int|
        0 <= j < k < examples.len() ==> (#[trigger] examples[j])@ != (#[trigger] examples[k])@
}

/// Whether one of the examples holds the cells of `p`.
pub open spec fn holds(examples: Seq<Example>, p: Pair) -> bool {
    exists|k: int| 0 <= k < examples.len() && (#[trigger] examples[k])@ == p
}

/// Every example is of one of the field sizes of the harness, both grids
/// of that size and of colors of the alphabet.
pub open spec fn sized(examples: Seq<Example>) -> bool {
    forall|k: int|
        0 <= k < examples.len() ==> MIN_SIZE <= (#[trigger] examples[k])@.input.len() < END_SIZE
            && examples[k]@.fits(examples[k]@.input.len())
}

/// Whether one of `examples` holds the same cells as `example`.
pub fn contains_example(examples: &[Example], example: &Example) -> (found: bool)
    ensures
        found == holds(examples@, example@),
{
    let mut i: usize = 0;
    while i < examples.len()
        invariant
            i <= examples@.len(),
            forall|k: int| 0 <= k < i ==> (#[trigger] examples@[k])@ != example@,
        decreases examples@.len() - i,
    {
        if examples[i].same_as(example) {
            return true;
        }
        i += 1;
    }
    false
}

/// The pairs of the examples, in their order.
pub open spec fn pairs(examples: Seq<Example>) -> Seq<Pair> {
    Seq::new(examples.len(), |k: int| examples[k]@)
}

/// The distinct pairs among the outcomes of some attempts, each at the
/// place of the first attempt that gave it.
pub open spec fn gathered(outcomes: Seq<Option<Pair>>) -> Seq<Pair>
    decreases outcomes.len(),
{
    if outcomes.len() == 0 {
        Seq::empty()
    } else {
        let before = gathered(outcomes.drop_last());
        match outcomes.last() {
            Some(p) if !before.contains(p) => before.push(p),
            _ => before,
        }
    }
}

/// Whether `outcomes` are the outcomes of all attempts of a harness for
/// `target` examples: each attempt was made while fewer than `target`
/// distinct examples had come of the attempts before it, at most twice
/// `target` attempts were made, and after the last of them either `target`
/// distinct examples had come or the budget of attempts was used up.
pub open spec fn attempts_of(target: nat, outcomes: Seq<Option<Pair>>) -> bool {
    &&& outcomes.len() <= 2 * target
    &&& forall|j: int|
        0 <= j < outcomes.len() ==> (#[trigger] gathered(outcomes.take(j))).len() < target
    &&& gathered(outcomes).len() == target || outcomes.len() == 2 * target
}

/// Once the attempts of a harness have given as many distinct examples as
/// were asked for, no attempt follows: the attempt that brought the last of
/// them is the last attempt.
pub proof fn lemma_stops_at_target(target: nat, outcomes: Seq<Option<Pair>>, k: int)
    requires
        attempts_of(target, outcomes),
        0 <= k <= outcomes.len(),
        gathered(outcomes.take(k)).len() >= target,
    ensures
        k == outcomes.len(),
        gathered(outcomes).len() == target,
{
    if k < outcomes.len() {
        assert(gathered(outcomes.take(k)).len() < target);
    }
    assert(outcomes.take(outcomes.len() as int) == outcomes);
    lemma_gathered_within(target, outcomes);
}

/// The attempts of a harness give no more distinct examples than were asked
/// for.
pub proof fn lemma_gathered_within(target: nat, outcomes: Seq<Option<Pair>>)
    requires
        attempts_of(target, outcomes),
    ensures
        gathered(outcomes).len() <= target,
{
    if outcomes.len() > 0 {
        let before = outcomes.drop_last();
        assert(before == outcomes.take(outcomes.len() - 1));
        assert(gathered(outcomes.take(outcomes.len() - 1)).len() < target);
    }
}

/// The collection of one task while it is generated: the distinct examples
/// found so far, the number of examples asked for, the attempts made, and
/// what each of these attempts gave.
pub struct Harness {
    pub examples: Vec<Example>,
    pub target: usize,
    pub attempts: usize,
    pub outcomes: Ghost<Seq<Option<Pair>>>,
}

impl Harness {
    /// The examples are the distinct examples that the attempts gave, in
    /// the order in which they first came, and no more than were asked for;
    /// each attempt was made while examples were still wanting; and the
    /// attempts are within the budget of two for each example asked for.
    pub open spec fn well_formed(&self) -> bool {
        &&& distinct(self.examples@)
        &&& self.examples@.len() <= self.target
        &&& self.examples@.len() <= self.attempts <= 2 * self.target
        &&& 2 * self.target <= usize::MAX
        &&& self.outcomes@.len() == self.attempts
        &&& pairs(self.examples@) == gathered(self.outcomes@)
        &&& forall|j: int|
            0 <= j < self.outcomes@.len() ==> (#[trigger] gathered(self.outcomes@.take(j))).len()
                < self.target
    }

    /// Whether another attempt is due: the budget is not used up and the
    /// examples asked for are not all found.
    pub open spec fn unfinished(&self) -> bool {
        self.attempts < 2 * self.target && self.examples@.len() < self.target
    }

    /// A harness for `target` examples, with nothing found and no attempt
    /// made.
    pub fn new(target: usize) -> (h: Harness)
        requires
            2 * target <= usize::MAX,
        ensures
            h.well_formed(),
            h.examples@.len() == 0,
            h.target == target,
            h.attempts == 0,
            h.outcomes@.len() == 0,
    {
        let h = Harness {
            examples: Vec::new(),
            target,
            attempts: 0,
            outcomes: Ghost(Seq::empty()),
        };
        assert(pairs(h.examples@) =~= gathered(h.outcomes@));
        h
    }

    /// Whether another attempt is due.
    pub fn wants_more(&self) -> (more: bool)
        requires
            self.well_formed(),
        ensures
            more == self.unfinished(),
    {
        self.attempts < 2 * self.target && self.examples.len() < self.target
    }

    /// Counts one attempt and takes in what it gave: an example that is
    /// not held yet is added at the end, an infeasible outcome or an example
    /// that is held already changes nothing else.
    pub fn offer(&mut self, found: Option<Example>)
        requires
            old(self).well_formed(),
            old(self).unfinished(),
        ensures
            final(self).well_formed(),
            final(self).target == old(self).target,
            final(self).attempts == old(self).attempts + 1,
            final(self).outcomes@ == old(self).outcomes@.push(outcome(found)),
            final(self).examples@ == (match found {
                Some(e) if !holds(old(self).examples@, e@) => old(self).examples@.push(e),
                _ => old(self).examples@,
            }),
    {
        let ghost offered = outcome(found);
        let ghost tried = self.outcomes@;
        let ghost held = self.examples@;
        proof {
            lemma_gathered_next(tried, offered);
            assert forall|j: int| 0 <= j < tried.len() + 1 implies (#[trigger] gathered(
                tried.push(offered).take(j),
            )).len() < self.target by {
                if j < tried.len() {
                    assert(tried.push(offered).take(j) == tried.take(j));
                } else {
                    assert(tried.push(offered).take(j) == tried);
                }
            }
            if let Some(p) = offered {
                if holds(held, p) {
                    let k = choose|k: int| 0 <= k < held.len() && (#[trigger] held[k])@ == p;
                    assert(pairs(held)[k] == p);
                }
                if pairs(held).contains(p) {
                    let k = choose|k: int| 0 <= k < pairs(held).len() && pairs(held)[k] == p;
                    assert(held[k]@ == p);
                }
            }
        }
        self.attempts = self.attempts + 1;
        self.outcomes = Ghost(tried.push(offered));
        match found {
            Some(e) => {
                if !contains_example(self.examples.as_slice(), &e) {
                    self.examples.push(e);
                    proof {
                        assert forall|j: int, k: int|
                            0 <= j < k < self.examples@.len() implies (
                        #[trigger] self.examples@[j])@ != (#[trigger] self.examples@[k])@ by {
                            assert(self.examples@[j] == held[j]);
                            if k < held.len() {
                                assert(self.examples@[k] == held[k]);
                            }
                        }
                        assert(pairs(self.examples@) =~= pairs(held).push(e@));
                    }
                }
            },
            None => {},
        }
    }
}

/// One attempt more adds what it gave to the distinct pairs, unless it gave
/// nothing or a pair that had come before.
pub proof fn lemma_gathered_next(outcomes: Seq<Option<Pair>>, next: Option<Pair>)
    ensures
        gathered(outcomes.push(next)) == (match next {
            Some(p) if !gathered(outcomes).contains(p) => gathered(outcomes).push(p),
            _ => gathered(outcomes),
        }),
{
    assert(outcomes.push(next).drop_last() == outcomes);
}

/// The examples in the order that `order` names: first the one at the
/// place `order[0]`, and so on.
pub fn arrange(examples: &[Example], order: &[usize]) -> (out: Vec<Example>)
    requires
        forall|i: int| 0 <= i < order@.len() ==> #[trigger] order@[i] < examples@.len(),
    ensures
        out@.len() == order@.len(),
        forall|i: int|
            0 <= i < order@.len() ==> (#[trigger] out@[i])@ == examples@[order@[i] as int]@,
{
    let mut out: Vec<Example> = Vec::new();
    let mut i: usize = 0;
    while i < order.len()
        invariant
            i <= order@.len(),
            forall|i: int| 0 <= i < order@.len() ==> #[trigger] order@[i] < examples@.len(),
            out@.len() == i,
            forall|k: int| 0 <= k < i ==> (#[trigger] out@[k])@ == examples@[order@[k] as int]@,
        decreases order@.len() - i,
    {
        out.push(examples[order[i]].duplicate());
        i += 1;
    }
    out
}

/// Runs `rule` under the budget of a harness for `count` examples: as long
/// as the harness wants more, it draws the size of a field, asks the rule
/// for an example on it, puts the outcome through `combinator` and offers it
/// to the harness. It ends as soon as `count` distinct examples are found,
/// and after twice `count` attempts at the latest.
pub fn collect(rng: &mut StdRng, rule: Rule, combinator: Combinator, count: usize) -> (harness:
    Harness)
    requires
        2 * count <= usize::MAX,
        rule.usable(),
    ensures
        harness.well_formed(),
        harness.target == count,
        !harness.unfinished(),
        attempts_of(count as nat, harness.outcomes@),
        forall|j: int|
            0 <= j < harness.outcomes@.len() ==> (#[trigger] harness.outcomes@[j] matches Some(p)
                ==> rule.makes(combinator, p)),
        count >= 1 ==> harness.attempts >= 1,
        count >= 1 && rule.never_fails() ==> harness.examples@.len() >= 1,
        sized(harness.examples@),
        forall|k: int|
            0 <= k < harness.examples@.len() ==> rule.makes(
                combinator,
                (#[trigger] harness.examples@[k])@,
            ),
{
    let mut harness = Harness::new(count);
    while harness.wants_more()
        invariant
            harness.well_formed(),
            harness.target == count,
            rule.usable(),
            harness.attempts >= 1 && rule.never_fails() ==> harness.examples@.len() >= 1,
            forall|j: int|
                0 <= j < harness.outcomes@.len() ==> (
                #[trigger] harness.outcomes@[j] matches Some(p) ==> rule.makes(combinator, p)),
            sized(harness.examples@),
            forall|k: int|
                0 <= k < harness.examples@.len() ==> rule.makes(
                    combinator,
                    (#[trigger] harness.examples@[k])@,
                ),
        decreases 2 * harness.target - harness.attempts,
    {
        let size = draw_below(rng, MIN_SIZE, END_SIZE);
        let made = rule.run(size, rng);
        let ghost drawn = outcome(made);
        let found = combinator.apply(made);
        proof {
            if rule.never_fails() {
                assert(rule.certain(size as nat));
                assert(found is Some);
            }
            if let Some(p) = drawn {
                lemma_mirror_fits(p, size as nat);
                lemma_inverse_fits(p, size as nat);
                assert(rule.yields(size as nat, Some(p)));
                assert(rule.makes(combinator, combinator.applied(p)));
            }
        }
        let ghost before = harness.examples@;
        let ghost tried = harness.outcomes@;
        harness.offer(found);
        proof {
            assert forall|j: int| 0 <= j < harness.outcomes@.len() implies (
            #[trigger] harness.outcomes@[j] matches Some(p) ==> rule.makes(combinator, p)) by {
                if j < tried.len() {
                    assert(harness.outcomes@[j] == tried[j]);
                }
            }
            assert forall|k: int| 0 <= k < harness.examples@.len() implies MIN_SIZE <= (
            #[trigger] harness.examples@[k])@.input.len() < END_SIZE && harness.examples@[k]@.fits(
                harness.examples@[k]@.input.len(),
            ) && rule.makes(combinator, harness.examples@[k]@) by {
                if k < before.len() {
                    assert(harness.examples@[k] == before[k]);
                }
            }
        }
    }
    proof {
        assert(pairs(harness.examples@).len() == harness.examples@.len());
    }
    harness
}

/// Whether `examples` are the distinct examples that came of the attempts
/// with the `outcomes`, in some order.
pub open spec fn comes_of(examples: Seq<Example>, outcomes: Seq<Option<Pair>>) -> bool {
    &&& distinct(examples)
    &&& examples.len() == gathered(outcomes).len()
    &&& forall|k: int|
        0 <= k < examples.len() ==> gathered(outcomes).contains((#[trigger] examples[k])@)
}

/// Up to `count` distinct examples of `rule`, each put through
/// `combinator`, in a random order. The rule is asked at most twice `count`
/// times, each time for a field of a size drawn anew, and no more once
/// `count` distinct examples are found; what it found until then is all
/// that comes back. Of a rule that never fails one example at least comes
/// back, if any is asked for.
pub fn generate_task(
    rng: &mut StdRng,
    rule: Rule,
    combinator: Combinator,
    count: usize,
) -> (examples: Vec<Example>)
    requires
        2 * count <= usize::MAX,
        rule.usable(),
    ensures
        examples@.len() <= count,
        count >= 1 && rule.never_fails() ==> examples@.len() >= 1,
        distinct(examples@),
        sized(examples@),
        forall|k: int|
            0 <= k < examples@.len() ==> rule.makes(combinator, (#[trigger] examples@[k])@),
        exists|outcomes: Seq<Option<Pair>>|
            #[trigger] attempts_of(count as nat, outcomes) && comes_of(examples@, outcomes),
{
    let harness = collect(rng, rule, combinator, count);
    let order = random_order(harness.examples.len(), rng);
    proof {
        lemma_order(order@);
    }
    let examples = arrange(harness.examples.as_slice(), order.as_slice());
    proof {
        assert forall|j: int, k: int| 0 <= j < k < examples@.len() implies (
        #[trigger] examples@[j])@ != (#[trigger] examples@[k])@ by {
            assert(order@[j] != order@[k]);
            let a = order@[j] as int;
            let b = order@[k] as int;
            if a < b {
                assert(harness.examples@[a]@ != harness.examples@[b]@);
            } else {
                assert(harness.examples@[b]@ != harness.examples@[a]@);
            }
        }
        assert forall|k: int| 0 <= k < examples@.len() implies MIN_SIZE <= (
        #[trigger] examples@[k])@.input.len() < END_SIZE && examples@[k]@.fits(
            examples@[k]@.input.len(),
        ) && rule.makes(combinator, examples@[k]@) && gathered(harness.outcomes@).contains(
            examples@[k]@,
        ) by {
            let a = order@[k] as int;
            assert(MIN_SIZE <= harness.examples@[a]@.input.len() < END_SIZE);
            assert(rule.makes(combinator, harness.examples@[a]@));
            assert(pairs(harness.examples@)[a] == examples@[k]@);
        }
        assert(pairs(harness.examples@).len() == harness.examples@.len());
        assert(attempts_of(count as nat, harness.outcomes@));
        assert(comes_of(examples@, harness.outcomes@));
    }
    examples
}

/// One puzzle family: its name and its examples.
pub struct Task {
    pub name: String,
    pub examples: Vec<Example>,
}

impl Task {
    /// No two examples hold the same cells, and in each example the output
    /// is as long as the input.
    pub open spec fn well_formed(&self) -> bool {
        &&& distinct(self.examples@)
        &&& forall|k: int|
            0 <= k < self.examples@.len() ==> (#[trigger] self.examples@[k])@.input.len()
                == self.examples@[k]@.output.len()
    }

    /// The task `name` of up to `count` examples of `rule` put through
    /// `combinator`.
    pub fn generate(
        name: String,
        rng: &mut StdRng,
        rule: Rule,
        combinator: Combinator,
        count: usize,
    ) -> (task: Task)
        requires
            2 * count <= usize::MAX,
            rule.usable(),
        ensures
            task.name == name,
            task.well_formed(),
            task.examples@.len() <= count,
            count >= 1 && rule.never_fails() ==> task.examples@.len() >= 1,
            exists|outcomes: Seq<Option<Pair>>|
                #[trigger] attempts_of(count as nat, outcomes) && comes_of(
                    task.examples@,
                    outcomes,
                ),
            sized(task.examples@),
            forall|k: int|
                0 <= k < task.examples@.len() ==> rule.makes(
                    combinator,
                    (#[trigger] task.examples@[k])@,
                ),
    {
        Task { name, examples: generate_task(rng, rule, combinator, count) }
    }
}

} // verus!
