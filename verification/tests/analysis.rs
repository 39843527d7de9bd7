use grid_puzzles::analysis::{
    calc_invariants, convert_to_palette, count_colors, count_non_background, empty_palette,
    example_invariants, get_background_mask, get_new_colors, is_subset_palette, or_palette,
    InvariantSummary,
};
use grid_puzzles::example::Example;
use grid_puzzles::harness::{generate_task, Combinator, Rule};
use rand::rngs::StdRng;
use rand::SeedableRng;

fn palette(colors: &[usize]) -> Vec<bool> {
    (0..10).map(|c| colors.contains(&c)).collect()
}

#[test]
fn mask_marks_the_background() {
    assert_eq!(get_background_mask(&[0, 3, 0], 0), vec![true, false, true]);
    assert_eq!(get_background_mask(&[0, 3, 0], 3), vec![false, true, false]);
    assert_eq!(get_background_mask(&[], 0), Vec::<bool>::new());
}

#[test]
fn unset_flags_are_counted() {
    assert_eq!(count_non_background(&[true, false, true]), 1);
    assert_eq!(count_non_background(&[false, false]), 2);
    assert_eq!(count_non_background(&[]), 0);
}

#[test]
fn colors_are_counted_by_their_number() {
    assert_eq!(count_colors(&[0, 1, 1, 9]), vec![1, 2, 0, 0, 0, 0, 0, 0, 0, 1]);
    assert_eq!(count_colors(&[]), vec![0; 10]);
}

#[test]
fn empty_palette_has_a_flag_for_each_color() {
    assert_eq!(empty_palette(), vec![false; 10]);
}

#[test]
fn palette_holds_the_colors_that_occur() {
    assert_eq!(convert_to_palette(&[0, 2, 0, 1]), vec![false, true, false, true]);
    assert_eq!(convert_to_palette(&[]), Vec::<bool>::new());
}

#[test]
fn or_palette_joins_two_palettes() {
    assert_eq!(
        or_palette(&[true, false, false, true], &[false, false, true, true]),
        vec![true, false, true, true]
    );
    assert_eq!(or_palette(&[true, false, true], &[false]), vec![true]);
}

#[test]
fn new_colors_are_those_that_were_not_there() {
    assert_eq!(
        get_new_colors(&[true, false, false, true], &[false, false, true, true]),
        vec![false, false, true, false]
    );
    assert_eq!(get_new_colors(&[false], &[true, true]), vec![true]);
}

#[test]
fn subset_palette_asks_for_every_color() {
    assert!(is_subset_palette(&[true, true, false], &[true, false, false]));
    assert!(!is_subset_palette(&[true, false, false], &[true, true, false]));
    assert!(is_subset_palette(&[false, false], &[false, false]));
    assert!(is_subset_palette(&[], &[true]));
    assert!(is_subset_palette(&[true], &[true, true]));
}

#[test]
fn unchanged_examples_keep_everything() {
    let examples = [
        Example { input: vec![0, 1, 2], output: vec![0, 1, 2] },
        Example { input: vec![4, 0, 4, 0], output: vec![4, 0, 4, 0] },
    ];
    let s = calc_invariants(&examples);
    assert_eq!(
        s,
        InvariantSummary {
            same_mask: true,
            same_count: true,
            same_colors: true,
            same_palette: true,
            palette_is_subset: true,
            output_palette: palette(&[1, 2, 4]),
            new_colors_palette: palette(&[]),
        }
    );
}

#[test]
fn moved_block_keeps_all_but_the_mask() {
    let examples = [Example { input: vec![0, 4, 4, 0], output: vec![0, 0, 4, 4] }];
    let s = calc_invariants(&examples);
    assert!(!s.same_mask);
    assert!(s.same_count && s.same_colors && s.same_palette && s.palette_is_subset);
    assert_eq!(s.output_palette, palette(&[4]));
    assert_eq!(s.new_colors_palette, palette(&[]));
}

#[test]
fn swapped_colors_keep_palette_and_count_only() {
    let examples = [Example { input: vec![1, 1, 2], output: vec![1, 2, 2] }];
    let s = calc_invariants(&examples);
    assert!(s.same_mask && s.same_count && s.same_palette && s.palette_is_subset);
    assert!(!s.same_colors);
    assert_eq!(s.new_colors_palette, palette(&[]));
}

#[test]
fn recolored_block_keeps_mask_and_count() {
    let examples = [Example { input: vec![0, 3, 3], output: vec![0, 1, 1] }];
    let s = calc_invariants(&examples);
    assert!(s.same_mask && s.same_count);
    assert!(!s.same_colors && !s.same_palette && !s.palette_is_subset);
    assert_eq!(s.output_palette, palette(&[1]));
    assert_eq!(s.new_colors_palette, palette(&[1]));
}

#[test]
fn added_color_leaves_the_input_palette_a_subset() {
    let examples = [Example { input: vec![0, 2, 0], output: vec![2, 2, 3] }];
    let s = calc_invariants(&examples);
    assert!(s.palette_is_subset);
    assert!(!s.same_palette && !s.same_mask && !s.same_count && !s.same_colors);
    assert_eq!(s.output_palette, palette(&[2, 3]));
    assert_eq!(s.new_colors_palette, palette(&[3]));
}

#[test]
fn lost_color_breaks_the_subset() {
    let examples = [Example { input: vec![2, 3, 0], output: vec![2, 2, 0] }];
    let s = calc_invariants(&examples);
    assert!(!s.palette_is_subset && !s.same_palette);
    assert!(s.same_mask && s.same_count);
    assert_eq!(s.new_colors_palette, palette(&[]));
}

#[test]
fn one_example_can_break_a_relation() {
    let examples = [
        Example { input: vec![0, 1, 2], output: vec![0, 1, 2] },
        Example { input: vec![0, 3, 3], output: vec![7, 0, 0] },
        Example { input: vec![5], output: vec![5] },
    ];
    let s = calc_invariants(&examples);
    assert!(!s.same_mask && !s.same_count && !s.same_colors && !s.same_palette);
    assert!(!s.palette_is_subset);
    assert_eq!(s.output_palette, palette(&[1, 2, 5, 7]));
    assert_eq!(s.new_colors_palette, palette(&[7]));
}

#[test]
fn empty_task_keeps_everything() {
    let s = calc_invariants(&[]);
    assert!(s.same_mask && s.same_count && s.same_colors && s.same_palette);
    assert!(s.palette_is_subset);
    assert_eq!(s.output_palette, palette(&[]));
    assert_eq!(s.new_colors_palette, palette(&[]));
}

#[test]
fn grids_of_different_length_have_different_masks() {
    let examples = [Example { input: vec![1, 0], output: vec![1, 0, 0] }];
    let s = calc_invariants(&examples);
    assert!(!s.same_mask);
    assert!(s.same_count && s.same_colors && s.same_palette && s.palette_is_subset);
}

#[test]
fn summary_of_one_example() {
    let s = example_invariants(&Example { input: vec![0, 2, 0], output: vec![2, 2, 3] });
    assert!(s.palette_is_subset && !s.same_palette);
    assert_eq!(s.output_palette, palette(&[2, 3]));
    assert_eq!(s.new_colors_palette, palette(&[3]));
}

#[test]
fn shifted_task_keeps_colors_and_count() {
    let mut rng = StdRng::seed_from_u64(109);
    let rule = Rule::MoveNPix { move_pix: 2, solid: false };
    let examples = generate_task(&mut rng, rule, Combinator::Identity, 40);
    assert_eq!(examples.len(), 40);
    let s = calc_invariants(&examples);
    assert!(!s.same_mask);
    assert!(s.same_count && s.same_colors && s.same_palette && s.palette_is_subset);
    assert_eq!(s.new_colors_palette, palette(&[]));
    assert!(!s.output_palette[0]);
}

#[test]
fn counting_task_brings_in_the_first_color() {
    let mut rng = StdRng::seed_from_u64(113);
    let examples = generate_task(&mut rng, Rule::GravityCounting, Combinator::Identity, 40);
    let s = calc_invariants(&examples);
    assert!(s.same_count);
    assert!(!s.same_colors && !s.same_palette);
    assert_eq!(s.output_palette, palette(&[1]));
    assert_eq!(s.new_colors_palette, palette(&[1]));
}
