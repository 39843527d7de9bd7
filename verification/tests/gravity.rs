use grid_puzzles::gravity::{
    change_to_five_from, count_color, gravity_antigravity_from, gravity_counting_from,
    gravity_from, gravity_one_step_from, gravity_weighted_colors_from, task_change_to_five,
    task_gravity, task_gravity_antigravity, task_gravity_counting, task_gravity_one_step,
    task_gravity_weighted_colors,
};
use rand::rngs::StdRng;
use rand::SeedableRng;

#[test]
fn gravity_compacts_to_the_left() {
    let e = gravity_from(vec![0, 3, 0, 0, 5, 0]);
    assert_eq!(e.input, vec![0, 3, 0, 0, 5, 0]);
    assert_eq!(e.output, vec![3, 5, 0, 0, 0, 0]);
}

#[test]
fn gravity_leaves_a_full_and_an_empty_field() {
    assert_eq!(gravity_from(vec![1, 2, 3]).output, vec![1, 2, 3]);
    assert_eq!(gravity_from(vec![0, 0]).output, vec![0, 0]);
    assert_eq!(gravity_from(vec![]).output, Vec::<u8>::new());
}

#[test]
fn gravity_counting_shows_the_count_in_the_first_color() {
    let e = gravity_counting_from(vec![0, 3, 0, 0, 5, 0]);
    assert_eq!(e.input, vec![0, 3, 0, 0, 5, 0]);
    assert_eq!(e.output, vec![1, 1, 0, 0, 0, 0]);
}

#[test]
fn antigravity_parts_the_two_colors() {
    let e = gravity_antigravity_from(vec![2, 1, 0, 1, 2, 0]);
    assert_eq!(e.output, vec![1, 1, 0, 0, 2, 2]);
    assert_eq!(gravity_antigravity_from(vec![2, 2, 1]).output, vec![1, 2, 2]);
    assert_eq!(gravity_antigravity_from(vec![0, 0, 0]).output, vec![0, 0, 0]);
}

#[test]
fn one_step_moves_each_cell_one_place() {
    assert_eq!(gravity_one_step_from(vec![0, 3, 0, 0, 5, 0]).output, vec![3, 0, 0, 5, 0, 0]);
    assert_eq!(gravity_one_step_from(vec![1, 0, 2, 3, 0, 4]).output, vec![1, 2, 3, 0, 4, 0]);
}

#[test]
fn one_step_leaves_what_cannot_move() {
    assert_eq!(gravity_one_step_from(vec![1, 2, 3]).output, vec![1, 2, 3]);
    assert_eq!(gravity_one_step_from(vec![1, 2, 0]).output, vec![1, 2, 0]);
    assert_eq!(gravity_one_step_from(vec![0]).output, vec![0]);
    assert_eq!(gravity_one_step_from(vec![]).output, Vec::<u8>::new());
}

#[test]
fn change_to_five_recolors_every_colored_cell() {
    let e = change_to_five_from(vec![0, 3, 0, 9, 5]);
    assert_eq!(e.input, vec![0, 3, 0, 9, 5]);
    assert_eq!(e.output, vec![0, 5, 0, 5, 5]);
}

#[test]
fn heavier_color_comes_first() {
    let e = gravity_weighted_colors_from(vec![1, 0, 2, 2, 1, 0]);
    assert_eq!(e.output, vec![2, 2, 1, 1, 0, 0]);
    assert_eq!(gravity_weighted_colors_from(vec![1, 1]).output, vec![1, 1]);
    assert_eq!(gravity_weighted_colors_from(vec![1, 2]).output, vec![2, 1]);
}

#[test]
fn count_color_counts_one_color() {
    assert_eq!(count_color(&[1, 0, 2, 2, 1, 0], 2), 2);
    assert_eq!(count_color(&[1, 0, 2, 2, 1, 0], 0), 2);
    assert_eq!(count_color(&[1, 0, 2, 2, 1, 0], 7), 0);
}

#[test]
fn gravity_rules_keep_the_size_and_follow_their_input() {
    let mut rng = StdRng::seed_from_u64(11);
    for size in 0..40 {
        let e = task_gravity(size, &mut rng).unwrap();
        assert_eq!(e.input.len(), size);
        assert_eq!(e, gravity_from(e.input.clone()));
        let e = task_gravity_counting(size, &mut rng).unwrap();
        assert_eq!(e.output.len(), size);
        assert_eq!(e, gravity_counting_from(e.input.clone()));
        let e = task_gravity_antigravity(size, &mut rng).unwrap();
        assert!(e.input.iter().all(|&c| c <= 2));
        assert_eq!(e, gravity_antigravity_from(e.input.clone()));
        let e = task_gravity_one_step(size, &mut rng).unwrap();
        assert_eq!(e, gravity_one_step_from(e.input.clone()));
        let e = task_change_to_five(size, &mut rng).unwrap();
        assert_eq!(e, change_to_five_from(e.input.clone()));
        let e = task_gravity_weighted_colors(size, &mut rng).unwrap();
        assert!(e.input.iter().all(|&c| c <= 2));
        assert_eq!(e, gravity_weighted_colors_from(e.input.clone()));
    }
}

#[test]
fn sparse_fields_hold_background_and_colors() {
    let mut rng = StdRng::seed_from_u64(3);
    let e = task_gravity(200, &mut rng).unwrap();
    assert!(e.input.iter().any(|&c| c == 0));
    assert!(e.input.iter().any(|&c| c != 0));
    assert!(e.input.iter().all(|&c| c <= 9));
    let e = task_gravity_weighted_colors(200, &mut rng).unwrap();
    assert!(e.input.iter().any(|&c| c == 0));
    assert!(e.input.iter().any(|&c| c == 1));
    assert!(e.input.iter().any(|&c| c == 2));
}
