use grid_puzzles::example::Example;
use grid_puzzles::grid::{Dot, Side};
use grid_puzzles::propagate::{
    duplicate_block_from_seeds_from, fill_from_pixel_from, fill_until_collision_from, is_taken,
    spread, task_duplicate_block_from_seeds, task_fill_from_pixel, task_fill_until_collision,
    task_two_points_and_fill, two_points_and_fill_from,
};
use rand::rngs::StdRng;
use rand::SeedableRng;

#[test]
fn two_points_are_joined() {
    let e = two_points_and_fill_from(6, 2, 1, 4).unwrap();
    assert_eq!(e.input, vec![0, 2, 0, 0, 2, 0]);
    assert_eq!(e.output, vec![0, 2, 2, 2, 2, 0]);
    assert_eq!(two_points_and_fill_from(6, 2, 4, 1), Some(e));
}

#[test]
fn two_points_next_to_each_other() {
    let e = two_points_and_fill_from(3, 9, 0, 1).unwrap();
    assert_eq!(e.input, vec![9, 9, 0]);
    assert_eq!(e.output, vec![9, 9, 0]);
}

#[test]
fn one_point_twice_is_infeasible() {
    assert_eq!(two_points_and_fill_from(6, 2, 3, 3), None);
}

#[test]
fn two_points_rule_draws_inside_the_field() {
    let mut rng = StdRng::seed_from_u64(5);
    let mut found = 0;
    let mut infeasible = 0;
    for _ in 0..200 {
        match task_two_points_and_fill(6, &mut rng) {
            Some(e) => {
                found += 1;
                assert_eq!(e.input.len(), 6);
                assert_eq!(e.input.iter().filter(|&&c| c != 0).count(), 2);
                let first = e.input.iter().position(|&c| c != 0).unwrap();
                let last = e.input.iter().rposition(|&c| c != 0).unwrap();
                let color = e.input[first];
                assert!((1..=9).contains(&color));
                for i in 0..6 {
                    let inside = first <= i && i <= last;
                    assert_eq!(e.output[i], if inside { color } else { 0 });
                }
            }
            None => infeasible += 1,
        }
    }
    assert!(found > 0);
    assert!(infeasible > 0);
}

#[test]
fn seed_fills_its_side_of_the_field() {
    let e = fill_from_pixel_from(8, 2, 3, 4, 7, Side::Left);
    assert_eq!(e.input, vec![0, 7, 4, 4, 4, 0, 0, 0]);
    assert_eq!(e.output, vec![7, 7, 4, 4, 4, 0, 0, 0]);
    let e = fill_from_pixel_from(8, 2, 3, 4, 7, Side::Right);
    assert_eq!(e.input, vec![0, 0, 4, 4, 4, 7, 0, 0]);
    assert_eq!(e.output, vec![0, 0, 4, 4, 4, 7, 7, 7]);
}

#[test]
fn fill_from_pixel_needs_room() {
    let mut rng = StdRng::seed_from_u64(9);
    for size in 0..6 {
        assert_eq!(task_fill_from_pixel(size, &mut rng), None);
    }
    let mut found = 0;
    for _ in 0..100 {
        if let Some(e) = task_fill_from_pixel(12, &mut rng) {
            found += 1;
            assert_eq!(e.input.len(), 12);
            assert_eq!(e.output.len(), 12);
            assert!(e.output[0] != 0 || e.output[11] != 0);
        }
    }
    assert!(found > 0);
}

#[test]
fn block_is_repeated_from_both_seeds() {
    let e = duplicate_block_from_seeds_from(12, 5, 2, Some(3), Some(4)).unwrap();
    assert_eq!(e.input, vec![0, 0, 0, 3, 0, 1, 1, 0, 4, 0, 0, 0]);
    assert_eq!(e.output, vec![3, 0, 3, 3, 0, 1, 1, 0, 4, 4, 0, 4]);
}

#[test]
fn block_is_repeated_from_one_seed() {
    let e = duplicate_block_from_seeds_from(12, 5, 2, Some(3), None).unwrap();
    assert_eq!(e.input, vec![0, 0, 0, 3, 0, 1, 1, 0, 0, 0, 0, 0]);
    assert_eq!(e.output, vec![3, 0, 3, 3, 0, 1, 1, 0, 0, 0, 0, 0]);
    let e = duplicate_block_from_seeds_from(12, 2, 3, None, Some(8)).unwrap();
    assert_eq!(e.input, vec![0, 0, 1, 1, 1, 0, 8, 0, 0, 0, 0, 0]);
    assert_eq!(e.output, vec![0, 0, 1, 1, 1, 0, 8, 8, 8, 0, 8, 8]);
}

#[test]
fn block_without_seed_is_infeasible() {
    assert_eq!(duplicate_block_from_seeds_from(12, 5, 2, None, None), None);
}

#[test]
fn duplicate_rule_needs_room_for_block_and_seeds() {
    let mut rng = StdRng::seed_from_u64(2);
    for size in 0..6 {
        assert_eq!(task_duplicate_block_from_seeds(size, &mut rng), None);
    }
    let mut found = 0;
    for _ in 0..100 {
        if let Some(e) = task_duplicate_block_from_seeds(15, &mut rng) {
            found += 1;
            assert_eq!(e.input.len(), 15);
            assert_eq!(e.output.len(), 15);
            for i in 0..15 {
                if e.input[i] != 0 {
                    assert_eq!(e.output[i], e.input[i]);
                }
            }
        }
    }
    assert!(found > 0);
}

#[test]
fn colors_spread_toward_the_left_marker() {
    let pixels = [Dot { pos: 6, color: 7 }, Dot { pos: 3, color: 2 }];
    let e = fill_until_collision_from(8, Side::Left, &pixels);
    assert_eq!(e.input, vec![5, 0, 0, 2, 0, 0, 7, 0]);
    assert_eq!(e.output, vec![5, 2, 2, 2, 7, 7, 7, 0]);
}

#[test]
fn colors_spread_toward_the_right_marker() {
    let pixels = [Dot { pos: 1, color: 3 }, Dot { pos: 4, color: 6 }];
    let e = fill_until_collision_from(8, Side::Right, &pixels);
    assert_eq!(e.input, vec![0, 3, 0, 0, 6, 0, 0, 5]);
    assert_eq!(e.output, vec![0, 3, 3, 3, 6, 6, 6, 5]);
}

#[test]
fn spread_takes_the_nearest_color() {
    assert_eq!(spread(&[0, 0, 4, 0, 9, 0], Side::Left), vec![4, 4, 4, 9, 9, 0]);
    assert_eq!(spread(&[0, 0, 4, 0, 9, 0], Side::Right), vec![0, 0, 4, 4, 9, 9]);
    assert_eq!(spread(&[], Side::Left), Vec::<u8>::new());
}

#[test]
fn fill_until_collision_needs_four_cells() {
    let mut rng = StdRng::seed_from_u64(4);
    for size in 0..4 {
        assert_eq!(task_fill_until_collision(size, &mut rng), None);
    }
}

#[test]
fn fill_until_collision_keeps_the_marker_and_the_pixels() {
    let mut rng = StdRng::seed_from_u64(4);
    let mut found = 0;
    for _ in 0..200 {
        if let Some(e) = task_fill_until_collision(20, &mut rng) {
            found += 1;
            let left = e.input[0] == 5;
            let right = e.input[19] == 5;
            assert!(left || right);
            let colored = e.input.iter().filter(|&&c| c != 0).count();
            assert!((3..=5).contains(&colored));
            let side = if left && !(right && e.input[1..19].iter().any(|&c| c == 5)) {
                Side::Left
            } else {
                Side::Right
            };
            if left != right {
                assert_eq!(e, Example { input: e.input.clone(), output: spread(&e.input, side) });
            }
        }
    }
    assert!(found > 0);
}

#[test]
fn is_taken_finds_a_position() {
    assert!(is_taken(&[4, 2, 9], 2));
    assert!(!is_taken(&[4, 2, 9], 3));
    assert!(!is_taken(&[], 0));
}
