use grid_puzzles::grid::Side;
use grid_puzzles::reflect::{
    beside, reflect_block_around_dot_from, reflect_block_from,
    reflect_block_with_border_pixel_from, reflect_block_with_border_pixel_random_from,
    task_reflect_block_around_dot, task_reflect_block_with_border_pixel,
    task_reflect_block_with_border_pixel_random, with_border,
};
use rand::rngs::StdRng;
use rand::SeedableRng;

#[test]
fn block_is_reflected_in_place() {
    let e = reflect_block_from(7, 2, &[1, 2, 3]);
    assert_eq!(e.input, vec![0, 0, 1, 2, 3, 0, 0]);
    assert_eq!(e.output, vec![0, 0, 3, 2, 1, 0, 0]);
}

#[test]
fn border_pixel_changes_sides() {
    let e = reflect_block_with_border_pixel_from(8, 2, 4, 3, 5, Side::Left).unwrap();
    assert_eq!(e.input, vec![0, 0, 5, 3, 3, 3, 0, 0]);
    assert_eq!(e.output, vec![0, 0, 3, 3, 3, 5, 0, 0]);
    let e = reflect_block_with_border_pixel_from(8, 2, 4, 3, 5, Side::Right).unwrap();
    assert_eq!(e.input, vec![0, 0, 3, 3, 3, 5, 0, 0]);
    assert_eq!(e.output, vec![0, 0, 5, 3, 3, 3, 0, 0]);
}

#[test]
fn border_of_the_block_color_is_infeasible() {
    assert_eq!(reflect_block_with_border_pixel_from(8, 2, 4, 3, 3, Side::Left), None);
}

#[test]
fn random_block_gets_a_border_and_is_reflected() {
    let e = reflect_block_with_border_pixel_random_from(6, 1, vec![1, 2, 3], 9, Side::Right)
        .unwrap();
    assert_eq!(e.input, vec![0, 1, 2, 9, 0, 0]);
    assert_eq!(e.output, vec![0, 9, 2, 1, 0, 0]);
    let e = reflect_block_with_border_pixel_random_from(6, 1, vec![1, 2, 3], 9, Side::Left)
        .unwrap();
    assert_eq!(e.input, vec![0, 9, 2, 3, 0, 0]);
    assert_eq!(e.output, vec![0, 3, 2, 9, 0, 0]);
}

#[test]
fn border_that_is_there_already_is_infeasible() {
    assert_eq!(
        reflect_block_with_border_pixel_random_from(6, 1, vec![1, 2, 9], 9, Side::Right),
        None
    );
    assert_eq!(
        reflect_block_with_border_pixel_random_from(6, 1, vec![9, 2, 1], 9, Side::Left),
        None
    );
}

#[test]
fn with_border_repaints_one_cell() {
    assert_eq!(with_border(vec![1, 1, 1], Side::Left, 4), vec![4, 1, 1]);
    assert_eq!(with_border(vec![1, 1, 1], Side::Right, 4), vec![1, 1, 4]);
    assert_eq!(with_border(vec![1], Side::Right, 4), vec![4]);
}

#[test]
fn block_is_reflected_about_the_dot() {
    let e = reflect_block_around_dot_from(10, 4, 1, 2, 3).unwrap();
    assert_eq!(e.input, vec![0, 3, 3, 0, 2, 0, 0, 0, 0, 0]);
    assert_eq!(e.output, vec![0, 0, 0, 0, 2, 0, 3, 3, 0, 0]);
    let e = reflect_block_around_dot_from(10, 5, 6, 3, 7).unwrap();
    assert_eq!(e.input, vec![0, 0, 0, 0, 0, 2, 7, 7, 7, 0]);
    assert_eq!(e.output, vec![0, 0, 7, 7, 7, 2, 0, 0, 0, 0]);
}

#[test]
fn reflection_reaches_the_edges() {
    let e = reflect_block_around_dot_from(5, 2, 0, 2, 3).unwrap();
    assert_eq!(e.input, vec![3, 3, 2, 0, 0]);
    assert_eq!(e.output, vec![0, 0, 2, 3, 3]);
    let e = reflect_block_around_dot_from(5, 2, 3, 2, 3).unwrap();
    assert_eq!(e.output, vec![3, 3, 2, 0, 0]);
}

#[test]
fn reflection_out_of_the_field_is_infeasible() {
    assert_eq!(reflect_block_around_dot_from(10, 2, 5, 3, 3), None);
    assert_eq!(reflect_block_around_dot_from(10, 7, 1, 3, 3), None);
    assert_eq!(reflect_block_around_dot_from(5, 2, 0, 1, 3).is_some(), true);
    assert_eq!(reflect_block_around_dot_from(4, 2, 0, 1, 3), None);
}

#[test]
fn block_on_the_dot_is_infeasible() {
    assert_eq!(reflect_block_around_dot_from(10, 3, 2, 3, 3), None);
    assert_eq!(reflect_block_around_dot_from(10, 3, 3, 1, 3), None);
    assert_eq!(reflect_block_around_dot_from(10, 4, 2, 3, 3), None);
}

#[test]
fn beside_means_wholly_on_one_side() {
    assert!(beside(4, 1, 3));
    assert!(!beside(3, 1, 3));
    assert!(beside(0, 1, 3));
    assert!(!beside(1, 1, 3));
}

#[test]
fn reflect_rules_keep_the_size_and_reverse_the_block() {
    let mut rng = StdRng::seed_from_u64(17);
    let mut found = 0;
    let mut infeasible = 0;
    for size in 2..30 {
        for (solid, r) in [
            (true, task_reflect_block_with_border_pixel(size, &mut rng)),
            (false, task_reflect_block_with_border_pixel_random(size, &mut rng)),
        ] {
            match r {
                Some(e) => {
                    found += 1;
                    assert_eq!(e.input.len(), size);
                    let first = e.input.iter().position(|&c| c != 0).unwrap();
                    let last = e.input.iter().rposition(|&c| c != 0).unwrap();
                    assert!(last > first);
                    let mut block = e.input[first..=last].to_vec();
                    assert!(block.iter().all(|&c| c != 0));
                    block.reverse();
                    assert_eq!(&e.output[first..=last], &block[..]);
                    if solid {
                        assert_ne!(e.input[first], e.input[last]);
                    }
                }
                None => infeasible += 1,
            }
        }
        if let Some(e) = task_reflect_block_around_dot(size, &mut rng) {
            assert_eq!(e.input.len(), size);
            assert_eq!(e.output.len(), size);
            let dot = e.input.iter().position(|&c| c == 2).unwrap();
            assert_eq!(e.output[dot], 2);
            for i in 0..size {
                if i != dot && e.input[i] != 0 {
                    assert_eq!(e.output[2 * dot - i], e.input[i]);
                }
            }
        }
    }
    assert!(found > 0 && infeasible > 0);
}

#[test]
fn reflection_about_a_dot_needs_three_cells() {
    let mut rng = StdRng::seed_from_u64(149);
    for _ in 0..50 {
        assert_eq!(task_reflect_block_around_dot(1, &mut rng), None);
        assert_eq!(task_reflect_block_around_dot(2, &mut rng), None);
    }
    let mut found = 0;
    for _ in 0..400 {
        if task_reflect_block_around_dot(3, &mut rng).is_some() {
            found += 1;
        }
    }
    assert!(found > 0);
}
