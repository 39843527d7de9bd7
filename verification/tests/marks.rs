use grid_puzzles::blocks::Block;
use grid_puzzles::marks::{
    color_left_half_blocks_from, have_room, mark_size_two_blocks_from,
    task_color_left_half_blocks, task_mark_size_two_blocks,
};
use rand::rngs::StdRng;
use rand::SeedableRng;

#[test]
fn blocks_of_two_are_marked_on_both_sides() {
    let blocks = [Block { pos: 1, len: 2 }, Block { pos: 6, len: 1 }, Block { pos: 9, len: 2 }];
    let e = mark_size_two_blocks_from(12, &blocks).unwrap();
    assert_eq!(e.input, vec![0, 1, 1, 0, 0, 0, 1, 0, 0, 1, 1, 0]);
    assert_eq!(e.output, vec![3, 1, 1, 3, 0, 0, 1, 0, 3, 1, 1, 3]);
}

#[test]
fn block_at_the_edge_gets_one_mark() {
    let blocks = [Block { pos: 0, len: 2 }, Block { pos: 5, len: 3 }];
    let e = mark_size_two_blocks_from(9, &blocks).unwrap();
    assert_eq!(e.input, vec![1, 1, 0, 0, 0, 1, 1, 1, 0]);
    assert_eq!(e.output, vec![1, 1, 3, 0, 0, 1, 1, 1, 0]);
    let blocks = [Block { pos: 0, len: 1 }, Block { pos: 4, len: 2 }];
    let e = mark_size_two_blocks_from(6, &blocks).unwrap();
    assert_eq!(e.output, vec![1, 0, 0, 3, 1, 1]);
}

#[test]
fn blocks_too_close_are_infeasible() {
    let blocks = [Block { pos: 0, len: 2 }, Block { pos: 4, len: 1 }];
    assert!(!have_room(&blocks));
    assert_eq!(mark_size_two_blocks_from(9, &blocks), None);
    let blocks = [Block { pos: 0, len: 1 }, Block { pos: 2, len: 1 }];
    assert_eq!(mark_size_two_blocks_from(9, &blocks), None);
    let blocks = [Block { pos: 0, len: 1 }, Block { pos: 3, len: 1 }];
    assert!(have_room(&blocks));
    assert!(mark_size_two_blocks_from(9, &blocks).is_some());
}

#[test]
fn one_block_is_not_enough() {
    assert_eq!(mark_size_two_blocks_from(9, &[Block { pos: 0, len: 2 }]), None);
    assert_eq!(color_left_half_blocks_from(9, &[Block { pos: 0, len: 2 }]), None);
    assert!(have_room(&[]));
}

#[test]
fn left_halves_are_recolored() {
    let blocks = [Block { pos: 0, len: 3 }, Block { pos: 4, len: 4 }];
    let e = color_left_half_blocks_from(10, &blocks).unwrap();
    assert_eq!(e.input, vec![2, 2, 2, 0, 2, 2, 2, 2, 0, 0]);
    assert_eq!(e.output, vec![8, 2, 2, 0, 8, 8, 2, 2, 0, 0]);
}

#[test]
fn mark_rule_marks_only_blocks_of_two() {
    let mut rng = StdRng::seed_from_u64(47);
    let mut found = 0;
    let mut infeasible = 0;
    for round in 0..400 {
        let size = 5 + round % 25;
        match task_mark_size_two_blocks(size, &mut rng) {
            Some(e) => {
                found += 1;
                assert_eq!(e.input.len(), size);
                assert!(e.input.iter().all(|&c| c <= 1));
                for i in 0..size {
                    if e.input[i] == 1 {
                        assert_eq!(e.output[i], 1);
                    } else {
                        let after_two = i >= 2
                            && e.input[i - 1] == 1
                            && e.input[i - 2] == 1
                            && (i < 3 || e.input[i - 3] == 0);
                        let before_two = i + 2 < size
                            && e.input[i + 1] == 1
                            && e.input[i + 2] == 1
                            && (i + 3 >= size || e.input[i + 3] == 0);
                        assert_eq!(e.output[i], if after_two || before_two { 3 } else { 0 });
                    }
                }
            }
            None => infeasible += 1,
        }
    }
    assert!(found > 0 && infeasible > 0);
}

#[test]
fn half_rule_recolors_the_left_half_of_each_block() {
    let mut rng = StdRng::seed_from_u64(53);
    let mut found = 0;
    for round in 0..400 {
        let size = 5 + round % 25;
        if let Some(e) = task_color_left_half_blocks(size, &mut rng) {
            found += 1;
            assert_eq!(e.input.len(), size);
            assert!(e.input.iter().all(|&c| c == 0 || c == 2));
            assert_eq!(e.input[size - 1], 0);
            let mut i = 0;
            let mut blocks = 0;
            while i < size {
                if e.input[i] == 2 {
                    let start = i;
                    while i < size && e.input[i] == 2 {
                        i += 1;
                    }
                    let len = i - start;
                    blocks += 1;
                    assert!((2..=8).contains(&len));
                    for k in 0..len {
                        assert_eq!(e.output[start + k], if k < len / 2 { 8 } else { 2 });
                    }
                } else {
                    assert_eq!(e.output[i], 0);
                    i += 1;
                }
            }
            assert!(blocks >= 2);
        }
    }
    assert!(found > 0);
}
