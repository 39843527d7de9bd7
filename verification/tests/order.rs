use grid_puzzles::blocks::{advance, pack, paint_blocks, paint_colored_blocks, sort_lengths, Block};
use grid_puzzles::order::{
    count_up, longest_ramp, paint_biggest_block_from, recolor_blocks_by_size_from,
    sort_blocks_by_size_from, sort_complete_sequence_from, task_paint_biggest_block,
    task_recolor_blocks_by_size, task_sort_blocks_by_size, task_sort_complete_sequence,
};
use rand::rngs::StdRng;
use rand::SeedableRng;

fn runs(grid: &[u8]) -> Vec<usize> {
    let mut lens = Vec::new();
    let mut i = 0;
    while i < grid.len() {
        if grid[i] != 0 {
            let start = i;
            while i < grid.len() && grid[i] != 0 {
                i += 1;
            }
            lens.push(i - start);
        } else {
            i += 1;
        }
    }
    lens
}

#[test]
fn blocks_are_painted_where_they_lie() {
    let blocks = [Block { pos: 0, len: 2 }, Block { pos: 4, len: 1 }];
    assert_eq!(paint_blocks(&blocks, 3, vec![0; 6]), vec![3, 3, 0, 0, 3, 0]);
    assert_eq!(paint_colored_blocks(&blocks, &[7, 8], vec![1; 6]), vec![7, 7, 1, 1, 8, 1]);
    assert_eq!(paint_blocks(&[], 3, vec![0; 2]), vec![0, 0]);
}

#[test]
fn later_block_lies_on_top() {
    let blocks = [Block { pos: 0, len: 3 }, Block { pos: 2, len: 2 }];
    assert_eq!(paint_colored_blocks(&blocks, &[7, 8], vec![0; 5]), vec![7, 7, 8, 8, 0]);
}

#[test]
fn advance_stops_at_the_end() {
    assert_eq!(advance(3, 4, 10), 7);
    assert_eq!(advance(3, 7, 10), 10);
    assert_eq!(advance(3, 9, 10), 10);
    assert_eq!(advance(10, 1, 10), 10);
    assert_eq!(advance(0, usize::MAX, 10), 10);
}

#[test]
fn lengths_are_sorted_with_their_repeats() {
    assert_eq!(sort_lengths(vec![3, 1, 2, 1]), vec![1, 1, 2, 3]);
    assert_eq!(sort_lengths(vec![]), Vec::<usize>::new());
    assert_eq!(sort_lengths(vec![5]), vec![5]);
    assert_eq!(sort_lengths(vec![4, 3, 2, 1]), vec![1, 2, 3, 4]);
}

#[test]
fn packed_blocks_are_one_cell_apart() {
    assert_eq!(pack(&[2, 1, 3]), vec![
        Block { pos: 0, len: 2 },
        Block { pos: 3, len: 1 },
        Block { pos: 5, len: 3 }
    ]);
    assert_eq!(pack(&[]), Vec::<Block>::new());
}

#[test]
fn biggest_block_takes_the_first_color() {
    let blocks = [Block { pos: 0, len: 2 }, Block { pos: 3, len: 4 }, Block { pos: 8, len: 3 }];
    let e = paint_biggest_block_from(12, &blocks, 5).unwrap();
    assert_eq!(e.input, vec![5, 5, 0, 5, 5, 5, 5, 0, 5, 5, 5, 0]);
    assert_eq!(e.output, vec![5, 5, 0, 1, 1, 1, 1, 0, 5, 5, 5, 0]);
}

#[test]
fn biggest_block_may_be_the_first_or_the_last() {
    let blocks = [Block { pos: 0, len: 3 }, Block { pos: 4, len: 2 }];
    assert_eq!(paint_biggest_block_from(6, &blocks, 5).unwrap().output, vec![1, 1, 1, 0, 5, 5]);
    let blocks = [Block { pos: 0, len: 2 }, Block { pos: 3, len: 3 }];
    assert_eq!(paint_biggest_block_from(6, &blocks, 5).unwrap().output, vec![5, 5, 0, 1, 1, 1]);
}

#[test]
fn tie_for_the_biggest_block_is_infeasible() {
    let blocks = [Block { pos: 0, len: 3 }, Block { pos: 4, len: 3 }];
    assert_eq!(paint_biggest_block_from(8, &blocks, 5), None);
    let blocks = [Block { pos: 0, len: 3 }, Block { pos: 4, len: 2 }, Block { pos: 7, len: 3 }];
    assert_eq!(paint_biggest_block_from(10, &blocks, 5), None);
}

#[test]
fn tie_below_the_biggest_block_is_fine() {
    let blocks = [Block { pos: 0, len: 2 }, Block { pos: 3, len: 2 }, Block { pos: 6, len: 3 }];
    let e = paint_biggest_block_from(10, &blocks, 5).unwrap();
    assert_eq!(e.output, vec![5, 5, 0, 5, 5, 0, 1, 1, 1, 0]);
}

#[test]
fn less_than_two_blocks_are_infeasible() {
    assert_eq!(paint_biggest_block_from(8, &[Block { pos: 0, len: 3 }], 5), None);
    assert_eq!(paint_biggest_block_from(8, &[], 5), None);
    assert_eq!(sort_blocks_by_size_from(8, &[Block { pos: 0, len: 3 }], 5), None);
    assert_eq!(sort_blocks_by_size_from(8, &[], 5), None);
}

#[test]
fn blocks_come_out_by_size() {
    let blocks = [Block { pos: 0, len: 3 }, Block { pos: 5, len: 1 }, Block { pos: 8, len: 2 }];
    let e = sort_blocks_by_size_from(12, &blocks, 6).unwrap();
    assert_eq!(e.input, vec![6, 6, 6, 0, 0, 6, 0, 0, 6, 6, 0, 0]);
    assert_eq!(e.output, vec![6, 0, 6, 6, 0, 6, 6, 6, 0, 0, 0, 0]);
}

#[test]
fn sorted_row_may_end_at_the_edge() {
    let blocks = [Block { pos: 0, len: 2 }, Block { pos: 3, len: 1 }];
    let e = sort_blocks_by_size_from(4, &blocks, 6).unwrap();
    assert_eq!(e.input, vec![6, 6, 0, 6]);
    assert_eq!(e.output, vec![6, 0, 6, 6]);
}

#[test]
fn row_that_does_not_fit_is_infeasible() {
    let blocks = [Block { pos: 0, len: 3 }, Block { pos: 3, len: 2 }];
    assert_eq!(sort_blocks_by_size_from(5, &blocks, 6), None);
}

#[test]
fn complete_sequence_is_sorted() {
    let e = sort_complete_sequence_from(9, &[2, 3, 1], 7);
    assert_eq!(e.input, vec![7, 7, 0, 7, 7, 7, 0, 7, 0]);
    assert_eq!(e.output, vec![7, 0, 7, 7, 0, 7, 7, 7, 0]);
    let e = sort_complete_sequence_from(4, &[1], 7);
    assert_eq!(e.input, vec![7, 0, 0, 0]);
    assert_eq!(e.output, vec![7, 0, 0, 0]);
}

#[test]
fn longest_ramp_lets_the_last_block_end_at_the_edge() {
    assert_eq!(longest_ramp(0), 0);
    assert_eq!(longest_ramp(1), 1);
    assert_eq!(longest_ramp(3), 1);
    assert_eq!(longest_ramp(4), 2);
    assert_eq!(longest_ramp(7), 2);
    assert_eq!(longest_ramp(8), 3);
    assert_eq!(longest_ramp(12), 3);
    assert_eq!(longest_ramp(13), 4);
    assert_eq!(longest_ramp(18), 4);
    assert_eq!(longest_ramp(19), 5);
    assert_eq!(longest_ramp(25), 5);
    assert_eq!(longest_ramp(26), 6);
    assert_eq!(longest_ramp(29), 6);
}

#[test]
fn complete_sequence_fills_a_field_that_it_fits_exactly() {
    let e = sort_complete_sequence_from(8, &[3, 1, 2], 4);
    assert_eq!(e.input, vec![4, 4, 4, 0, 4, 0, 4, 4]);
    assert_eq!(e.output, vec![4, 0, 4, 4, 0, 4, 4, 4]);
    let mut rng = StdRng::seed_from_u64(151);
    for (size, blocks) in [(4, 2), (8, 3), (13, 4), (19, 5), (26, 6)] {
        let e = task_sort_complete_sequence(size, &mut rng).unwrap();
        assert_eq!(runs(&e.output), count_up(blocks));
        assert_ne!(e.output[size - 1], 0);
        assert_ne!(e.input[size - 1], 0);
        let e = task_sort_complete_sequence(size - 1, &mut rng).unwrap();
        assert_eq!(runs(&e.output), count_up(blocks - 1));
    }
}

#[test]
fn count_up_starts_at_one() {
    assert_eq!(count_up(4), vec![1, 2, 3, 4]);
    assert_eq!(count_up(0), Vec::<usize>::new());
}

#[test]
fn complete_sequence_rule_shows_every_length_once() {
    let mut rng = StdRng::seed_from_u64(31);
    assert_eq!(task_sort_complete_sequence(0, &mut rng), None);
    assert_eq!(task_sort_complete_sequence(1, &mut rng), None);
    let mut shuffled = 0;
    for size in 2..30 {
        let e = task_sort_complete_sequence(size, &mut rng).unwrap();
        assert_eq!(e.input.len(), size);
        assert_eq!(e.output.len(), size);
        let n = longest_ramp(size);
        assert_eq!(runs(&e.output), count_up(n));
        let mut shown = runs(&e.input);
        if shown != count_up(n) {
            shuffled += 1;
        }
        shown.sort();
        assert_eq!(shown, count_up(n));
    }
    assert!(shuffled > 0);
}

#[test]
fn bigger_block_takes_the_first_color() {
    let first = Block { pos: 1, len: 2 };
    let e = recolor_blocks_by_size_from(12, first, Block { pos: 5, len: 4 }).unwrap();
    assert_eq!(e.input, vec![0, 3, 3, 0, 0, 3, 3, 3, 3, 0, 0, 0]);
    assert_eq!(e.output, vec![0, 2, 2, 0, 0, 1, 1, 1, 1, 0, 0, 0]);
    let first = Block { pos: 1, len: 5 };
    let e = recolor_blocks_by_size_from(12, first, Block { pos: 8, len: 4 }).unwrap();
    assert_eq!(e.input, vec![0, 3, 3, 3, 3, 3, 0, 0, 3, 3, 3, 3]);
    assert_eq!(e.output, vec![0, 1, 1, 1, 1, 1, 0, 0, 2, 2, 2, 2]);
}

#[test]
fn equal_blocks_are_infeasible() {
    assert_eq!(
        recolor_blocks_by_size_from(12, Block { pos: 1, len: 3 }, Block { pos: 5, len: 3 }),
        None
    );
}

#[test]
fn recolor_rule_needs_room_for_both_blocks() {
    let mut rng = StdRng::seed_from_u64(37);
    for size in 0..6 {
        assert_eq!(task_recolor_blocks_by_size(size, &mut rng), None);
    }
    let mut found = 0;
    for _ in 0..200 {
        if let Some(e) = task_recolor_blocks_by_size(20, &mut rng) {
            found += 1;
            let lens = runs(&e.input);
            assert_eq!(lens.len(), 2);
            assert_ne!(lens[0], lens[1]);
            assert!(e.input.iter().all(|&c| c == 0 || c == 3));
            for i in 0..20 {
                assert_eq!(e.input[i] == 0, e.output[i] == 0);
            }
            let ones = e.output.iter().filter(|&&c| c == 1).count();
            let twos = e.output.iter().filter(|&&c| c == 2).count();
            assert_eq!(ones, lens[0].max(lens[1]));
            assert_eq!(twos, lens[0].min(lens[1]));
        }
    }
    assert!(found > 0);
}

#[test]
fn paint_biggest_rule_repaints_one_block() {
    let mut rng = StdRng::seed_from_u64(41);
    let mut found = 0;
    let mut infeasible = 0;
    for round in 0..400 {
        let size = 5 + round % 25;
        match task_paint_biggest_block(size, &mut rng) {
            Some(e) => {
                found += 1;
                assert_eq!(e.input.len(), size);
                let lens = runs(&e.input);
                assert!(lens.len() >= 2);
                assert!(lens.iter().all(|&l| (2..=6).contains(&l)));
                let biggest = *lens.iter().max().unwrap();
                assert_eq!(lens.iter().filter(|&&l| l == biggest).count(), 1);
                assert_eq!(e.output.iter().filter(|&&c| c == 1).count(), biggest);
                let color = *e.input.iter().find(|&&c| c != 0).unwrap();
                assert!(color >= 2);
                for i in 0..size {
                    assert!(e.output[i] == e.input[i] || e.output[i] == 1);
                }
            }
            None => infeasible += 1,
        }
    }
    assert!(found > 0 && infeasible > 0);
}

#[test]
fn sort_rule_keeps_the_lengths() {
    let mut rng = StdRng::seed_from_u64(43);
    let mut found = 0;
    for round in 0..400 {
        let size = 5 + round % 25;
        if let Some(e) = task_sort_blocks_by_size(size, &mut rng) {
            found += 1;
            assert_eq!(e.input.len(), size);
            assert_eq!(e.output.len(), size);
            let mut shown = runs(&e.input);
            assert!(shown.len() >= 2);
            shown.sort();
            assert_eq!(runs(&e.output), shown);
            assert!(e.output[0] != 0);
        }
    }
    assert!(found > 0);
}
