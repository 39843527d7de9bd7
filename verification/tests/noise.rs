use grid_puzzles::blocks::Block;
use grid_puzzles::grid::Dot;
use grid_puzzles::noise::{
    all_clear, block_and_noise_remove_from, block_and_noise_remove_inside_from, forbid_around,
    free_cells, make_dots, task_block_and_noise_remove, task_block_and_noise_remove_inside,
};
use rand::rngs::StdRng;
use rand::SeedableRng;

#[test]
fn noise_beside_the_block_is_removed() {
    let e = block_and_noise_remove_from(10, 4, Block { pos: 3, len: 3 }, &[0, 8]);
    assert_eq!(e.input, vec![4, 0, 0, 4, 4, 4, 0, 0, 4, 0]);
    assert_eq!(e.output, vec![0, 0, 0, 4, 4, 4, 0, 0, 0, 0]);
}

#[test]
fn block_without_noise_stays() {
    let e = block_and_noise_remove_from(5, 4, Block { pos: 1, len: 2 }, &[]);
    assert_eq!(e.input, vec![0, 4, 4, 0, 0]);
    assert_eq!(e.output, vec![0, 4, 4, 0, 0]);
}

#[test]
fn noise_inside_the_block_is_repaired() {
    let noise = [Dot { pos: 3, color: 7 }, Dot { pos: 6, color: 1 }];
    let e = block_and_noise_remove_inside_from(10, 4, Block { pos: 2, len: 6 }, &noise);
    assert_eq!(e.input, vec![0, 0, 4, 7, 4, 4, 1, 4, 0, 0]);
    assert_eq!(e.output, vec![0, 0, 4, 4, 4, 4, 4, 4, 0, 0]);
}

#[test]
fn forbidden_zone_reaches_one_cell_beyond() {
    let mut flags = all_clear(5);
    assert_eq!(flags, vec![false; 5]);
    forbid_around(&mut flags, 2, 1);
    assert_eq!(flags, vec![false, true, true, true, false]);
    let mut flags = all_clear(5);
    forbid_around(&mut flags, 0, 2);
    assert_eq!(flags, vec![true, true, true, false, false]);
    forbid_around(&mut flags, 4, 1);
    assert_eq!(flags, vec![true, true, true, true, true]);
    let mut flags = all_clear(3);
    forbid_around(&mut flags, 3, 0);
    assert_eq!(flags, vec![false, false, true]);
}

#[test]
fn free_cells_are_listed_from_the_left() {
    assert_eq!(free_cells(&[true, false, false, true, false]), vec![1, 2, 4]);
    assert_eq!(free_cells(&[true, true]), Vec::<usize>::new());
    assert_eq!(free_cells(&[]), Vec::<usize>::new());
}

#[test]
fn dots_take_the_cells_in_their_order() {
    assert_eq!(
        make_dots(&[4, 1], 6),
        vec![Dot { pos: 4, color: 6 }, Dot { pos: 1, color: 6 }]
    );
}

#[test]
fn noise_never_touches_the_block_or_other_noise() {
    let mut rng = StdRng::seed_from_u64(23);
    let mut found = 0;
    let mut infeasible = 0;
    for round in 0..300 {
        let size = 5 + round % 25;
        match task_block_and_noise_remove(size, &mut rng) {
            Some(e) => {
                found += 1;
                assert_eq!(e.input.len(), size);
                assert_eq!(e.output.len(), size);
                let first = e.output.iter().position(|&c| c != 0).unwrap();
                let last = e.output.iter().rposition(|&c| c != 0).unwrap();
                let color = e.output[first];
                assert!(last > first);
                assert!(e.output[first..=last].iter().all(|&c| c == color));
                let noise: Vec<usize> =
                    (0..size).filter(|&i| e.input[i] != e.output[i]).collect();
                assert!((1..=3).contains(&noise.len()));
                for &p in &noise {
                    assert_eq!(e.input[p], color);
                    assert!(p + 1 < first || p > last + 1);
                }
                for pair in noise.windows(2) {
                    assert!(pair[0] + 1 < pair[1]);
                }
            }
            None => infeasible += 1,
        }
    }
    assert!(found > 0 && infeasible > 0);
}

#[test]
fn inner_noise_needs_more_than_six_cells() {
    let mut rng = StdRng::seed_from_u64(29);
    for size in 0..7 {
        assert_eq!(task_block_and_noise_remove_inside(size, &mut rng), None);
    }
}

#[test]
fn inner_noise_lies_in_the_block_in_other_colors() {
    let mut rng = StdRng::seed_from_u64(29);
    let mut found = 0;
    for round in 0..300 {
        let size = 7 + round % 23;
        if let Some(e) = task_block_and_noise_remove_inside(size, &mut rng) {
            found += 1;
            assert_eq!(e.input.len(), size);
            let first = e.output.iter().position(|&c| c != 0).unwrap();
            let last = e.output.iter().rposition(|&c| c != 0).unwrap();
            let len = last - first + 1;
            assert!(len >= 6);
            let color = e.output[first];
            assert!(e.output[first..=last].iter().all(|&c| c == color));
            let noise: Vec<usize> = (0..size).filter(|&i| e.input[i] != e.output[i]).collect();
            assert!(!noise.is_empty() && noise.len() <= (len / 2 - 1).max(1));
            for &p in &noise {
                assert!(first <= p && p <= last);
                assert!(e.input[p] != 0 && e.input[p] != color);
            }
        }
    }
    assert!(found > 0);
}

#[test]
fn noise_needs_a_cell_apart_from_the_block() {
    let mut rng = StdRng::seed_from_u64(139);
    for _ in 0..50 {
        assert_eq!(task_block_and_noise_remove(2, &mut rng), None);
        assert_eq!(task_block_and_noise_remove(3, &mut rng), None);
    }
    let mut found = 0;
    for _ in 0..200 {
        if task_block_and_noise_remove(4, &mut rng).is_some() {
            found += 1;
        }
    }
    assert!(found > 0);
}
