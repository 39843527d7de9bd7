use grid_puzzles::blocks::Block;
use grid_puzzles::grid::Dot;
use grid_puzzles::palette::{
    copy_block_to_dots_from, is_used, recolor_blocks_from_palette_from, repeat_pattern_full_from,
    task_copy_block_to_dots, task_copy_block_to_dots_colors, task_recolor_blocks_from_palette,
    task_repeat_pattern_full,
};
use rand::rngs::StdRng;
use rand::SeedableRng;

#[test]
fn blocks_take_the_colors_of_the_palette() {
    let blocks = [Block { pos: 3, len: 2 }, Block { pos: 6, len: 2 }];
    let e = recolor_blocks_from_palette_from(12, &blocks, &[4, 7]);
    assert_eq!(e.input, vec![4, 7, 0, 5, 5, 0, 5, 5, 0, 0, 0, 0]);
    assert_eq!(e.output, vec![4, 7, 0, 4, 4, 0, 7, 7, 0, 0, 0, 0]);
}

#[test]
fn palette_rule_pairs_blocks_and_colors_by_place() {
    let mut rng = StdRng::seed_from_u64(59);
    let mut found = 0;
    let mut infeasible = 0;
    for round in 0..400 {
        let size = 5 + round % 25;
        match task_recolor_blocks_from_palette(size, &mut rng) {
            Some(e) => {
                found += 1;
                assert_eq!(e.input.len(), size);
                let n = e.input.iter().position(|&c| c == 0).unwrap();
                assert!(n >= 1);
                let palette = &e.input[..n];
                for (i, c) in palette.iter().enumerate() {
                    assert!((1..=9).contains(c));
                    assert!(!palette[..i].contains(c));
                }
                assert_eq!(&e.output[..n], palette);
                let mut i = n;
                let mut block = 0;
                let mut len = 0;
                while i < size {
                    if e.input[i] == 5 {
                        let start = i;
                        while i < size && e.input[i] == 5 {
                            assert_eq!(e.output[i], palette[block]);
                            i += 1;
                        }
                        assert!(len == 0 || len == i - start);
                        len = i - start;
                        block += 1;
                    } else {
                        assert_eq!(e.input[i], 0);
                        assert_eq!(e.output[i], 0);
                        i += 1;
                    }
                }
                assert_eq!(block, n);
                assert!((2..=4).contains(&len));
                assert_eq!(e.input[size - 1], 0);
            }
            None => infeasible += 1,
        }
    }
    assert!(found > 0 && infeasible > 0);
}

#[test]
fn block_is_copied_to_each_dot() {
    let dots = [Dot { pos: 5, color: 2 }, Dot { pos: 9, color: 6 }];
    let e = copy_block_to_dots_from(14, 3, 2, &dots).unwrap();
    assert_eq!(e.input, vec![2, 2, 2, 0, 0, 2, 0, 0, 0, 6, 0, 0, 0, 0]);
    assert_eq!(e.output, vec![2, 2, 2, 0, 2, 2, 2, 0, 6, 6, 6, 0, 0, 0]);
}

#[test]
fn copy_of_five_cells_reaches_the_edge() {
    let dots = [Dot { pos: 9, color: 4 }];
    let e = copy_block_to_dots_from(12, 5, 4, &dots).unwrap();
    assert_eq!(e.input, vec![4, 4, 4, 4, 4, 0, 0, 0, 0, 4, 0, 0]);
    assert_eq!(e.output, vec![4, 4, 4, 4, 4, 0, 0, 4, 4, 4, 4, 4]);
}

#[test]
fn block_without_dots_is_infeasible() {
    assert_eq!(copy_block_to_dots_from(14, 3, 2, &[]), None);
}

#[test]
fn copy_rules_need_a_field_longer_than_the_block() {
    let mut rng = StdRng::seed_from_u64(61);
    for size in 0..4 {
        assert_eq!(task_copy_block_to_dots(size, &mut rng), None);
        assert_eq!(task_copy_block_to_dots_colors(size, &mut rng), None);
    }
}

#[test]
fn copy_rules_stamp_the_block_round_each_dot() {
    let mut rng = StdRng::seed_from_u64(61);
    let mut found = 0;
    let mut colorful = 0;
    for round in 0..600 {
        let size = 5 + round % 25;
        let plain = round % 2 == 0;
        let made = if plain {
            task_copy_block_to_dots(size, &mut rng)
        } else {
            task_copy_block_to_dots_colors(size, &mut rng)
        };
        if let Some(e) = made {
            found += 1;
            assert_eq!(e.input.len(), size);
            assert_eq!(e.output.len(), size);
            let len = e.input.iter().position(|&c| c == 0).unwrap();
            assert!(len == 3 || len == 5);
            let color = e.input[0];
            assert_eq!(&e.output[..len], &e.input[..len]);
            let dots: Vec<usize> = (len..size).filter(|&i| e.input[i] != 0).collect();
            assert!(!dots.is_empty());
            let mut expected = vec![0u8; size];
            for cell in expected.iter_mut().take(len) {
                *cell = color;
            }
            for &d in &dots {
                if plain {
                    assert_eq!(e.input[d], color);
                } else if e.input[d] != color {
                    colorful += 1;
                }
                for cell in expected.iter_mut().skip(d - len / 2).take(len) {
                    *cell = e.input[d];
                }
            }
            assert_eq!(e.output, expected);
        }
    }
    assert!(found > 0 && colorful > 0);
}

#[test]
fn pattern_is_repeated_over_the_field() {
    let e = repeat_pattern_full_from(8, &[1, 2, 3]).unwrap();
    assert_eq!(e.input, vec![1, 2, 3, 1, 2, 3, 0, 0]);
    assert_eq!(e.output, vec![1, 2, 3, 1, 2, 3, 1, 2]);
    let e = repeat_pattern_full_from(5, &[4, 9]).unwrap();
    assert_eq!(e.input, vec![4, 9, 4, 9, 0]);
    assert_eq!(e.output, vec![4, 9, 4, 9, 4]);
}

#[test]
fn pattern_that_fills_the_field_twice_is_infeasible() {
    assert_eq!(repeat_pattern_full_from(6, &[1, 2, 3]), None);
    assert_eq!(repeat_pattern_full_from(5, &[1, 2, 3]), None);
    assert_eq!(repeat_pattern_full_from(2, &[1, 2, 3]), None);
    assert!(repeat_pattern_full_from(7, &[1, 2, 3]).is_some());
}

#[test]
fn pattern_rule_leaves_no_background() {
    let mut rng = StdRng::seed_from_u64(67);
    for size in 0..5 {
        assert_eq!(task_repeat_pattern_full(size, &mut rng), None);
    }
    for size in 11..30 {
        let e = task_repeat_pattern_full(size, &mut rng).unwrap();
        assert_eq!(e.input.len(), size);
        assert!(e.output.iter().all(|&c| (1..=9).contains(&c)));
        let shown = e.input.iter().rposition(|&c| c != 0).unwrap() + 1;
        assert_eq!(shown % 2, 0);
        let len = shown / 2;
        assert!((2..=5).contains(&len));
        for i in 0..size {
            assert_eq!(e.output[i], e.input[i % len]);
        }
    }
}

#[test]
fn is_used_finds_a_color() {
    assert!(is_used(&[4, 2, 9], 9));
    assert!(!is_used(&[4, 2, 9], 3));
    assert!(!is_used(&[], 0));
}
