use grid_puzzles::random::{
    gen_random_field, gen_random_sparse_field, gen_random_sparse_field_two_colors, permute_color,
    permute_color_not_black, random_color, random_color_two, step_color, visible,
};
use rand::rngs::StdRng;
use rand::SeedableRng;

#[test]
fn colors_go_round_the_ring() {
    assert_eq!(step_color(3, 7), 0);
    assert_eq!(step_color(9, 1), 0);
    assert_eq!(step_color(5, 9), 4);
    assert_eq!(step_color(0, 9), 9);
    assert_eq!(step_color(0, 1), 1);
    assert_eq!(step_color(9, 9), 8);
}

#[test]
fn background_is_not_visible() {
    assert_eq!(visible(0), None);
    assert_eq!(visible(4), Some(4));
}

#[test]
fn random_colors_cover_the_alphabet() {
    let mut rng = StdRng::seed_from_u64(127);
    let mut seen = [false; 10];
    for _ in 0..500 {
        let c = random_color(&mut rng);
        assert!((1..=9).contains(&c));
        seen[c as usize] = true;
    }
    assert_eq!(seen, [false, true, true, true, true, true, true, true, true, true]);
}

#[test]
fn two_colors_are_the_first_two() {
    let mut rng = StdRng::seed_from_u64(131);
    let mut seen = [false; 3];
    for _ in 0..100 {
        let c = random_color_two(&mut rng);
        assert!(c == 1 || c == 2);
        seen[c as usize] = true;
    }
    assert_eq!(seen, [false, true, true]);
}

#[test]
fn permuted_color_differs() {
    let mut rng = StdRng::seed_from_u64(137);
    for color in 0..=9 {
        let mut seen = [false; 10];
        for _ in 0..300 {
            let c = permute_color(color, &mut rng);
            assert!(c <= 9 && c != color);
            seen[c as usize] = true;
        }
        for c in 0..=9 {
            assert_eq!(seen[c as usize], c != color);
        }
    }
}

#[test]
fn permuted_visible_color_is_no_background() {
    let mut rng = StdRng::seed_from_u64(139);
    let mut none = 0;
    let mut some = 0;
    for _ in 0..300 {
        match permute_color_not_black(5, &mut rng) {
            Some(c) => {
                some += 1;
                assert!((1..=9).contains(&c) && c != 5);
            }
            None => none += 1,
        }
    }
    assert!(some > 0 && none > 0);
    for _ in 0..100 {
        assert!(permute_color_not_black(0, &mut rng).is_some());
    }
}

#[test]
fn random_field_has_no_background() {
    let mut rng = StdRng::seed_from_u64(149);
    let field = gen_random_field(50, &mut rng);
    assert_eq!(field.len(), 50);
    assert!(field.iter().all(|&c| (1..=9).contains(&c)));
    assert!(gen_random_field(0, &mut rng).is_empty());
}

#[test]
fn sparse_field_is_about_half_empty() {
    let mut rng = StdRng::seed_from_u64(151);
    let field = gen_random_sparse_field(1000, &mut rng);
    assert_eq!(field.len(), 1000);
    assert!(field.iter().all(|&c| c <= 9));
    let empty = field.iter().filter(|&&c| c == 0).count();
    assert!(empty > 400 && empty < 600);
    let field = gen_random_sparse_field_two_colors(1000, &mut rng);
    assert_eq!(field.len(), 1000);
    assert!(field.iter().all(|&c| c <= 2));
    let empty = field.iter().filter(|&&c| c == 0).count();
    assert!(empty > 400 && empty < 600);
}
