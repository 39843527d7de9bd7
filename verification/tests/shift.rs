use grid_puzzles::example::Example;
use grid_puzzles::shift::{
    move_block_by_own_size_from, move_n_pix_from, move_n_pix_wrapped_from, task_move_n_pix,
};
use rand::rngs::StdRng;
use rand::SeedableRng;

#[test]
fn solid_block_moves_two_cells_right() {
    let e = move_n_pix_from(10, 2, 2, &[4, 4, 4]);
    assert_eq!(
        e,
        Example {
            input: vec![0, 0, 4, 4, 4, 0, 0, 0, 0, 0],
            output: vec![0, 0, 0, 0, 4, 4, 4, 0, 0, 0],
        }
    );
}

#[test]
fn wrapped_block_comes_back_on_the_left() {
    let e = move_n_pix_wrapped_from(5, 2, 3, &[1, 2, 3]);
    assert_eq!(e.input, vec![3, 0, 0, 1, 2]);
    assert_eq!(e.output, vec![1, 2, 3, 0, 0]);
}

#[test]
fn block_moves_by_its_own_length() {
    let e = move_block_by_own_size_from(8, 1, 3, 7);
    assert_eq!(e.input, vec![0, 7, 7, 7, 0, 0, 0, 0]);
    assert_eq!(e.output, vec![0, 0, 0, 0, 7, 7, 7, 0]);
}

#[test]
fn move_n_pix_is_infeasible_on_a_short_field() {
    let mut rng = StdRng::seed_from_u64(1);
    assert_eq!(task_move_n_pix(3, 2, true, &mut rng), None);
    assert_eq!(task_move_n_pix(3, 5, true, &mut rng), None);
}

#[test]
fn move_n_pix_keeps_the_block_inside() {
    let mut rng = StdRng::seed_from_u64(7);
    for size in 5..30 {
        let e = task_move_n_pix(size, 3, false, &mut rng).unwrap();
        assert_eq!(e.input.len(), size);
        assert_eq!(e.output.len(), size);
        let first = e.input.iter().position(|&c| c != 0).unwrap();
        let count = e.input.iter().filter(|&&c| c != 0).count();
        assert_eq!(&e.input[first..first + count], &e.output[first + 3..first + 3 + count]);
    }
}
