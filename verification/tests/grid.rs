use grid_puzzles::grid::{
    gen_field, gen_field_color, remove_color, reversed, write_block, write_block_wrapped,
    write_dots, Dot, COLORS,
};

#[test]
fn empty_field_is_all_background() {
    assert_eq!(gen_field(4), vec![0, 0, 0, 0]);
    assert_eq!(gen_field(0), Vec::<u8>::new());
}

#[test]
fn colored_field_holds_one_color() {
    assert_eq!(gen_field_color(3, 7), vec![7, 7, 7]);
    assert_eq!(gen_field_color(0, 7), Vec::<u8>::new());
}

#[test]
fn alphabet_has_nine_colors() {
    assert_eq!(COLORS, 9);
}

#[test]
fn write_block_overwrites_its_span_only() {
    assert_eq!(write_block(2, &[1, 2], vec![9, 9, 9, 9, 9]), vec![9, 9, 1, 2, 9]);
    assert_eq!(write_block(0, &[1, 2, 3], vec![0, 0, 0]), vec![1, 2, 3]);
    assert_eq!(write_block(3, &[], vec![5, 5, 5]), vec![5, 5, 5]);
}

#[test]
fn write_block_wrapped_goes_round_the_edge() {
    assert_eq!(write_block_wrapped(4, &[1, 2, 3], vec![0, 0, 0, 0, 0]), vec![2, 3, 0, 0, 1]);
    assert_eq!(write_block_wrapped(1, &[1, 2], vec![0, 0, 0, 0]), vec![0, 1, 2, 0]);
    assert_eq!(write_block_wrapped(7, &[6], vec![0, 0, 0]), vec![0, 6, 0]);
}

#[test]
fn write_block_wrapped_lets_the_later_cell_win() {
    assert_eq!(write_block_wrapped(1, &[1, 2, 3, 4, 5], vec![9, 9, 9]), vec![3, 4, 5]);
}

#[test]
fn write_block_wrapped_takes_an_empty_block_on_an_empty_field() {
    assert_eq!(write_block_wrapped(3, &[], vec![]), Vec::<u8>::new());
}

#[test]
fn remove_color_keeps_the_order() {
    assert_eq!(remove_color(0, vec![0, 3, 0, 0, 5, 0]), vec![3, 5]);
    assert_eq!(remove_color(3, vec![3, 3]), Vec::<u8>::new());
    assert_eq!(remove_color(1, vec![2, 1, 2, 1, 4]), vec![2, 2, 4]);
}

#[test]
fn reversed_reads_from_the_right() {
    assert_eq!(reversed(&[1, 2, 3]), vec![3, 2, 1]);
    assert_eq!(reversed(&[]), Vec::<u8>::new());
}

#[test]
fn later_dot_wins_a_shared_cell() {
    let dots = [Dot { pos: 1, color: 4 }, Dot { pos: 3, color: 5 }, Dot { pos: 1, color: 6 }];
    assert_eq!(write_dots(&dots, vec![0, 0, 0, 0]), vec![0, 6, 0, 5]);
}
