use grid_puzzles::render::{create_grid_html, create_palette_html, decimal, CELL_SIZE};

#[test]
fn decimal_writes_the_digits() {
    assert_eq!(decimal(0), "0");
    assert_eq!(decimal(7), "7");
    assert_eq!(decimal(10), "10");
    assert_eq!(decimal(109), "109");
    assert_eq!(decimal(1234567890), "1234567890");
    assert_eq!(decimal(usize::MAX), usize::MAX.to_string());
}

#[test]
fn cells_are_fifteen_pixels_wide() {
    assert_eq!(CELL_SIZE, 15);
}

#[test]
fn grid_is_one_cell_for_each_color() {
    assert_eq!(
        create_grid_html(&[0, 3], 2),
        "<div class=\"grid\" style=\"grid-template-columns: repeat(2, 15px);\">\
         <div class=\"cell color-0\"></div><div class=\"cell color-3\"></div></div>"
    );
}

#[test]
fn empty_grid_has_no_cells() {
    assert_eq!(
        create_grid_html(&[], 12),
        "<div class=\"grid\" style=\"grid-template-columns: repeat(12, 15px);\"></div>"
    );
}

#[test]
fn palette_shows_the_colors_that_are_set() {
    assert_eq!(
        create_palette_html("New colors", &[false, true, false, true]),
        "<div>New colors:</div><div class=\"palette\">\
         <div class=\"cell color-1\"></div><div class=\"cell color-3\"></div></div>"
    );
    let mut wide = vec![false; 12];
    wide[11] = true;
    assert_eq!(
        create_palette_html("", &wide),
        "<div>:</div><div class=\"palette\"><div class=\"cell color-11\"></div></div>"
    );
}

#[test]
fn palette_without_colors_is_not_shown() {
    assert_eq!(create_palette_html("Output palette", &[false, false]), "");
    assert_eq!(create_palette_html("Output palette", &[]), "");
}
