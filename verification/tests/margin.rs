use rutile::terminal::margin::{margin_offset, MARGIN_COLUMN, MAX_CHAR_WIDTH};

#[test]
fn margin_guide_sits_eighty_cells_in() {
    assert_eq!(MARGIN_COLUMN, 80);
    assert_eq!(margin_offset(9), 720);
    assert_eq!(margin_offset(1), 80);
}

#[test]
fn margin_guide_counts_a_cell_as_at_least_one_pixel() {
    assert_eq!(margin_offset(0), 80);
    assert_eq!(margin_offset(-4), 80);
}

#[test]
fn margin_guide_offset_fits_at_the_widest_cell() {
    assert_eq!(margin_offset(MAX_CHAR_WIDTH), 2_147_483_600);
}
