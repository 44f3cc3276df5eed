use xiangqi::lines::{cannon10, cannon9, rook10, rook9};

#[test]
fn rook9_finds_nearest_pieces_on_the_row() {
    // pieces on columns 2, 4 and 7
    assert_eq!(rook9(148, 4), (2, 7));
    assert_eq!(rook9(148, 40), (38, 43));
}

#[test]
fn rook9_without_other_pieces_gives_the_row_ends() {
    assert_eq!(rook9(16, 4), (0, 8));
    assert_eq!(rook9(16, 40), (36, 44));
    // columns 0 and 4: blocker on the left, open to the right
    assert_eq!(rook9(0b000010001, 40), (36, 44));
}

#[test]
fn rook10_finds_nearest_pieces_on_the_column() {
    // pieces on rows 2, 4 and 7 of column 4
    assert_eq!(rook10(148, 40), (22, 67));
    // rows 0, 4 and 8
    assert_eq!(rook10(273, 40), (4, 76));
    // only row 4: the column ends, rows 0 and 9
    assert_eq!(rook10(16, 40), (4, 85));
}

#[test]
fn cannon9_finds_pieces_behind_a_screen() {
    // pieces on columns 0, 2, 4, 7, 8
    assert_eq!(cannon9(405, 4), (0, 8));
    // columns 0, 4 and 8: the screen on 4 makes column 0 a target
    assert_eq!(cannon9(0b100010001, 8), (0, 100));
    // no second piece on either side
    assert_eq!(cannon9(148, 4), (100, 100));
    assert_eq!(cannon9(148, 40), (136, 136));
}

#[test]
fn cannon10_finds_targets_and_wraps_without_one() {
    assert_eq!(cannon10(405, 40), (4, 76));
    // rows 0, 2 and 4 at square 36: target on row 0 above, none below
    assert_eq!(cannon10(0b10101, 36), (0, 0u8.wrapping_add(100u8.wrapping_mul(9))));
}
