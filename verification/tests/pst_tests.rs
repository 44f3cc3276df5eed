use xiangqi::common::{B, R, R_KING, R_PAWN, R_ROOK, R_KNIGHT, R_CANNON};
use xiangqi::pst::pst;

#[test]
fn pst_reads_red_squares() {
    assert_eq!(pst(R, R_ROOK, 40), 635);
    assert_eq!(pst(R, R_ROOK, 0), 610);
    assert_eq!(pst(R, R_PAWN, 4), 150);
    assert_eq!(pst(R, R_KNIGHT, 40), 300);
    assert_eq!(pst(R, R_CANNON, 40), 310);
}

#[test]
fn pst_mirrors_black_squares() {
    assert_eq!(pst(B, R_ROOK, 49), 635);
    assert_eq!(pst(B, R_ROOK, 89), 610);
    assert_eq!(pst(B, R_ROOK, 0), 590);
}

#[test]
fn pst_gives_zero_for_the_king() {
    assert_eq!(pst(R, R_KING, 76), 0);
    assert_eq!(pst(B, R_KING, 4), 0);
}
