use xiangqi::common::{B, B_KING, R, R_KING, R_ROOK};
use xiangqi::evaluate::evaluate;
use xiangqi::position::Position;

fn position(pieces: &[(usize, i8)], team: i8) -> Position {
    let mut b = [0i8; 90];
    for &(pos, p) in pieces {
        b[pos] = p;
    }
    let mut p = Position::new();
    p.init(&b, team);
    p
}

#[test]
fn kings_alone_score_the_tempo() {
    assert_eq!(evaluate(&position(&[(4, B_KING), (76, R_KING)], R)), 8);
    assert_eq!(evaluate(&position(&[(4, B_KING), (76, R_KING)], B)), 8);
}

#[test]
fn rook_adds_value_mobility_open_file_and_shape() {
    // 635 for the square, 30 mobility, 18 open file, 10 + 15 shape, 8 tempo
    let pieces = [(4, B_KING), (76, R_KING), (40, R_ROOK)];
    assert_eq!(evaluate(&position(&pieces, R)), 716);
    assert_eq!(evaluate(&position(&pieces, B)), -700);
}
