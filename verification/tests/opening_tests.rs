use xiangqi::common::{Move, B, B_KING, B_ROOK, R, R_KING, R_PAWN, R_ROOK};
use xiangqi::evaluate::evaluate;
use xiangqi::fen::fen_to_matrix;
use xiangqi::position::Position;

const OPENING: &str = "rnbakabnr/9/1c5c1/p1p1p1p1p/9/9/P1P1P1P1P/1C5C1/9/RNBAKABNR w";

fn opening(team: i8) -> Position {
    let mut p = Position::new();
    p.init(&fen_to_matrix(OPENING), team);
    p
}

fn pairs(v: &[Move]) -> Vec<(u8, u8)> {
    v.iter().map(|m| (m.beg, m.end)).collect()
}

#[test]
fn opening_position_sets_up_with_the_last_row() {
    let p = opening(R);
    assert_eq!(p.get_piece(85), R_KING);
    assert_eq!(p.get_piece(81), R_ROOK);
    assert_eq!(p.get_piece(4), B_KING);
    assert_eq!(p.get_piece(0), B_ROOK);
    assert_eq!(p.get_bl9(85), 511);
    assert_eq!(p.get_bl9(0), 511);
    assert_eq!(p.get_bl9(40), 0);
    // column 0: rows 0, 3, 6 and 9
    assert_eq!(p.get_bl10(0), 1 + 8 + 64 + 512);
    assert_eq!(p.get_pos_list()[0], 85);
    assert_eq!(p.get_pos_list().len(), 16);
    assert_eq!(p.list_for(B)[0], 4);
    // the two sides mirror each other
    assert_eq!(p.eval_value(), 0);
}

#[test]
fn opening_scores_differ_only_by_the_tempo() {
    let r = opening(R);
    let b = opening(B);
    assert_eq!(evaluate(&r) as i32 + evaluate(&b) as i32, 16);
}

#[test]
fn opening_moves_include_pawn_steps() {
    let p = opening(R);
    let all = pairs(&p.gen_all_moves());
    for m in [(54u8, 45u8), (56, 47), (58, 49), (60, 51), (62, 53)] {
        assert!(all.contains(&m));
    }
    let mut parts = pairs(&p.gen_capture_moves());
    parts.extend(pairs(&p.gen_quiet_moves()));
    let mut all_sorted = all.clone();
    all_sorted.sort();
    parts.sort();
    assert_eq!(all_sorted, parts);
    for (beg, _) in &all {
        assert!(p.get_piece(*beg) > 0);
    }
}

#[test]
fn pawn_steps_sideways_across_the_river() {
    let mut b = [0i8; 90];
    b[4] = B_KING;
    b[85] = R_KING;
    b[40] = R_PAWN;
    let mut p = Position::new();
    p.init(&b, R);
    let moves = pairs(&p.gen_quiet_moves());
    let pawn: Vec<(u8, u8)> = moves.into_iter().filter(|m| m.0 == 40).collect();
    assert_eq!(pawn, vec![(40, 31), (40, 39), (40, 41)]);
}

#[test]
fn king_moves_on_the_last_row_and_back() {
    let mut p = opening(R);
    let key0 = p.key_value();
    p.do_move(Move::new(85, 76));
    assert_eq!(p.get_piece(76), R_KING);
    assert_eq!(p.get_bl9(85), 511 - 16);
    assert_eq!(p.list_for(R)[0], 76);
    p.undo_move();
    assert_eq!(p.get_piece(85), R_KING);
    assert_eq!(p.get_bl9(85), 511);
    assert_eq!(p.list_for(R)[0], 85);
    assert_eq!(p.key_value(), key0);
}

#[test]
fn pass_keeps_the_score_but_the_tempo() {
    let mut p = opening(R);
    let before = evaluate(&p);
    p.do_null();
    assert_eq!(before as i32 + evaluate(&p) as i32, 16);
}
