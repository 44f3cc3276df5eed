use xiangqi::common::{Move, B, B_KING, B_KNIGHT, B_PAWN, B_ROOK, R, R_KING, R_KNIGHT, R_PAWN, R_ROOK, INVALID_POS};
use xiangqi::position::Position;
use xiangqi::pst::pst;

fn board_with(pieces: &[(usize, i8)]) -> [i8; 90] {
    let mut b = [0i8; 90];
    for &(pos, p) in pieces {
        b[pos] = p;
    }
    b
}

fn position(pieces: &[(usize, i8)], team: i8) -> Position {
    let mut p = Position::new();
    p.init(&board_with(pieces), team);
    p
}

/// Kings on column 4 and a red rook between them.
fn kings_and_rook() -> Position {
    position(&[(4, B_KING), (76, R_KING), (40, R_ROOK)], R)
}

#[test]
fn new_position_is_empty() {
    let p = Position::new();
    for pos in 0..90u8 {
        assert_eq!(p.get_piece(pos), 0);
    }
    assert_eq!(p.side_to_move(), R);
    assert_eq!(p.key_value(), 0);
    assert_eq!(p.eval_value(), 0);
}

#[test]
fn init_places_pieces_and_lists_king_first() {
    let p = kings_and_rook();
    assert_eq!(p.get_piece(40), R_ROOK);
    assert_eq!(p.get_piece(4), B_KING);
    assert_eq!(p.get_piece(76), R_KING);
    assert_eq!(p.get_piece(95), 0);
    assert_eq!(p.get_pos_list(), vec![76, 40]);
    assert_eq!(p.side_to_move(), R);
}

#[test]
fn init_builds_the_lines() {
    let p = kings_and_rook();
    assert_eq!(p.get_bl9(40), 16);
    assert_eq!(p.get_bl9(4), 16);
    assert_eq!(p.get_bl9(76), 16);
    assert_eq!(p.get_bl10(4), 273);
    assert_eq!(p.get_bl10(40), 273);
    assert_eq!(p.get_bl10(0), 0);
}

#[test]
fn init_sums_the_square_values() {
    let p = kings_and_rook();
    assert_eq!(p.eval_value(), 635);
    let q = position(&[(4, B_KING), (76, R_KING), (40, R_ROOK), (31, B_ROOK)], R);
    assert_eq!(q.eval_value(), 635 - pst(B, R_ROOK, 31));
}

#[test]
fn same_board_gives_same_key() {
    let a = kings_and_rook();
    let b = kings_and_rook();
    assert_eq!(a.key_value(), b.key_value());
    let c = position(&[(4, B_KING), (76, R_KING), (40, R_ROOK)], B);
    assert_ne!(a.key_value(), c.key_value());
}

#[test]
fn eval_add_remove_slide_follow_the_square_values() {
    let mut p = Position::new();
    p.eval_add(R, R_ROOK, 40);
    assert_eq!(p.eval_value(), 635);
    p.eval_add(B, R_ROOK, 49);
    assert_eq!(p.eval_value(), 0);
    p.eval_slide(R, R_ROOK, 40, 37);
    assert_eq!(p.eval_value(), 615 - 635);
    p.eval_remove(B, R_ROOK, 49);
    assert_eq!(p.eval_value(), 615);
    p.eval_reset();
    assert_eq!(p.eval_value(), 0);
}

#[test]
fn target_chk_by_kind() {
    let p = position(&[(4, B_KING), (76, R_KING), (40, R_ROOK), (31, B_ROOK), (45, B_PAWN)], R);
    // 0: quiet, 1: capture, 2: all
    assert!(p.target_chk(37, 0));
    assert!(!p.target_chk(37, 1));
    assert!(p.target_chk(37, 2));
    assert!(p.target_chk(31, 1));
    assert!(!p.target_chk(31, 0));
    assert!(!p.target_chk(40, 2));
    assert!(!p.target_chk(4, 1));
    assert!(!p.target_chk(90, 2));
}

#[test]
fn kings_facing_on_an_empty_column() {
    let p = position(&[(4, B_KING), (76, R_KING)], R);
    assert!(p.face_king());
    assert!(!kings_and_rook().face_king());
    let q = position(&[(3, B_KING), (76, R_KING)], R);
    assert!(!q.face_king());
}

#[test]
fn do_move_and_undo_move_restore_the_position() {
    let mut p = kings_and_rook();
    let key0 = p.key_value();
    let eval0 = p.eval_value();
    p.do_move(Move::new(40, 37));
    assert_eq!(p.get_piece(37), R_ROOK);
    assert_eq!(p.get_piece(40), 0);
    assert_eq!(p.side_to_move(), B);
    assert_eq!(p.eval_value(), 615);
    assert_eq!(p.get_bl9(37), 2);
    assert_eq!(p.get_bl10(37), 16);
    assert_eq!(p.get_bl10(40), 257);
    p.undo_move();
    assert_eq!(p.get_piece(40), R_ROOK);
    assert_eq!(p.get_piece(37), 0);
    assert_eq!(p.side_to_move(), R);
    assert_eq!(p.key_value(), key0);
    assert_eq!(p.eval_value(), eval0);
    assert_eq!(p.get_bl9(40), 16);
    assert_eq!(p.get_bl10(40), 273);
}

#[test]
fn do_move_key_matches_a_fresh_position() {
    let mut p = kings_and_rook();
    p.do_move(Move::new(40, 37));
    let q = position(&[(4, B_KING), (76, R_KING), (37, R_ROOK)], B);
    assert_eq!(p.key_value(), q.key_value());
    assert_eq!(p.eval_value(), q.eval_value());
}

#[test]
fn capture_and_undo() {
    let pieces = [(4, B_KING), (76, R_KING), (40, R_ROOK), (31, B_ROOK), (45, B_PAWN)];
    let mut p = position(&pieces, R);
    let key0 = p.key_value();
    let eval0 = p.eval_value();
    p.do_move(Move::new(40, 31));
    assert_eq!(p.get_piece(31), R_ROOK);
    assert_eq!(p.get_piece(40), 0);
    assert_eq!(p.eval_value(), pst(R, R_ROOK, 31) - pst(B, 7, 45));
    let q = position(&[(4, B_KING), (76, R_KING), (31, R_ROOK), (45, B_PAWN)], B);
    assert_eq!(p.key_value(), q.key_value());
    assert_eq!(p.get_pos_list(), vec![4, 45]);
    p.undo_move();
    assert_eq!(p.get_piece(31), B_ROOK);
    assert_eq!(p.get_piece(40), R_ROOK);
    assert_eq!(p.key_value(), key0);
    assert_eq!(p.eval_value(), eval0);
    assert_eq!(p.get_pos_list(), vec![76, 40]);
}

#[test]
fn null_move_twice_restores_key_and_side() {
    let mut p = kings_and_rook();
    let key0 = p.key_value();
    p.do_null();
    assert_eq!(p.side_to_move(), B);
    assert_ne!(p.key_value(), key0);
    let q = position(&[(4, B_KING), (76, R_KING), (40, R_ROOK)], B);
    assert_eq!(p.key_value(), q.key_value());
    p.undo_null();
    assert_eq!(p.side_to_move(), R);
    assert_eq!(p.key_value(), key0);
}

#[test]
fn in_check_by_knight_and_pawn() {
    let p = position(&[(4, B_KING), (76, R_KING), (57, B_KNIGHT)], R);
    assert!(p.in_check());
    let p = position(&[(4, B_KING), (76, R_KING), (67, B_PAWN)], R);
    assert!(p.in_check());
    assert!(!kings_and_rook().in_check());
}

#[test]
fn in_check_stops_at_the_first_empty_knight_leg() {
    // kings facing each other, but the empty square 66 ends the test
    let p = position(&[(4, B_KING), (76, R_KING)], R);
    assert!(!p.in_check());
}

#[test]
fn legal_move_by_piece() {
    let p = position(&[(4, B_KING), (76, R_KING), (40, R_ROOK), (22, R_KNIGHT), (31, B_ROOK)], R);
    assert!(p.legal_move(Move::new(76, 75)));
    assert!(p.legal_move(Move::new(76, 67)));
    assert!(!p.legal_move(Move::new(76, 58)));
    assert!(!p.legal_move(Move::new(40, 37)));
    assert!(!p.legal_move(Move::new(31, 30)));
    assert!(!p.legal_move(Move::new(22, 4)));
    // a knight leg that is empty
    assert!(p.legal_move(Move::new(22, 3)));
}

#[test]
fn get_protector_finds_guards() {
    let p = kings_and_rook();
    assert_eq!(p.get_protector(37), 40);
    let q = position(&[(4, B_KING), (76, R_KING)], R);
    assert_eq!(q.get_protector(37), INVALID_POS);
    let r = position(&[(4, B_KING), (76, R_KING), (41, R_PAWN)], R);
    assert_eq!(r.get_protector(40), 41);
}

#[test]
fn is_repeat_needs_checking_moves() {
    let mut p = kings_and_rook();
    p.do_move(Move::new(40, 37));
    p.do_move(Move::new(4, 3));
    p.do_move(Move::new(37, 40));
    p.do_move(Move::new(3, 4));
    assert_eq!(p.key_value(), kings_and_rook().key_value());
    assert!(!p.is_repeat());
}

#[test]
fn list_for_gives_each_side() {
    let p = position(&[(4, B_KING), (76, R_KING), (40, R_ROOK), (31, B_ROOK), (45, B_PAWN)], R);
    assert_eq!(p.list_for(R).clone(), vec![76, 40]);
    assert_eq!(p.list_for(B).clone(), vec![4, 31, 45]);
}

#[test]
fn king_steps_onto_the_last_row() {
    let mut p = kings_and_rook();
    p.do_move(Move::new(76, 85));
    assert_eq!(p.get_piece(85), R_KING);
    assert_eq!(p.get_bl9(85), 16);
    assert_eq!(p.get_bl10(85), 1 + 16 + 512);
    assert_eq!(p.list_for(R)[0], 85);
    p.undo_move();
    assert_eq!(p.get_bl9(85), 0);
    assert_eq!(p.get_bl10(76), 1 + 16 + 256);
}
