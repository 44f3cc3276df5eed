use xiangqi::common::{Move, B_KING, B_ROOK, B_PAWN, R, R_KING, R_ROOK, R_KNIGHT};
use xiangqi::heuristic::{HistoryTable, KillerTable, TT};
use xiangqi::moves::MovePicker;
use xiangqi::position::Position;

fn position(pieces: &[(usize, i8)], team: i8) -> Position {
    let mut b = [0i8; 90];
    for &(pos, p) in pieces {
        b[pos] = p;
    }
    let mut p = Position::new();
    p.init(&b, team);
    p
}

fn pairs(v: &[Move]) -> Vec<(u8, u8)> {
    v.iter().map(|m| (m.beg, m.end)).collect()
}

fn kings_and_rook() -> Position {
    position(&[(4, B_KING), (76, R_KING), (40, R_ROOK)], R)
}

const KING_STEPS: [(u8, u8); 4] = [(76, 85), (76, 67), (76, 75), (76, 77)];
const ROOK_QUIET: [(u8, u8); 14] = [
    (40, 39), (40, 38), (40, 37), (40, 36), (40, 41), (40, 42), (40, 43), (40, 44), (40, 31), (40, 22), (40, 13),
    (40, 49), (40, 58), (40, 67),
];

#[test]
fn quiet_moves_in_list_order() {
    let p = kings_and_rook();
    let mut want: Vec<(u8, u8)> = KING_STEPS.to_vec();
    want.extend(ROOK_QUIET);
    assert_eq!(pairs(&p.gen_quiet_moves()), want);
}

#[test]
fn no_captures_without_targets() {
    let p = kings_and_rook();
    assert!(p.gen_capture_moves().is_empty());
}

#[test]
fn all_moves_are_quiet_and_capture_moves() {
    let p = kings_and_rook();
    assert_eq!(pairs(&p.gen_all_moves()), pairs(&p.gen_quiet_moves()));
    let q = position(&[(4, B_KING), (76, R_KING), (40, R_ROOK), (31, B_ROOK), (45, B_PAWN)], R);
    let mut all = pairs(&q.gen_all_moves());
    let mut parts = pairs(&q.gen_capture_moves());
    parts.extend(pairs(&q.gen_quiet_moves()));
    all.sort();
    parts.sort();
    assert_eq!(all, parts);
    assert_eq!(pairs(&q.gen_capture_moves()), vec![(40, 31)]);
}

#[test]
fn knight_moves_behind_empty_legs() {
    let p = position(&[(4, B_KING), (76, R_KING), (40, R_KNIGHT)], R);
    let mut want: Vec<(u8, u8)> = KING_STEPS.to_vec();
    want.extend([(40, 21), (40, 23), (40, 59), (40, 57), (40, 29), (40, 47), (40, 51), (40, 33)]);
    assert_eq!(pairs(&p.gen_all_moves()), want);
}

#[test]
fn move_picker_hands_out_each_move_once() {
    let p = kings_and_rook();
    let h = HistoryTable::new();
    let mut k = KillerTable::new();
    k.set(Move::new(76, 67), 2);
    let mut tt = TT::new(4);
    tt.set(p.key_value(), 0, 1, Move::new(76, 75), 0);
    let mut mp = MovePicker::new(2, &k, &tt, &p);
    let mut got = Vec::new();
    loop {
        let m = mp.next(&p, &h);
        if m.beg == m.end {
            break;
        }
        got.push((m.beg, m.end));
    }
    let want = vec![
        (76, 75),
        (76, 67),
        (40, 13),
        (40, 22),
        (40, 31),
        (40, 36),
        (40, 37),
        (40, 38),
        (40, 39),
        (40, 41),
        (40, 42),
        (40, 43),
        (40, 44),
        (40, 49),
        (40, 58),
        (40, 67),
        (76, 77),
        (76, 85),
    ];
    assert_eq!(got, want);
}

#[test]
fn rook_on_the_corner_moves_to_the_edges() {
    let p = position(&[(3, B_KING), (85, R_KING), (81, R_ROOK)], R);
    let mut got = pairs(&p.gen_quiet_moves());
    got.sort();
    let mut want = vec![
        (81, 82), (81, 83), (81, 84), (81, 72), (81, 63), (81, 54), (81, 45), (81, 36), (81, 27), (81, 18),
        (81, 9), (81, 0), (85, 76), (85, 84), (85, 86),
    ];
    want.sort();
    assert_eq!(got, want);
}
