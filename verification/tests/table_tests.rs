use xiangqi::common::{Move, ALPHA, B, BETA, EXACT, INVALID_VL, R};
use xiangqi::heuristic::{sort_by_history, HistoryTable, KillerTable, TTEntry, TT};

fn pairs(v: &[Move]) -> Vec<(u8, u8)> {
    v.iter().map(|m| (m.beg, m.end)).collect()
}

#[test]
fn history_orders_by_score_then_squares() {
    let mut h = HistoryTable::new();
    h.set(Move::new(10, 20), R, 3);
    h.set(Move::new(5, 6), R, 2);
    let mut moves = vec![Move::new(1, 2), Move::new(5, 6), Move::new(10, 20), Move::new(1, 1)];
    sort_by_history(&h, &mut moves, R);
    assert_eq!(pairs(&moves), vec![(10, 20), (5, 6), (1, 1), (1, 2)]);
    let mut moves = vec![Move::new(1, 2), Move::new(5, 6), Move::new(10, 20), Move::new(1, 1)];
    sort_by_history(&h, &mut moves, B);
    assert_eq!(pairs(&moves), vec![(1, 1), (1, 2), (5, 6), (10, 20)]);
}

#[test]
fn history_scores_add_up() {
    let mut h = HistoryTable::new();
    h.set(Move::new(1, 2), B, 2);
    h.set(Move::new(1, 2), B, 2);
    h.set(Move::new(3, 4), B, 3);
    let mut moves = vec![Move::new(3, 4), Move::new(1, 2)];
    sort_by_history(&h, &mut moves, B);
    assert_eq!(pairs(&moves), vec![(3, 4), (1, 2)]);
    // a tie (9 and 9) goes to the lower start square
    h.set(Move::new(1, 2), B, 1);
    let mut moves = vec![Move::new(3, 4), Move::new(1, 2)];
    sort_by_history(&h, &mut moves, B);
    assert_eq!(pairs(&moves), vec![(1, 2), (3, 4)]);
    h.set(Move::new(3, 4), B, 1);
    let mut moves = vec![Move::new(1, 2), Move::new(3, 4)];
    sort_by_history(&h, &mut moves, B);
    assert_eq!(pairs(&moves), vec![(3, 4), (1, 2)]);
}

#[test]
fn killer_table_keeps_the_last_two() {
    let mut k = KillerTable::new();
    assert_eq!(pairs(&k.get(3)), vec![(0, 0), (0, 0)]);
    k.set(Move::new(1, 2), 3);
    assert_eq!(pairs(&k.get(3)), vec![(1, 2), (0, 0)]);
    k.set(Move::new(5, 6), 3);
    assert_eq!(pairs(&k.get(3)), vec![(5, 6), (1, 2)]);
    k.set(Move::new(5, 6), 3);
    assert_eq!(pairs(&k.get(3)), vec![(5, 6), (1, 2)]);
    assert_eq!(pairs(&k.get(4)), vec![(0, 0), (0, 0)]);
}

#[test]
fn tt_entry_default_is_empty() {
    let e = TTEntry::default();
    assert_eq!((e.key, e.flag, e.vl, e.depth, e.mv.beg, e.mv.end), (0, 0, 0, 0, 0, 0));
}

#[test]
fn tt_reads_back_what_was_stored() {
    let mut tt = TT::new(4);
    tt.set(5, EXACT, 3, Move::new(1, 2), 100);
    let m = tt.get_move(5);
    assert_eq!((m.beg, m.end), (1, 2));
    assert_eq!(tt.get_vl(5, 3, -30000, 30000), 100);
    assert_eq!(tt.get_vl(5, 2, -30000, 30000), 100);
    assert_eq!(tt.get_vl(5, 4, -30000, 30000), INVALID_VL);
    // key 21 uses the same slot but is another key
    let m = tt.get_move(21);
    assert_eq!((m.beg, m.end), (0, 0));
    assert_eq!(tt.get_vl(21, 0, -30000, 30000), INVALID_VL);
}

#[test]
fn tt_keeps_deeper_entries_of_the_same_key() {
    let mut tt = TT::new(4);
    tt.set(5, EXACT, 3, Move::new(1, 2), 100);
    tt.set(5, EXACT, 2, Move::new(3, 4), 50);
    assert_eq!(pairs(&[tt.get_move(5)]), vec![(1, 2)]);
    tt.set(5, EXACT, 3, Move::new(3, 4), 50);
    assert_eq!(pairs(&[tt.get_move(5)]), vec![(3, 4)]);
    // another key in the slot replaces it
    tt.set(21, EXACT, 0, Move::new(7, 8), 1);
    assert_eq!(pairs(&[tt.get_move(21)]), vec![(7, 8)]);
    assert_eq!(pairs(&[tt.get_move(5)]), vec![(0, 0)]);
}

#[test]
fn tt_bounds_apply_to_the_window() {
    let mut tt = TT::new(4);
    tt.set(6, ALPHA, 3, Move::new(1, 2), 40);
    assert_eq!(tt.get_vl(6, 1, 50, 60), 40);
    assert_eq!(tt.get_vl(6, 1, 30, 60), INVALID_VL);
    tt.set(7, BETA, 3, Move::new(1, 2), 70);
    assert_eq!(tt.get_vl(7, 1, 50, 60), 70);
    assert_eq!(tt.get_vl(7, 1, 50, 80), INVALID_VL);
}

#[test]
fn tt_init_empties_the_table() {
    let mut tt = TT::new(4);
    tt.set(5, EXACT, 3, Move::new(1, 2), 100);
    tt.init(2);
    assert_eq!(pairs(&[tt.get_move(5)]), vec![(0, 0)]);
    assert_eq!(tt.get_vl(5, 0, -30000, 30000), INVALID_VL);
}
