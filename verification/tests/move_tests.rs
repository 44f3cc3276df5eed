use xiangqi::common::Move;

#[test]
fn move_new_keeps_squares() {
    let m = Move::new(12, 34);
    assert_eq!(m.beg, 12);
    assert_eq!(m.end, 34);
}

#[test]
fn move_default_is_null() {
    let m = Move::default();
    assert_eq!((m.beg, m.end), (0, 0));
    assert!(!bool::from(m));
}

#[test]
fn move_into_bool_tells_real_moves() {
    assert!(!bool::from(Move::new(3, 3)));
    assert!(bool::from(Move::new(3, 4)));
}

#[test]
fn from_ucimove_reads_squares() {
    let m = Move::from_ucimove("h2e2");
    assert_eq!((m.beg, m.end), (70, 67));
    let m = Move::from_ucimove("a9i0");
    assert_eq!((m.beg, m.end), (0, 89));
}

#[test]
fn from_ucimove_rejects_bad_text() {
    for s in ["", "h2e", "h2e2x", "j2e2", "h2e:", "h2h2", "H2E2"] {
        let m = Move::from_ucimove(s);
        assert_eq!((m.beg, m.end), (0, 0), "{}", s);
    }
}

#[test]
fn to_ucimove_writes_squares() {
    assert_eq!(Move::new(70, 67).to_ucimove(), "h2e2");
    assert_eq!(Move::new(0, 89).to_ucimove(), "a9i0");
    assert_eq!(Move::new(40, 4).to_ucimove(), "e5e9");
}

#[test]
fn uci_text_round_trips() {
    for (b, e) in [(70u8, 67u8), (0, 89), (40, 4), (81, 8), (13, 76)] {
        let m = Move::from_ucimove(&Move::new(b, e).to_ucimove());
        assert_eq!((m.beg, m.end), (b, e));
    }
}

#[test]
fn into_u32_packs_squares() {
    assert_eq!(Move::new(1, 2).into_u32(), 102);
    assert_eq!(Move::new(2, 55).into_u32(), 255);
    assert_eq!(Move::new(0, 7).into_u32(), 7);
}
