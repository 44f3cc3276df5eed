use xiangqi::fen::{fen_to_matrix, matrix_to_fen};

#[test]
fn fen_reads_pieces_and_gaps() {
    let m = fen_to_matrix("4k4/9/9/9/4R4/9/9/9/4K4/9 w");
    let mut want = [0i8; 90];
    want[4] = -1;
    want[40] = 5;
    want[76] = 1;
    assert_eq!(m, want);
}

#[test]
fn fen_reads_every_letter() {
    let m = fen_to_matrix("KABNRCPkabnrcp");
    let want: Vec<i8> = vec![1, 2, 3, 4, 5, 6, 7, -1, -2, -3, -4, -5, -6, -7];
    assert_eq!(m[..14].to_vec(), want);
    assert!(m[14..].iter().all(|&x| x == 0));
}

#[test]
fn fen_stops_at_a_space_and_skips_unknown_characters() {
    let m = fen_to_matrix("x2R R");
    let mut want = [0i8; 90];
    want[2] = 5;
    assert_eq!(m, want);
}

#[test]
fn fen_drops_pieces_past_the_board() {
    let m = fen_to_matrix("9/9/9/9/9/9/9/9/9/8RR");
    assert_eq!(m[89], 5);
    assert_eq!(m[88], 0);
}

#[test]
fn fen_writes_rows_with_gaps() {
    let mut m = [0i8; 90];
    m[4] = -1;
    m[8] = -5;
    m[40] = 5;
    m[44] = 6;
    assert_eq!(matrix_to_fen(&m), "4k3r////4R3C/////");
}

#[test]
fn fen_write_then_read_gives_the_board_back() {
    let mut m = [0i8; 90];
    for r in 0..9 {
        m[r * 9 + 8] = if r % 2 == 0 { 7 } else { -7 };
    }
    m[4] = -1;
    m[13] = -2;
    m[76] = 1;
    m[40] = 4;
    m[82] = 3;
    let s = matrix_to_fen(&m);
    assert_eq!(fen_to_matrix(&s), m);
}

#[test]
fn fen_write_drops_trailing_gaps() {
    let mut m = [0i8; 90];
    m[0] = 5;
    m[9] = 5;
    assert_eq!(matrix_to_fen(&m), "R/R////////");
    let back = fen_to_matrix(&matrix_to_fen(&m));
    assert_eq!(back[0], 5);
    assert_eq!(back[1], 5);
    assert_eq!(back[9], 0);
}
