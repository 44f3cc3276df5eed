//! Reading and writing the piece placement field of a FEN string.

use vstd::prelude::*;
use vstd::string::*;
use crate::common::{Matrix, PType, push_char};

verus! {

/// The piece code of a FEN letter (`KABNRCP` red, `kabnrcp` black), or 0
/// for any other character.
pub open spec fn piece_code(c: char) -> i8 {
    if c == 'K' {
        1i8
    } else if c == 'A' {
        2i8
    } else if c == 'B' {
        3i8
    } else if c == 'N' {
        4i8
    } else if c == 'R' {
        5i8
    } else if c == 'C' {
        6i8
    } else if c == 'P' {
        7i8
    } else if c == 'k' {
        -1i8
    } else if c == 'a' {
        -2i8
    } else if c == 'b' {
        -3i8
    } else if c == 'n' {
        -4i8
    } else if c == 'r' {
        -5i8
    } else if c == 'c' {
        -6i8
    } else if c == 'p' {
        -7i8
    } else {
        0i8
    }
}

/// The FEN letter of a piece code in `-7..=7` other than 0.
pub open spec fn piece_letter(p: i8) -> char {
    if p == 1 {
        'K'
    } else if p == 2 {
        'A'
    } else if p == 3 {
        'B'
    } else if p == 4 {
        'N'
    } else if p == 5 {
        'R'
    } else if p == 6 {
        'C'
    } else if p == 7 {
        'P'
    } else if p == -1 {
        'k'
    } else if p == -2 {
        'a'
    } else if p == -3 {
        'b'
    } else if p == -4 {
        'n'
    } else if p == -5 {
        'r'
    } else if p == -6 {
        'c'
    } else {
        'p'
    }
}

/// The digit `1` to `9` standing for `n` empty squares.
pub open spec fn digit_char(n: int) -> char {
    (n + 48) as char
}

/// Whether `c` is one of the digits `1` to `9`.
pub open spec fn is_count(c: char) -> bool {
    49 <= c as u32 <= 57
}

/// The reading state: the board so far, the next square, and whether the
/// placement field has ended (at a space).
pub type FenState = (Seq<i8>, int, bool);

/// The empty board and the first square.
pub open spec fn fen_start() -> FenState {
    (Seq::new(90, |j: int| 0i8), 0, false)
}

/// Reading one character: a space ends the field, `/` is skipped, a digit
/// skips that many squares, a piece letter fills the next square while
/// squares are left; anything else is ignored.
pub open spec fn fen_step(st: FenState, c: char) -> FenState {
    if st.2 {
        st
    } else if c == ' ' {
        (st.0, st.1, true)
    } else if c == '/' {
        st
    } else if is_count(c) {
        (st.0, st.1 + (c as u32 - 48), false)
    } else if piece_code(c) != 0 && st.1 < 90 {
        (st.0.update(st.1, piece_code(c)), st.1 + 1, false)
    } else {
        st
    }
}

/// The state after reading all of `s` from `st`.
pub open spec fn fen_fold(st: FenState, s: Seq<char>) -> FenState
    decreases s.len(),
{
    if s.len() == 0 {
        st
    } else {
        fen_step(fen_fold(st, s.drop_last()), s.last())
    }
}

/// Whether reading `s` never carries the square count past 255.
pub open spec fn fen_fits(s: Seq<char>) -> bool {
    forall|k: int| 0 <= k <= s.len() ==> #[trigger] fen_fold(fen_start(), s.take(k)).1 < 256
}

/// The piece code of a FEN letter, or 0.
fn piece_of_char(c: char) -> (r: PType)
    ensures
        r == piece_code(c),
{
    match c {
        'K' => 1,
        'A' => 2,
        'B' => 3,
        'N' => 4,
        'R' => 5,
        'C' => 6,
        'P' => 7,
        'k' => -1,
        'a' => -2,
        'b' => -3,
        'n' => -4,
        'r' => -5,
        'c' => -6,
        'p' => -7,
        _ => 0,
    }
}

proof fn lemma_fold_done(s: Seq<char>, k: int)
    requires
        0 <= k <= s.len(),
        fen_fold(fen_start(), s.take(k)).2,
    ensures
        fen_fold(fen_start(), s) == fen_fold(fen_start(), s.take(k)),
    decreases s.len() - k,
{
    if k < s.len() {
        assert(s.take(k + 1).drop_last() == s.take(k));
        lemma_fold_done(s, k + 1);
    } else {
        assert(s.take(k) == s);
    }
}

/// Reads the placement field of `fen` (up to the first space) into a
/// board: rows from the top, digits for runs of empty squares, letters for
/// pieces; `/` and unknown characters are skipped, and pieces past the
/// last square are dropped.
pub fn fen_to_matrix(fen: &str) -> (m: Matrix)
    requires
        fen_fits(fen@),
    ensures
        m@ == fen_fold(fen_start(), fen@).0,
{
    let mut matrix: Matrix = [0i8; 90];
    let mut i: u8 = 0;
    let n = fen.unicode_len();
    let mut k: usize = 0;
    proof {
        assert(fen@.take(0) == Seq::<char>::empty());
        assert(matrix@ == fen_start().0);
        assert(fen@.take(n as int) == fen@);
    }
    while k < n
        invariant_except_break
            n == fen@.len(),
            fen@.take(n as int) == fen@,
            k <= n,
            fen_fits(fen@),
            fen_fold(fen_start(), fen@.take(k as int)) == (matrix@, i as int, false),
        ensures
            fen_fold(fen_start(), fen@) == (matrix@, i as int, false) || fen_fold(fen_start(), fen@) == (
                matrix@,
                i as int,
                true,
            ),
        decreases n - k,
    {
        let c = fen.get_char(k);
        proof {
            assert(fen@.take(k + 1).drop_last() == fen@.take(k as int));
            assert(fen@.take(k + 1).last() == c);
        }
        if c == ' ' {
            proof {
                lemma_fold_done(fen@, k + 1);
            }
            break;
        }
        if c == '/' {
            k += 1;
            continue;
        }
        let code = c as u32;
        if code >= 49 && code <= 57 {
            proof {
                assert(fen_fold(fen_start(), fen@.take(k + 1)).1 < 256);
            }
            i += (code - 48) as u8;
            k += 1;
            continue;
        }
        let p = piece_of_char(c);
        if p != 0 && i < 90 {
            matrix[i as usize] = p;
            i += 1;
        }
        k += 1;
    }
    matrix
}

/// The text written for columns `0..j` of row `r` of `m`, with the run of
/// empty squares not yet written: each piece is written as its letter,
/// after the digit of the empty run before it; a run at the end of the row
/// is not written.
pub open spec fn row_upto(m: Seq<i8>, r: int, j: int) -> (Seq<char>, int)
    decreases j,
{
    if j <= 0 {
        (Seq::empty(), 0)
    } else {
        let (t, e) = row_upto(m, r, j - 1);
        let p = m[r * 9 + j - 1];
        if p == 0 {
            (t, e + 1)
        } else {
            (t + (if e > 0 { seq![digit_char(e)] } else { Seq::empty() }) + seq![piece_letter(p)], 0)
        }
    }
}

/// The text of rows `0..n` of `m`, separated by `/`.
pub open spec fn fen_text(m: Seq<i8>, n: int) -> Seq<char>
    decreases n,
{
    if n <= 0 {
        Seq::empty()
    } else {
        fen_text(m, n - 1) + (if n > 1 { seq!['/'] } else { Seq::empty() }) + row_upto(m, n - 1, 9).0
    }
}

/// The FEN letter of a piece code.
fn letter_of_piece(p: PType) -> (c: char)
    requires
        -7 <= p <= 7,
        p != 0,
    ensures
        c == piece_letter(p),
{
    match p {
        1 => 'K',
        2 => 'A',
        3 => 'B',
        4 => 'N',
        5 => 'R',
        6 => 'C',
        7 => 'P',
        -1 => 'k',
        -2 => 'a',
        -3 => 'b',
        -4 => 'n',
        -5 => 'r',
        -6 => 'c',
        _ => 'p',
    }
}

/// Writes the placement field of a board: ten rows from the top separated
/// by `/`, each piece as its letter after the digit of the empty run before
/// it.  A run of empty squares at the end of a row is not written.
pub fn matrix_to_fen(matrix: &Matrix) -> (fen: String)
    requires
        forall|i: int| 0 <= i < 90 ==> -7 <= #[trigger] matrix@[i] <= 7,
    ensures
        fen@ == fen_text(matrix@, 10),
{
    let mut fen = String::new();
    let mut i: usize = 0;
    while i < 10
        invariant
            i <= 10,
            forall|x: int| 0 <= x < 90 ==> -7 <= #[trigger] matrix@[x] <= 7,
            fen@ == fen_text(matrix@, i as int),
        decreases 10 - i,
    {
        if i > 0 {
            push_char(&mut fen, '/');
        }
        let ghost head = fen@;
        let mut e: u32 = 0;
        let mut j: usize = 0;
        while j < 9
            invariant
                i < 10,
                j <= 9,
                forall|x: int| 0 <= x < 90 ==> -7 <= #[trigger] matrix@[x] <= 7,
                fen@ == head + row_upto(matrix@, i as int, j as int).0,
                e == row_upto(matrix@, i as int, j as int).1,
                e <= j,
            decreases 9 - j,
        {
            let idx = i * 9 + j;
            let p = matrix[idx];
            if p == 0 {
                e += 1;
                j += 1;
                continue;
            }
            if e > 0 {
                let d = #[verifier::truncate] ((e + 48) as u8) as char;
                push_char(&mut fen, d);
                e = 0;
            }
            let c = letter_of_piece(p);
            push_char(&mut fen, c);
            j += 1;
        }
        i += 1;
    }
    fen
}

/// Whether `b` holds the squares of `m` below `idx` and nothing from `idx` on.
pub open spec fn agrees_below(b: Seq<i8>, m: Seq<i8>, idx: int) -> bool {
    &&& b.len() == 90
    &&& forall|x: int| 0 <= x < idx && x < 90 ==> #[trigger] b[x] == m[x]
    &&& forall|x: int| idx <= x < 90 ==> #[trigger] b[x] == 0
}

/// Whether the squares of `m` from `lo` up to (not including) `hi` are empty.
pub open spec fn empty_between(m: Seq<i8>, lo: int, hi: int) -> bool {
    forall|x: int| lo <= x < hi ==> #[trigger] m[x] == 0
}

/// Whether every row but the last ends with a piece, or has only empty
/// squares after it.
pub open spec fn rows_closed(m: Seq<i8>) -> bool {
    forall|r: int| 0 <= r < 9 ==> #[trigger] m[r * 9 + 8] != 0 || empty_between(m, r * 9 + 9, 90)
}

/// A board of 90 piece codes in `-7..=7`.
pub open spec fn codes_ok(m: Seq<i8>) -> bool {
    &&& m.len() == 90
    &&& forall|i: int| 0 <= i < 90 ==> -7 <= #[trigger] m[i] <= 7
}

proof fn lemma_fold_push(st: FenState, s: Seq<char>, c: char)
    ensures
        fen_fold(st, s.push(c)) == fen_step(fen_fold(st, s), c),
{
    assert(s.push(c).drop_last() =~= s);
}

proof fn lemma_fits_push(s: Seq<char>, c: char)
    requires
        fen_fits(s),
        fen_fold(fen_start(), s.push(c)).1 < 256,
    ensures
        fen_fits(s.push(c)),
{
    assert forall|k: int| 0 <= k <= s.push(c).len() implies #[trigger] fen_fold(fen_start(), s.push(c).take(k)).1
        < 256 by {
        if k <= s.len() {
            assert(s.push(c).take(k) =~= s.take(k));
        } else {
            assert(s.push(c).take(k) =~= s.push(c));
        }
    }
}

proof fn lemma_letter_code(p: i8)
    requires
        -7 <= p <= 7,
        p != 0,
    ensures
        piece_code(piece_letter(p)) == p,
        !is_count(piece_letter(p)),
        piece_letter(p) != ' ',
        piece_letter(p) != '/',
{
}

/// Reading the text of the first `j` columns of row `r`, after a text that
/// leaves the board agreeing with `m` below the row's first square, fills
/// the squares up to the run of empty squares not yet written.
proof fn lemma_read_row(m: Seq<i8>, r: int, j: int, pre: Seq<char>)
    requires
        codes_ok(m),
        0 <= r <= 9,
        0 <= j <= 9,
        fen_fits(pre),
        !fen_fold(fen_start(), pre).2,
        fen_fold(fen_start(), pre).1 == r * 9,
        agrees_below(fen_fold(fen_start(), pre).0, m, r * 9),
    ensures
        ({
            let (t, e) = row_upto(m, r, j);
            let st = fen_fold(fen_start(), pre + t);
            &&& 0 <= e <= j
            &&& fen_fits(pre + t)
            &&& !st.2
            &&& st.1 == r * 9 + j - e
            &&& agrees_below(st.0, m, r * 9 + j - e)
            &&& empty_between(m, r * 9 + j - e, r * 9 + j)
        }),
    decreases j,
{
    if j == 0 {
        assert(pre + Seq::<char>::empty() =~= pre);
    } else {
        lemma_read_row(m, r, j - 1, pre);
        let (t0, e0) = row_upto(m, r, j - 1);
        let p = m[r * 9 + j - 1];
        let s0 = pre + t0;
        let st0 = fen_fold(fen_start(), s0);
        if p != 0 {
            lemma_letter_code(p);
            let l = piece_letter(p);
            if e0 > 0 {
                let d = digit_char(e0);
                let s1 = s0.push(d);
                assert(d as u32 == e0 + 48);
                lemma_fold_push(fen_start(), s0, d);
                let st1 = fen_fold(fen_start(), s1);
                assert(st1.1 == r * 9 + j - 1);
                lemma_fits_push(s0, d);
                assert(agrees_below(st1.0, m, r * 9 + j - 1));
                let s2 = s1.push(l);
                lemma_fold_push(fen_start(), s1, l);
                lemma_fits_push(s1, l);
                assert(pre + row_upto(m, r, j).0 =~= s2);
                let st2 = fen_fold(fen_start(), s2);
                assert(agrees_below(st2.0, m, r * 9 + j));
            } else {
                let s2 = s0.push(l);
                lemma_fold_push(fen_start(), s0, l);
                lemma_fits_push(s0, l);
                assert(pre + row_upto(m, r, j).0 =~= s2);
                let st2 = fen_fold(fen_start(), s2);
                assert(agrees_below(st2.0, m, r * 9 + j));
            }
        }
    }
}

/// A row without pieces writes nothing.
proof fn lemma_empty_row(m: Seq<i8>, r: int, j: int)
    requires
        codes_ok(m),
        0 <= r <= 9,
        0 <= j <= 9,
        empty_between(m, r * 9, r * 9 + 9),
    ensures
        row_upto(m, r, j) == (Seq::<char>::empty(), j),
    decreases j,
{
    if j > 0 {
        lemma_empty_row(m, r, j - 1);
        assert(m[r * 9 + j - 1] == 0);
    }
}

/// Reading the text of the first `n` rows of a board whose rows are closed
/// leaves the board agreeing with `m` below the square reached, and that
/// square is the start of row `n`, or only empty squares follow it.
proof fn lemma_read_rows(m: Seq<i8>, n: int)
    requires
        codes_ok(m),
        rows_closed(m),
        0 <= n <= 10,
    ensures
        ({
            let st = fen_fold(fen_start(), fen_text(m, n));
            &&& fen_fits(fen_text(m, n))
            &&& !st.2
            &&& 0 <= st.1 <= n * 9
            &&& agrees_below(st.0, m, st.1)
            &&& (st.1 == n * 9 || empty_between(m, st.1, 90))
        }),
    decreases n,
{
    if n == 0 {
        let e = Seq::<char>::empty();
        assert forall|k: int| 0 <= k <= e.len() implies #[trigger] fen_fold(fen_start(), e.take(k)).1 < 256 by {
            assert(e.take(k) =~= e);
        }
    } else {
        lemma_read_rows(m, n - 1);
        let prev = fen_text(m, n - 1);
        let st0 = fen_fold(fen_start(), prev);
        let pre = if n > 1 { prev.push('/') } else { prev };
        if n > 1 {
            lemma_fold_push(fen_start(), prev, '/');
            lemma_fits_push(prev, '/');
        }
        assert(fen_fold(fen_start(), pre) == st0);
        let r = n - 1;
        let t = row_upto(m, r, 9).0;
        assert(fen_text(m, n) =~= pre + t);
        if st0.1 == r * 9 {
            lemma_read_row(m, r, 9, pre);
            let e = row_upto(m, r, 9).1;
            if e > 0 {
                assert(m[r * 9 + 8] == 0);
                if r < 9 {
                    assert(m[r * 9 + 8] != 0 || empty_between(m, r * 9 + 9, 90));
                }
                let st = fen_fold(fen_start(), pre + t);
                assert(empty_between(m, st.1, 90));
            }
        } else {
            assert(empty_between(m, r * 9, r * 9 + 9));
            lemma_empty_row(m, r, 9);
            assert(pre + t =~= pre);
        }
    }
}

/// Writing a board and reading it back gives the board, when each row but
/// the last ends with a piece or has only empty squares after it (a run of
/// empty squares at the end of a row is not written, so what follows would
/// move up): the text of `matrix_to_fen` meets what `fen_to_matrix` needs
/// and reads back to the same board.
pub proof fn lemma_fen_round_trip(m: Seq<i8>)
    requires
        codes_ok(m),
        rows_closed(m),
    ensures
        fen_fits(fen_text(m, 10)),
        fen_fold(fen_start(), fen_text(m, 10)).0 == m,
{
    lemma_read_rows(m, 10);
    let st = fen_fold(fen_start(), fen_text(m, 10));
    assert(st.0 =~= m);
}

} // verus!
