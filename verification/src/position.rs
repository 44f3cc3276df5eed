//! The board position: squares, piece lists, occupancy lines, hash key,
//! incremental evaluation and move history.

use vstd::prelude::*;
use crate::common::{
    Move, Matrix, Team, Pos, PType, Pid, VL, GenType, R, B, R_KING, B_KING, R_ADVISOR, R_BISHOP, R_KNIGHT,
    R_ROOK, R_CANNON, R_PAWN, B_ADVISOR, CAPTURE, QUIET, SIDE_KEY, INVALID_POS,
};
use crate::lines::{has_bit, banner_spec, rook9, rook10, cannon9, cannon10, lemma_line_set_bit, lemma_line_clear_bit, lemma_line_mask, lemma_line_ext, lemma_line_zero};
use crate::pst::{pst, pst_spec, lemma_pst_bounded};
use crate::zobrist::{hash_keys, key_of, keys_ok};

verus! {

/// The occupant of square `i`, or 0 off the board.
pub open spec fn at(board: Seq<i8>, i: int) -> i8 {
    if 0 <= i < 90 {
        board[i]
    } else {
        0
    }
}

/// The absolute value of a piece code.
pub open spec fn abs8(p: i8) -> i8 {
    if p < 0 {
        (-p) as i8
    } else {
        p
    }
}

/// The absolute value of a piece code (`i8::abs`).
pub fn abs_piece(p: PType) -> (r: PType)
    requires
        p != -128,
    ensures
        r == abs8(p),
{
    if p < 0 {
        -p
    } else {
        p
    }
}

/// Multiplying by a side is keeping or negating.
pub proof fn lemma_times_side(p: int, team: int)
    requires
        team == 1 || team == -1,
    ensures
        p * team == (if team == 1 { p } else { -p }),
        team * p == (if team == 1 { p } else { -p }),
{
    assert(p * team == (if team == 1 { p } else { -p })) by (nonlinear_arith)
        requires
            team == 1 || team == -1,
    ;
    assert(team * p == p * team) by (nonlinear_arith);
}

/// Whether piece code `p` belongs to side `team`.
pub open spec fn owned(p: i8, team: i8) -> bool {
    p * team > 0
}

/// 90 squares with piece codes in `-7..=7`.
pub open spec fn board_ok(board: Seq<i8>) -> bool {
    &&& board.len() == 90
    &&& forall|i: int| 0 <= i < 90 ==> -7 <= #[trigger] board[i] <= 7
}

/// The piece list of `team` holds each of its squares once, and `pid`
/// gives the place in the list of each listed square.
pub open spec fn list_ok(board: Seq<i8>, list: Seq<u8>, pid: Seq<u8>, team: i8) -> bool {
    &&& pid.len() == 90
    &&& list.len() <= 90
    &&& forall|k: int|
        0 <= k < list.len() ==> #[trigger] list[k] < 90 && owned(board[list[k] as int], team)
            && pid[list[k] as int] == k
    &&& forall|i: int| 0 <= i < 90 && #[trigger] owned(board[i], team) ==> list.contains(i as u8)
}

/// Column line `line` of column `c`: bit `r` set exactly when square
/// `r * 9 + c` is occupied.
pub open spec fn col_ok(board: Seq<i8>, line: u16, c: int) -> bool {
    &&& line < 1024
    &&& forall|r: int| 0 <= r < 10 ==> (#[trigger] has_bit(line as u32, r) <==> board[r * 9 + c] != 0)
}

/// Row line `line` of row `r`: bit `c` set exactly when square `r * 9 + c`
/// is occupied.
pub open spec fn row_ok(board: Seq<i8>, line: u16, r: int) -> bool {
    &&& line < 512
    &&& forall|c: int| 0 <= c < 9 ==> (#[trigger] has_bit(line as u32, c) <==> board[r * 9 + c] != 0)
}

pub open spec fn lines_ok(board: Seq<i8>, bl9: Seq<u16>, bl10: Seq<u16>) -> bool {
    &&& bl9.len() == 10
    &&& bl10.len() == 10
    &&& bl10[9] == 0
    &&& forall|c: int| 0 <= c < 9 ==> col_ok(board, #[trigger] bl10[c], c)
    &&& forall|r: int| 0 <= r < 10 ==> row_ok(board, #[trigger] bl9[r], r)
}

/// The Zobrist hash of the first `n` squares, starting from `seed`.
pub open spec fn board_hash(board: Seq<i8>, keys: Seq<i64>, n: int, seed: i64) -> i64
    decreases n,
{
    if n <= 0 {
        seed
    } else {
        board_hash(board, keys, n - 1, seed) ^ key_of(keys, board[n - 1] as int, n - 1)
    }
}

/// The Zobrist hash of a board with `team` to move.
pub open spec fn zobrist_spec(board: Seq<i8>, team: i8, keys: Seq<i64>) -> i64 {
    board_hash(board, keys, 90, if team == B { SIDE_KEY } else { 0 })
}

/// What a piece on a square adds to red's evaluation.
pub open spec fn contribution(p: i8, pos: int) -> int {
    if p > 0 {
        pst_spec(R, p, pos as u8) as int
    } else if p < 0 {
        -(pst_spec(B, abs8(p), pos as u8) as int)
    } else {
        0
    }
}

/// The evaluation of the first `n` squares.
pub open spec fn pst_total(board: Seq<i8>, n: int) -> int
    decreases n,
{
    if n <= 0 {
        0
    } else {
        pst_total(board, n - 1) + contribution(board[n - 1], n - 1)
    }
}

pub open spec fn fits_i16(x: int) -> bool {
    -32768 <= x <= 32767
}

/// The line patterns in which the two kings face each other on a column:
/// one piece in rows 0 to 2 and one in rows 7 to 9, nothing between.
pub open spec fn face_pattern(x: u16) -> bool {
    x == 0b1000000001u16 || x == 0b1000000010u16 || x == 0b1000000100u16
        || x == 0b0100000001u16 || x == 0b0100000010u16 || x == 0b0100000100u16
        || x == 0b0010000001u16 || x == 0b0010000010u16 || x == 0b0010000100u16
}


/// The squares among the first `n` that hold the king of `team`, in order.
pub open spec fn kings_of(board: Seq<i8>, team: i8, n: int) -> Seq<u8>
    decreases n,
{
    if n <= 0 {
        Seq::empty()
    } else if board[n - 1] == team {
        kings_of(board, team, n - 1).push((n - 1) as u8)
    } else {
        kings_of(board, team, n - 1)
    }
}

/// The squares among the first `n` that hold another piece of `team`, in order.
pub open spec fn others_of(board: Seq<i8>, team: i8, n: int) -> Seq<u8>
    decreases n,
{
    if n <= 0 {
        Seq::empty()
    } else if owned(board[n - 1], team) && board[n - 1] != team {
        others_of(board, team, n - 1).push((n - 1) as u8)
    } else {
        others_of(board, team, n - 1)
    }
}

/// The piece list that `init` builds for `team`: its king first, then its
/// other pieces in square order.
pub open spec fn init_list(board: Seq<i8>, team: i8) -> Seq<u8> {
    kings_of(board, team, 90) + others_of(board, team, 90)
}


proof fn lemma_kings_of(board: Seq<i8>, team: i8, n: int)
    requires
        0 <= n <= board.len(),
        board.len() <= 90,
    ensures
        kings_of(board, team, n).len() <= n,
        forall|k: int|
            0 <= k < kings_of(board, team, n).len() ==> #[trigger] kings_of(board, team, n)[k] < n
                && board[kings_of(board, team, n)[k] as int] == team,
        forall|a: int, b: int|
            0 <= a < b < kings_of(board, team, n).len() ==> #[trigger] kings_of(board, team, n)[a]
                < #[trigger] kings_of(board, team, n)[b],
        forall|i: int| 0 <= i < n && #[trigger] board[i] == team ==> kings_of(board, team, n).contains(i as u8),
    decreases n,
{
    if n > 0 {
        lemma_kings_of(board, team, n - 1);
        let s = kings_of(board, team, n - 1);
        if board[n - 1] == team {
            assert(s.push((n - 1) as u8)[s.len() as int] == (n - 1) as u8);
        }
        assert forall|i: int| 0 <= i < n && #[trigger] board[i] == team implies kings_of(board, team, n).contains(i as u8) by {
            if i < n - 1 {
                let k = choose|k: int| 0 <= k < s.len() && s[k] == i as u8;
                assert(kings_of(board, team, n)[k] == i as u8);
            } else {
                assert(kings_of(board, team, n)[s.len() as int] == i as u8);
            }
        }
    }
}

proof fn lemma_others_of(board: Seq<i8>, team: i8, n: int)
    requires
        0 <= n <= board.len(),
        board.len() <= 90,
    ensures
        others_of(board, team, n).len() <= n,
        forall|k: int|
            0 <= k < others_of(board, team, n).len() ==> #[trigger] others_of(board, team, n)[k] < n
                && owned(board[others_of(board, team, n)[k] as int], team)
                && board[others_of(board, team, n)[k] as int] != team,
        forall|a: int, b: int|
            0 <= a < b < others_of(board, team, n).len() ==> #[trigger] others_of(board, team, n)[a]
                < #[trigger] others_of(board, team, n)[b],
        forall|i: int|
            0 <= i < n && #[trigger] owned(board[i], team) && board[i] != team ==> others_of(board, team, n).contains(i as u8),
    decreases n,
{
    if n > 0 {
        lemma_others_of(board, team, n - 1);
        let s = others_of(board, team, n - 1);
        if owned(board[n - 1], team) && board[n - 1] != team {
            assert(s.push((n - 1) as u8)[s.len() as int] == (n - 1) as u8);
        }
        assert forall|i: int|
            0 <= i < n && #[trigger] owned(board[i], team) && board[i] != team implies others_of(board, team, n).contains(i as u8) by {
            if i < n - 1 {
                let k = choose|k: int| 0 <= k < s.len() && s[k] == i as u8;
                assert(others_of(board, team, n)[k] == i as u8);
            } else {
                assert(others_of(board, team, n)[s.len() as int] == i as u8);
            }
        }
    }
}


/// Column line `line` of column `c` reflects the squares below `n`.
pub open spec fn col_upto(board: Seq<i8>, line: u16, c: int, n: int) -> bool {
    &&& line < 1024
    &&& forall|r: int|
        0 <= r < 10 ==> (#[trigger] has_bit(line as u32, r) <==> (r * 9 + c < n && board[r * 9 + c] != 0))
}

/// Row line `line` of row `r` reflects the squares below `n`.
pub open spec fn row_upto(board: Seq<i8>, line: u16, r: int, n: int) -> bool {
    &&& line < 512
    &&& forall|c: int|
        0 <= c < 9 ==> (#[trigger] has_bit(line as u32, c) <==> (r * 9 + c < n && board[r * 9 + c] != 0))
}

pub open spec fn lines_upto(board: Seq<i8>, bl9: Seq<u16>, bl10: Seq<u16>, n: int) -> bool {
    &&& bl9.len() == 10
    &&& bl10.len() == 10
    &&& bl10[9] == 0
    &&& forall|c: int| 0 <= c < 9 ==> col_upto(board, #[trigger] bl10[c], c, n)
    &&& forall|r: int| 0 <= r < 10 ==> row_upto(board, #[trigger] bl9[r], r, n)
}

proof fn lemma_lines_start(board: Seq<i8>, bl9: Seq<u16>, bl10: Seq<u16>)
    requires
        bl9.len() == 10,
        bl10.len() == 10,
        forall|r: int| 0 <= r < 10 ==> #[trigger] bl9[r] == 0,
        forall|c: int| 0 <= c < 10 ==> #[trigger] bl10[c] == 0,
    ensures
        lines_upto(board, bl9, bl10, 0),
{
    assert forall|j: int| 0 <= j < 10 implies !#[trigger] has_bit(0u32, j) by {
        lemma_line_zero(j as u32);
    }
}

proof fn lemma_lines_step(
    board: Seq<i8>,
    bl9: Seq<u16>,
    bl10: Seq<u16>,
    bl9n: Seq<u16>,
    bl10n: Seq<u16>,
    i: int,
)
    requires
        board_ok(board),
        0 <= i < 90,
        lines_upto(board, bl9, bl10, i),
        board[i] != 0 ==> bl10n == bl10.update(i % 9, bl10[i % 9] | (1u16 << ((i / 9) as u8)))
            && bl9n == bl9.update(i / 9, bl9[i / 9] | (1u16 << ((i % 9) as u8))),
        board[i] == 0 ==> bl10n == bl10 && bl9n == bl9,
    ensures
        lines_upto(board, bl9n, bl10n, i + 1),
{
    let r0 = i / 9;
    let c0 = i % 9;
    if board[i] != 0 {
        assert(i < 90);
        assert forall|c: int| 0 <= c < 9 implies col_upto(board, #[trigger] bl10n[c], c, i + 1) by {
            assert(col_upto(board, bl10[c], c, i));
            if c == c0 {
                assert forall|r: int| 0 <= r < 10 implies (#[trigger] has_bit(bl10n[c] as u32, r) <==> (r * 9
                    + c < i + 1 && board[r * 9 + c] != 0)) by {
                    lemma_line_set_bit(bl10[c], r0 as u8, r as u32);
                    assert(has_bit(bl10[c] as u32, r) <==> (r * 9 + c < i && board[r * 9 + c] != 0));
                }
                lemma_line_set_bit(bl10[c], r0 as u8, 0);
            } else {
                assert forall|r: int| 0 <= r < 10 implies (#[trigger] has_bit(bl10n[c] as u32, r) <==> (r * 9
                    + c < i + 1 && board[r * 9 + c] != 0)) by {
                    assert(has_bit(bl10[c] as u32, r) <==> (r * 9 + c < i && board[r * 9 + c] != 0));
                }
            }
        }
        assert forall|r: int| 0 <= r < 10 implies row_upto(board, #[trigger] bl9n[r], r, i + 1) by {
            assert(row_upto(board, bl9[r], r, i));
            if r == r0 {
                assert forall|c: int| 0 <= c < 9 implies (#[trigger] has_bit(bl9n[r] as u32, c) <==> (r * 9
                    + c < i + 1 && board[r * 9 + c] != 0)) by {
                    lemma_line_set_bit(bl9[r], c0 as u8, c as u32);
                    assert(has_bit(bl9[r] as u32, c) <==> (r * 9 + c < i && board[r * 9 + c] != 0));
                }
                lemma_line_set_bit(bl9[r], c0 as u8, 0);
            } else {
                assert forall|c: int| 0 <= c < 9 implies (#[trigger] has_bit(bl9n[r] as u32, c) <==> (r * 9
                    + c < i + 1 && board[r * 9 + c] != 0)) by {
                    assert(has_bit(bl9[r] as u32, c) <==> (r * 9 + c < i && board[r * 9 + c] != 0));
                }
            }
        }
    } else {
        assert forall|c: int| 0 <= c < 9 implies col_upto(board, #[trigger] bl10n[c], c, i + 1) by {
            assert(col_upto(board, bl10[c], c, i));
            assert forall|r: int| 0 <= r < 10 implies (#[trigger] has_bit(bl10n[c] as u32, r) <==> (r * 9
                + c < i + 1 && board[r * 9 + c] != 0)) by {
                assert(has_bit(bl10[c] as u32, r) <==> (r * 9 + c < i && board[r * 9 + c] != 0));
            }
        }
        assert forall|r: int| 0 <= r < 10 implies row_upto(board, #[trigger] bl9n[r], r, i + 1) by {
            assert(row_upto(board, bl9[r], r, i));
            assert forall|c: int| 0 <= c < 9 implies (#[trigger] has_bit(bl9n[r] as u32, c) <==> (r * 9
                + c < i + 1 && board[r * 9 + c] != 0)) by {
                assert(has_bit(bl9[r] as u32, c) <==> (r * 9 + c < i && board[r * 9 + c] != 0));
            }
        }
    }
}

proof fn lemma_lines_done(board: Seq<i8>, bl9: Seq<u16>, bl10: Seq<u16>)
    requires
        board_ok(board),
        lines_upto(board, bl9, bl10, 90),
    ensures
        lines_ok(board, bl9, bl10),
{
    assert forall|c: int| 0 <= c < 9 implies col_ok(board, #[trigger] bl10[c], c) by {
        assert(col_upto(board, bl10[c], c, 90));
    }
    assert forall|r: int| 0 <= r < 10 implies row_ok(board, #[trigger] bl9[r], r) by {
        assert(row_upto(board, bl9[r], r, 90));
    }
}


proof fn lemma_others_prefix(board: Seq<i8>, team: i8, n: int, m: int)
    requires
        0 <= n <= m <= board.len(),
        board.len() <= 90,
    ensures
        others_of(board, team, n).len() <= others_of(board, team, m).len(),
        forall|k: int| 0 <= k < others_of(board, team, n).len() ==> #[trigger] others_of(board, team, m)[k] == others_of(board, team, n)[k],
    decreases m - n,
{
    if n < m {
        lemma_others_prefix(board, team, n, m - 1);
    }
}

proof fn lemma_kings_others_len(board: Seq<i8>, team: i8, n: int)
    requires
        0 <= n <= board.len(),
    ensures
        kings_of(board, team, n).len() + others_of(board, team, n).len() <= n,
    decreases n,
{
    if n > 0 {
        lemma_kings_others_len(board, team, n - 1);
    }
}

proof fn lemma_init_list_ok(board: Seq<i8>, list: Seq<u8>, pid: Seq<u8>, team: i8)
    requires
        board_ok(board),
        team == R || team == B,
        kings_of(board, team, 90).len() <= 1,
        list == init_list(board, team),
        pid.len() == 90,
        forall|i: int|
            0 <= i < 90 ==> #[trigger] pid[i] == (if owned(board[i], team) && board[i] != team {
                kings_of(board, team, 90).len() + others_of(board, team, i).len()
            } else {
                0
            }),
    ensures
        list_ok(board, list, pid, team),
{
    let ks = kings_of(board, team, 90);
    let os = others_of(board, team, 90);
    lemma_kings_others_len(board, team, 90);
    lemma_kings_of(board, team, 90);
    lemma_others_of(board, team, 90);
    assert forall|k: int| 0 <= k < list.len() implies #[trigger] list[k] < 90 && owned(board[list[k] as int], team)
        && pid[list[k] as int] == k by {
        if k < ks.len() {
            assert(list[k] == ks[k]);
            assert(board[ks[k] as int] == team);
            lemma_times_side(team as int, team as int);
        } else {
            let j = k - ks.len();
            assert(list[k] == os[j]);
            let sq = os[j] as int;
            // the others before `sq` are exactly the first `j` entries
            lemma_others_of(board, team, sq);
            lemma_others_prefix(board, team, sq, 90);
            lemma_others_prefix(board, team, sq + 1, 90);
            lemma_others_of(board, team, sq + 1);
            let before = others_of(board, team, sq);
            assert(others_of(board, team, sq + 1) == before.push(sq as u8));
            assert(os[before.len() as int] == sq as u8);
            if before.len() < j {
                assert(os[before.len() as int] < os[j]);
            } else if before.len() > j {
                assert(before[j] == os[j]);
                assert(before[j] < sq);
            }
        }
    }
    assert forall|i: int| 0 <= i < 90 && #[trigger] owned(board[i], team) implies list.contains(i as u8) by {
        if board[i] == team {
            let k = choose|k: int| 0 <= k < ks.len() && ks[k] == i as u8;
            assert(list[k] == i as u8);
        } else {
            let k = choose|k: int| 0 <= k < os.len() && os[k] == i as u8;
            assert(list[ks.len() + k] == i as u8);
        }
    }
}


/// `pid` with the entries of squares `a` and `b` exchanged.
pub open spec fn swap_pid(pid: Seq<u8>, a: int, b: int) -> Seq<u8> {
    pid.update(a, pid[b]).update(b, pid[a])
}

/// A listed square's place in the list is its `pid` entry.
proof fn lemma_listed(board: Seq<i8>, list: Seq<u8>, pid: Seq<u8>, team: i8, sq: int)
    requires
        list_ok(board, list, pid, team),
        board.len() == 90,
        0 <= sq < 90,
        owned(board[sq], team),
    ensures
        0 <= pid[sq] < list.len(),
        list[pid[sq] as int] == sq,
{
    assert(list.contains(sq as u8));
    let k = choose|k: int| 0 <= k < list.len() && list[k] == sq as u8;
    assert(pid[list[k] as int] == k);
}

/// The mover's list after a piece moves from `beg` to `end`.
proof fn lemma_list_move(
    board: Seq<i8>,
    board2: Seq<i8>,
    list: Seq<u8>,
    pid: Seq<u8>,
    team: i8,
    beg: int,
    end: int,
)
    requires
        board_ok(board),
        list_ok(board, list, pid, team),
        0 <= beg < 90,
        0 <= end < 90,
        beg != end,
        owned(board[beg], team),
        !owned(board[end], team),
        board2.len() == 90,
        board2[end] == board[beg],
        !owned(board2[beg], team),
        forall|i: int| 0 <= i < 90 && i != beg && i != end ==> board2[i] == board[i],
    ensures
        list_ok(board2, list.update(pid[beg] as int, end as u8), swap_pid(pid, beg, end), team),
{
    lemma_listed(board, list, pid, team, beg);
    let kb = pid[beg] as int;
    let list2 = list.update(kb, end as u8);
    let pid2 = swap_pid(pid, beg, end);
    assert forall|k: int| 0 <= k < list2.len() implies #[trigger] list2[k] < 90 && owned(board2[list2[k] as int], team)
        && pid2[list2[k] as int] == k by {
        if k != kb {
            assert(list[k] < 90 && owned(board[list[k] as int], team) && pid[list[k] as int] == k);
            assert(list[k] != beg);
        }
    }
    assert forall|i: int| 0 <= i < 90 && #[trigger] owned(board2[i], team) implies list2.contains(i as u8) by {
        if i == end {
            assert(list2[kb] == i as u8);
        } else {
            assert(board2[i] == board[i]);
            assert(list.contains(i as u8));
            let k = choose|k: int| 0 <= k < list.len() && list[k] == i as u8;
            assert(pid[list[k] as int] == k);
            assert(list2[k] == i as u8);
        }
    }
}

/// The other side's list when nothing of it is captured.
proof fn lemma_list_untouched(
    board: Seq<i8>,
    board2: Seq<i8>,
    list: Seq<u8>,
    pid: Seq<u8>,
    team: i8,
    beg: int,
    end: int,
)
    requires
        board_ok(board),
        list_ok(board, list, pid, team),
        0 <= beg < 90,
        0 <= end < 90,
        beg != end,
        !owned(board[beg], team),
        !owned(board[end], team),
        !owned(board2[beg], team),
        !owned(board2[end], team),
        board2.len() == 90,
        forall|i: int| 0 <= i < 90 && i != beg && i != end ==> board2[i] == board[i],
    ensures
        list_ok(board2, list, pid, team),
{
    assert forall|k: int| 0 <= k < list.len() implies #[trigger] list[k] < 90 && owned(board2[list[k] as int], team)
        && pid[list[k] as int] == k by {
        assert(list[k] < 90 && owned(board[list[k] as int], team) && pid[list[k] as int] == k);
    }
    assert forall|i: int| 0 <= i < 90 && #[trigger] owned(board2[i], team) implies list.contains(i as u8) by {
        assert(owned(board[i], team));
    }
}

/// The list of the side whose piece on `end` is captured: the last entry
/// takes the captured piece's place.
proof fn lemma_list_capture(
    board: Seq<i8>,
    board2: Seq<i8>,
    list: Seq<u8>,
    pid: Seq<u8>,
    team: i8,
    beg: int,
    end: int,
)
    requires
        board_ok(board),
        list_ok(board, list, pid, team),
        0 <= beg < 90,
        0 <= end < 90,
        beg != end,
        owned(board[end], team),
        !owned(board[beg], team),
        pid[end] < list.len() - 1,
        board2 == board.update(end, board[beg]).update(beg, 0),
    ensures
        list_ok(
            board2,
            list.drop_last().update(pid[end] as int, list.last()),
            pid.update(list.last() as int, pid[end]).update(end, 0),
            team,
        ),
{
    lemma_listed(board, list, pid, team, end);
    let j = pid[end] as int;
    let n = list.len();
    let last = list.last();
    let list2 = list.drop_last().update(j, last);
    let pid2 = pid.update(last as int, pid[end]).update(end, 0);
    assert(list[n - 1] < 90 && owned(board[list[n - 1] as int], team) && pid[list[n - 1] as int] == n - 1);
    assert(last != end as u8);
    assert(!owned(0i8, team));
    assert forall|k: int| 0 <= k < list2.len() implies #[trigger] list2[k] < 90 && owned(board2[list2[k] as int], team)
        && pid2[list2[k] as int] == k by {
        if k != j {
            assert(list[k] < 90 && owned(board[list[k] as int], team) && pid[list[k] as int] == k);
            assert(list[k] != end);
            assert(list[k] != last);
        }
    }
    assert forall|i: int| 0 <= i < 90 && #[trigger] owned(board2[i], team) implies list2.contains(i as u8) by {
        assert(board2[i] == board[i]);
        assert(list.contains(i as u8));
        let k = choose|k: int| 0 <= k < list.len() && list[k] == i as u8;
        assert(pid[list[k] as int] == k);
        if k == n - 1 {
            assert(list2[j] == i as u8);
        } else {
            assert(list2[k] == i as u8);
        }
    }
}

/// The lines after square `beg` empties and square `end` fills.
proof fn lemma_lines_move(
    board: Seq<i8>,
    board2: Seq<i8>,
    bl9: Seq<u16>,
    bl10: Seq<u16>,
    bl9n: Seq<u16>,
    bl10n: Seq<u16>,
    beg: int,
    end: int,
)
    requires
        board_ok(board),
        lines_ok(board, bl9, bl10),
        0 <= beg < 90,
        0 <= end < 90,
        beg != end,
        board2.len() == 90,
        board2[beg] == 0,
        board2[end] != 0,
        forall|i: int| 0 <= i < 90 && i != beg && i != end ==> board2[i] == board[i],
        bl10n == bl10.update(end % 9, bl10[end % 9] | (1u16 << ((end / 9) as u8))).update(
            beg % 9,
            bl10.update(end % 9, bl10[end % 9] | (1u16 << ((end / 9) as u8)))[beg % 9] & !(1u16 << ((beg
                / 9) as u8)),
        ),
        bl9n == bl9.update(end / 9, bl9[end / 9] | (1u16 << ((end % 9) as u8))).update(
            beg / 9,
            bl9.update(end / 9, bl9[end / 9] | (1u16 << ((end % 9) as u8)))[beg / 9] & !(1u16 << ((beg
                % 9) as u8)),
        ),
    ensures
        lines_ok(board2, bl9n, bl10n),
{
    let bl10m = bl10.update(end % 9, bl10[end % 9] | (1u16 << ((end / 9) as u8)));
    let bl9m = bl9.update(end / 9, bl9[end / 9] | (1u16 << ((end % 9) as u8)));
    assert forall|c: int| 0 <= c < 9 implies col_ok(board2, #[trigger] bl10n[c], c) by {
        assert(col_ok(board, bl10[c], c));
        lemma_line_set_bit(bl10[c], (end / 9) as u8, 0);
        lemma_line_clear_bit(bl10m[c], (beg / 9) as u8, 0);
        assert forall|r: int| 0 <= r < 10 implies (#[trigger] has_bit(bl10n[c] as u32, r) <==> board2[r * 9 + c] != 0) by {
            lemma_line_set_bit(bl10[c], (end / 9) as u8, r as u32);
            lemma_line_clear_bit(bl10m[c], (beg / 9) as u8, r as u32);
            assert(has_bit(bl10[c] as u32, r) <==> board[r * 9 + c] != 0);
        }
    }
    assert forall|r: int| 0 <= r < 10 implies row_ok(board2, #[trigger] bl9n[r], r) by {
        assert(row_ok(board, bl9[r], r));
        lemma_line_set_bit(bl9[r], (end % 9) as u8, 0);
        lemma_line_clear_bit(bl9m[r], (beg % 9) as u8, 0);
        assert forall|c: int| 0 <= c < 9 implies (#[trigger] has_bit(bl9n[r] as u32, c) <==> board2[r * 9 + c] != 0) by {
            lemma_line_set_bit(bl9[r], (end % 9) as u8, c as u32);
            lemma_line_clear_bit(bl9m[r], (beg % 9) as u8, c as u32);
            assert(has_bit(bl9[r] as u32, c) <==> board[r * 9 + c] != 0);
        }
    }
}


/// A list that misses a square of the board has room for one more.
proof fn lemma_list_room(board: Seq<i8>, list: Seq<u8>, pid: Seq<u8>, team: i8, sq: int)
    requires
        list_ok(board, list, pid, team),
        board.len() == 90,
        0 <= sq < 90,
        !owned(board[sq], team),
    ensures
        list.len() <= 89,
        !list.contains(sq as u8),
{
    assert(list.no_duplicates()) by {
        assert forall|i: int, j: int| 0 <= i < list.len() && 0 <= j < list.len() && i != j implies list[i]
            != list[j] by {
            assert(pid[list[i] as int] == i);
            assert(pid[list[j] as int] == j);
        }
    }
    list.unique_seq_to_set();
    let all = Seq::new(90, |i: int| i as u8);
    assert(all.no_duplicates());
    all.unique_seq_to_set();
    let room = all.to_set().remove(sq as u8);
    assert(all[sq] == sq as u8);
    assert(all.to_set().contains(sq as u8));
    assert forall|x: u8| list.to_set().contains(x) implies room.contains(x) by {
        let k = choose|k: int| 0 <= k < list.len() && list[k] == x;
        assert(list[k] < 90 && owned(board[list[k] as int], team));
        assert(all[x as int] == x);
    }
    vstd::set_lib::lemma_len_subset(list.to_set(), room);
    assert(!list.contains(sq as u8)) by {
        if list.contains(sq as u8) {
            let k = choose|k: int| 0 <= k < list.len() && list[k] == sq as u8;
            assert(owned(board[list[k] as int], team));
        }
    }
}

/// The list of the side whose captured piece comes back on `end`.
proof fn lemma_list_restore(
    board: Seq<i8>,
    board2: Seq<i8>,
    list: Seq<u8>,
    pid: Seq<u8>,
    team: i8,
    beg: int,
    end: int,
)
    requires
        board_ok(board),
        list_ok(board, list, pid, team),
        0 <= beg < 90,
        0 <= end < 90,
        beg != end,
        !owned(board[beg], team),
        !owned(board[end], team),
        !owned(board2[beg], team),
        owned(board2[end], team),
        board2.len() == 90,
        forall|i: int| 0 <= i < 90 && i != beg && i != end ==> board2[i] == board[i],
    ensures
        list.len() <= 89,
        list_ok(board2, list.push(end as u8), pid.update(end, list.len() as u8), team),
{
    lemma_list_room(board, list, pid, team, end);
    let list2 = list.push(end as u8);
    let pid2 = pid.update(end, list.len() as u8);
    assert forall|k: int| 0 <= k < list2.len() implies #[trigger] list2[k] < 90 && owned(board2[list2[k] as int], team)
        && pid2[list2[k] as int] == k by {
        if k < list.len() {
            assert(list[k] < 90 && owned(board[list[k] as int], team) && pid[list[k] as int] == k);
            assert(list[k] != end);
        }
    }
    assert forall|i: int| 0 <= i < 90 && #[trigger] owned(board2[i], team) implies list2.contains(i as u8) by {
        if i == end {
            assert(list2[list.len() as int] == i as u8);
        } else {
            assert(list.contains(i as u8));
            let k = choose|k: int| 0 <= k < list.len() && list[k] == i as u8;
            assert(list2[k] == i as u8);
        }
    }
}

/// The lines after a move is taken back: `end` empties unless a captured
/// piece comes back to it, and `beg` fills.
proof fn lemma_lines_undo(
    board: Seq<i8>,
    board2: Seq<i8>,
    bl9: Seq<u16>,
    bl10: Seq<u16>,
    bl9n: Seq<u16>,
    bl10n: Seq<u16>,
    beg: int,
    end: int,
    refill: bool,
)
    requires
        board_ok(board),
        lines_ok(board, bl9, bl10),
        0 <= beg < 90,
        0 <= end < 90,
        beg != end,
        board2.len() == 90,
        board2[beg] != 0,
        board[end] != 0,
        refill <==> board2[end] != 0,
        forall|i: int| 0 <= i < 90 && i != beg && i != end ==> board2[i] == board[i],
        bl10n == bl10.update(
            end % 9,
            bl10[end % 9] & (if refill { 0xFFFu16 } else { !(1u16 << ((end / 9) as u8)) }),
        ).update(
            beg % 9,
            bl10.update(
                end % 9,
                bl10[end % 9] & (if refill { 0xFFFu16 } else { !(1u16 << ((end / 9) as u8)) }),
            )[beg % 9] | (1u16 << ((beg / 9) as u8)),
        ),
        bl9n == bl9.update(
            end / 9,
            bl9[end / 9] & (if refill { 0xFFFu16 } else { !(1u16 << ((end % 9) as u8)) }),
        ).update(
            beg / 9,
            bl9.update(
                end / 9,
                bl9[end / 9] & (if refill { 0xFFFu16 } else { !(1u16 << ((end % 9) as u8)) }),
            )[beg / 9] | (1u16 << ((beg % 9) as u8)),
        ),
    ensures
        lines_ok(board2, bl9n, bl10n),
{
    let bl10m = bl10.update(
        end % 9,
        bl10[end % 9] & (if refill { 0xFFFu16 } else { !(1u16 << ((end / 9) as u8)) }),
    );
    let bl9m = bl9.update(
        end / 9,
        bl9[end / 9] & (if refill { 0xFFFu16 } else { !(1u16 << ((end % 9) as u8)) }),
    );
    assert forall|c: int| 0 <= c < 9 implies col_ok(board2, #[trigger] bl10n[c], c) by {
        assert(col_ok(board, bl10[c], c));
        if refill {
            lemma_line_mask(bl10[c]);
        } else {
            lemma_line_clear_bit(bl10[c], (end / 9) as u8, 0);
        }
        lemma_line_set_bit(bl10m[c], (beg / 9) as u8, 0);
        assert forall|r: int| 0 <= r < 10 implies (#[trigger] has_bit(bl10n[c] as u32, r) <==> board2[r * 9 + c] != 0) by {
            if !refill {
                lemma_line_clear_bit(bl10[c], (end / 9) as u8, r as u32);
            }
            lemma_line_set_bit(bl10m[c], (beg / 9) as u8, r as u32);
            assert(has_bit(bl10[c] as u32, r) <==> board[r * 9 + c] != 0);
        }
    }
    assert forall|r: int| 0 <= r < 10 implies row_ok(board2, #[trigger] bl9n[r], r) by {
        assert(row_ok(board, bl9[r], r));
        if refill {
            lemma_line_mask(bl9[r]);
        } else {
            lemma_line_clear_bit(bl9[r], (end % 9) as u8, 0);
        }
        lemma_line_set_bit(bl9m[r], (beg % 9) as u8, 0);
        assert forall|c: int| 0 <= c < 9 implies (#[trigger] has_bit(bl9n[r] as u32, c) <==> board2[r * 9 + c] != 0) by {
            if !refill {
                lemma_line_clear_bit(bl9[r], (end % 9) as u8, c as u32);
            }
            lemma_line_set_bit(bl9m[r], (beg % 9) as u8, c as u32);
            assert(has_bit(bl9[r] as u32, c) <==> board[r * 9 + c] != 0);
        }
    }
}


/// `x` modulo 256: square arithmetic is done on 8-bit indices, and a
/// result that leaves the board reads as an empty square.
pub open spec fn w8(x: int) -> int {
    x % 256
}

/// `pos + d` on 8-bit square indices.
pub fn sq_add(pos: u8, d: u8) -> (r: u8)
    ensures
        r == w8(pos + d),
{
    pos.wrapping_add(d)
}

/// `pos - d` on 8-bit square indices.
pub fn sq_sub(pos: u8, d: u8) -> (r: u8)
    ensures
        r == w8(pos - d),
{
    pos.wrapping_sub(d)
}


/// A piece code times the side is the code or its negation, within 7.
pub proof fn lemma_piece_times_side(p: &Position, x: int)
    requires
        p.wf(),
    ensures
        -7 <= p.piece(x) <= 7,
        p.piece(x) * p.side() == (if p.side() == 1 { p.piece(x) as int } else { -p.piece(x) }),
{
    if 0 <= x < 90 {
        assert(-7 <= p.board()[x] <= 7);
    }
    lemma_times_side(p.piece(x) as int, p.side() as int);
}

/// The lines of a position are below 1024.
pub proof fn lemma_line_bounds(p: &Position, pos: int)
    requires
        p.wf(),
        0 <= pos < 90,
    ensures
        p.row_line(pos) < 1024,
        p.col_line(pos) < 1024,
{
    assert(row_ok(p.board(), p.bl9s()[pos / 9], pos / 9));
    assert(col_ok(p.board(), p.bl10s()[pos % 9], pos % 9));
}

struct History {
    checkings: Vec<bool>,
    moves: Vec<Move>,
    captures: Vec<PType>,
    keys: Vec<i64>,
}

/// A position: the board, the side to move, the Zobrist key, red's
/// incremental evaluation, the piece lists with their index arrays, the
/// occupancy lines of columns (`bl10`) and of all ten rows (`bl9`), and the
/// history.
pub struct Position {
    board: Matrix,
    team: Team,
    key: i64,
    eval: VL,
    history: History,
    pos_list_r: Vec<Pos>,
    pos_list_b: Vec<Pos>,
    pos_pid_r: [Pid; 90],
    pos_pid_b: [Pid; 90],
    bl10_items: [u16; 10],
    bl9_items: [u16; 10],
    hash_keys: Vec<i64>,
}

impl Position {
    pub closed spec fn board(&self) -> Seq<i8> {
        self.board@
    }

    pub closed spec fn side(&self) -> i8 {
        self.team
    }

    pub closed spec fn hash_key(&self) -> i64 {
        self.key
    }

    pub closed spec fn eval_score(&self) -> i16 {
        self.eval
    }

    pub closed spec fn list_r(&self) -> Seq<u8> {
        self.pos_list_r@
    }

    pub closed spec fn list_b(&self) -> Seq<u8> {
        self.pos_list_b@
    }

    pub closed spec fn pid_r(&self) -> Seq<u8> {
        self.pos_pid_r@
    }

    pub closed spec fn pid_b(&self) -> Seq<u8> {
        self.pos_pid_b@
    }

    pub closed spec fn bl9s(&self) -> Seq<u16> {
        self.bl9_items@
    }

    pub closed spec fn bl10s(&self) -> Seq<u16> {
        self.bl10_items@
    }

    pub closed spec fn hist_moves(&self) -> Seq<Move> {
        self.history.moves@
    }

    pub closed spec fn hist_captures(&self) -> Seq<i8> {
        self.history.captures@
    }

    pub closed spec fn hist_keys(&self) -> Seq<i64> {
        self.history.keys@
    }

    pub closed spec fn hist_checkings(&self) -> Seq<bool> {
        self.history.checkings@
    }

    pub closed spec fn zobrist(&self) -> Seq<i64> {
        self.hash_keys@
    }

    /// The occupant of square `i`, or 0 off the board.
    pub open spec fn piece(&self, i: int) -> i8 {
        at(self.board(), i)
    }

    pub open spec fn list_of(&self, team: i8) -> Seq<u8> {
        if team == R {
            self.list_r()
        } else {
            self.list_b()
        }
    }

    pub open spec fn pid_of(&self, team: i8) -> Seq<u8> {
        if team == R {
            self.pid_r()
        } else {
            self.pid_b()
        }
    }

    /// The row line of the row of square `pos`.
    pub open spec fn row_line(&self, pos: int) -> u16 {
        self.bl9s()[pos / 9]
    }

    /// The column line of the column of square `pos`.
    pub open spec fn col_line(&self, pos: int) -> u16 {
        self.bl10s()[pos % 9]
    }

    /// The invariant of a position.
    pub open spec fn wf(&self) -> bool {
        &&& board_ok(self.board())
        &&& self.side() == R || self.side() == B
        &&& list_ok(self.board(), self.list_r(), self.pid_r(), R)
        &&& list_ok(self.board(), self.list_b(), self.pid_b(), B)
        &&& lines_ok(self.board(), self.bl9s(), self.bl10s())
        &&& self.hist_captures().len() == self.hist_moves().len()
        &&& self.hist_keys().len() == self.hist_moves().len()
        &&& self.hist_checkings().len() == self.hist_moves().len()
        &&& keys_ok(self.zobrist())
    }

    /// Red's evaluation after the first step (taking the piece off `beg`),
    /// the second (putting it on `end`) and the third (taking off the
    /// captured piece) of `do_move`.
    pub open spec fn do_eval1(&self, mv: Move) -> int {
        let t = self.side();
        self.eval_score() - t * pst_spec(t, abs8(self.piece(mv.beg as int)), mv.beg)
    }

    pub open spec fn do_eval2(&self, mv: Move) -> int {
        let t = self.side();
        self.do_eval1(mv) + t * pst_spec(t, abs8(self.piece(mv.beg as int)), mv.end)
    }

    pub open spec fn do_eval3(&self, mv: Move) -> int {
        let t = self.side();
        self.do_eval2(mv) + t * pst_spec((-t) as i8, abs8(self.piece(mv.end as int)), mv.end)
    }

    /// What `do_move` needs: a move of a piece of the side to move from a
    /// square on the board to another square on the board that holds no piece
    /// of its own and no king; both piece lists non-empty; a captured piece
    /// not last in its list; every step of the evaluation within 16 bits.
    pub open spec fn do_ok(&self, mv: Move) -> bool {
        let t = self.side();
        let cap = self.piece(mv.end as int);
        &&& mv.beg != mv.end
        &&& mv.beg < 90
        &&& mv.end < 90
        &&& owned(self.piece(mv.beg as int), t)
        &&& cap * t <= 0
        &&& cap != R_KING && cap != B_KING
        &&& self.list_r().len() > 0
        &&& self.list_b().len() > 0
        &&& cap != 0 ==> self.pid_of((-t) as i8)[mv.end as int] < self.list_of((-t) as i8).len() - 1
        &&& fits_i16(self.do_eval1(mv))
        &&& fits_i16(self.do_eval2(mv))
        &&& cap != 0 ==> fits_i16(self.do_eval3(mv))
    }

    /// The position `q` that `do_move` makes of `p` with move `mv`.
    pub open spec fn do_result(p: Position, mv: Move, q: Position) -> bool {
        let t = p.side();
        let beg = mv.beg as int;
        let end = mv.end as int;
        let pc = p.piece(beg);
        let cap = p.piece(end);
        let z = p.zobrist();
        let o = (-t) as i8;
        &&& q.board() == p.board().update(end, pc).update(beg, 0)
        &&& q.side() == -t
        &&& q.hash_key() == p.hash_key() ^ key_of(z, pc as int, beg) ^ key_of(z, cap as int, end) ^ key_of(
            z,
            pc as int,
            end,
        ) ^ SIDE_KEY
        &&& q.eval_score() == (if cap != 0 { p.do_eval3(mv) } else { p.do_eval2(mv) })
        &&& q.zobrist() == z
        &&& q.hist_moves() == p.hist_moves().push(mv)
        &&& q.hist_captures() == p.hist_captures().push(cap)
        &&& q.hist_keys() == p.hist_keys().push(p.hash_key())
        &&& q.hist_checkings() == p.hist_checkings().push(false)
        &&& q.list_of(t) == p.list_of(t).update(p.pid_of(t)[beg] as int, mv.end)
        &&& q.pid_of(t) == swap_pid(p.pid_of(t), beg, end)
        &&& cap == 0 ==> q.list_of(o) == p.list_of(o) && q.pid_of(o) == p.pid_of(o)
        &&& cap != 0 ==> q.list_of(o) == p.list_of(o).drop_last().update(p.pid_of(o)[end] as int, p.list_of(o).last())
            && q.pid_of(o) == p.pid_of(o).update(p.list_of(o).last() as int, p.pid_of(o)[end]).update(end, 0)
    }

    /// The last move of the history.
    pub open spec fn last_move(&self) -> Move {
        self.hist_moves()[self.hist_moves().len() - 1]
    }

    /// The piece code captured by the last move of the history.
    pub open spec fn last_capture(&self) -> i8 {
        self.hist_captures()[self.hist_captures().len() - 1]
    }

    /// Red's evaluation after the steps of `undo_move`: taking the moved
    /// piece off `end`, putting it back on `beg`, putting back the captured
    /// piece on `end`.
    pub open spec fn undo_eval1(&self) -> int {
        let m = (-self.side()) as i8;
        let mv = self.last_move();
        self.eval_score() - m * pst_spec(m, abs8(self.piece(mv.end as int)), mv.end)
    }

    pub open spec fn undo_eval2(&self) -> int {
        let m = (-self.side()) as i8;
        let mv = self.last_move();
        self.undo_eval1() + m * pst_spec(m, abs8(self.piece(mv.end as int)), mv.beg)
    }

    pub open spec fn undo_eval3(&self) -> int {
        let t = self.side();
        let mv = self.last_move();
        self.undo_eval2() + t * pst_spec(t, abs8(self.last_capture()), mv.end)
    }

    /// What `undo_move` needs: a last move in the history whose squares are
    /// on the board, whose moved piece (of the side not to move) stands on
    /// its end square with its start square empty, whose captured piece is
    /// a piece code of the side to move or nothing, and whose evaluation
    /// steps stay within 16 bits.
    pub open spec fn undo_ok(&self) -> bool {
        let t = self.side();
        let mv = self.last_move();
        let cap = self.last_capture();
        &&& self.hist_moves().len() > 0
        &&& mv.beg != mv.end
        &&& mv.beg < 90
        &&& mv.end < 90
        &&& owned(self.piece(mv.end as int), (-t) as i8)
        &&& self.piece(mv.beg as int) == 0
        &&& -7 <= cap <= 7
        &&& cap == 0 || owned(cap, t)
        &&& fits_i16(self.undo_eval1())
        &&& fits_i16(self.undo_eval2())
        &&& cap != 0 ==> fits_i16(self.undo_eval3())
    }

    /// The position `q` that `undo_move` makes of `p`.
    pub open spec fn undo_result(p: Position, q: Position) -> bool {
        let t = p.side();
        let m = (-t) as i8;
        let mv = p.last_move();
        let cap = p.last_capture();
        let beg = mv.beg as int;
        let end = mv.end as int;
        &&& q.board() == p.board().update(beg, p.piece(end)).update(end, cap)
        &&& q.side() == -t
        &&& q.hash_key() == p.hist_keys()[p.hist_keys().len() - 1]
        &&& q.eval_score() == (if cap != 0 { p.undo_eval3() } else { p.undo_eval2() })
        &&& q.zobrist() == p.zobrist()
        &&& q.hist_moves() == p.hist_moves().drop_last()
        &&& q.hist_captures() == p.hist_captures().drop_last()
        &&& q.hist_keys() == p.hist_keys().drop_last()
        &&& q.hist_checkings() == p.hist_checkings().drop_last()
        &&& q.list_of(m) == p.list_of(m).update(p.pid_of(m)[end] as int, mv.beg)
        &&& q.pid_of(m) == swap_pid(p.pid_of(m), end, beg)
        &&& cap == 0 ==> q.list_of(t) == p.list_of(t) && q.pid_of(t) == p.pid_of(t)
        &&& cap != 0 ==> q.list_of(t) == p.list_of(t).push(mv.end) && q.pid_of(t) == p.pid_of(t).update(
            end,
            p.list_of(t).len() as u8,
        )
    }

    /// The position `q` that passing the move makes of `p`: the side key
    /// toggled and the other side to move, nothing else changed.
    pub open spec fn null_result(p: Position, q: Position) -> bool {
        &&& q.hash_key() == p.hash_key() ^ SIDE_KEY
        &&& q.side() == -p.side()
        &&& q.board() == p.board()
        &&& q.eval_score() == p.eval_score()
        &&& q.list_r() == p.list_r()
        &&& q.list_b() == p.list_b()
        &&& q.pid_r() == p.pid_r()
        &&& q.pid_b() == p.pid_b()
        &&& q.bl9s() == p.bl9s()
        &&& q.bl10s() == p.bl10s()
        &&& q.hist_moves() == p.hist_moves()
        &&& q.hist_captures() == p.hist_captures()
        &&& q.hist_keys() == p.hist_keys()
        &&& q.hist_checkings() == p.hist_checkings()
        &&& q.zobrist() == p.zobrist()
    }

    /// Any king of side `t` (piece code `t`) stands first in `t`'s list.
    pub open spec fn king_first(&self, t: i8) -> bool {
        forall|i: int|
            0 <= i < 90 && #[trigger] self.board()[i] == t ==> self.list_of(t).len() > 0 && self.list_of(t)[0] == i
    }

    /// Each side's king, where it has one, stands first in its piece list.
    pub open spec fn kings_first(&self) -> bool {
        self.king_first(R) && self.king_first(B)
    }

    /// The square of the first piece in the side to move's list (its king,
    /// for a position set up by `init` with a king).
    pub open spec fn king_sq(&self) -> int {
        self.list_of(self.side())[0] as int
    }

    /// Whether square `x` holds the opponent's piece of kind `kind`.
    pub open spec fn enemy_at(&self, x: int, kind: i8) -> bool {
        self.piece(x) * self.side() == -kind
    }

    pub open spec fn face_king_spec(&self) -> bool {
        self.list_r()[0] % 9 == self.list_b()[0] % 9 && face_pattern(self.col_line(self.list_r()[0] as int))
    }

    /// What `in_check` answers, check by check in its order: pawns; then
    /// the knight pair behind the first empty square of `pos - 10`,
    /// `pos + 10`, `pos + 8`, `pos - 8` (only that pair is looked at); rooks
    /// and cannons at their line points; the kings facing each other.
    pub open spec fn in_check_spec(&self) -> bool {
        let pos = self.king_sq();
        let t = self.side();
        let rl = banner_spec(self.row_line(pos), pos as u8, true, true);
        let rc = banner_spec(self.col_line(pos), pos as u8, false, true);
        let cl = banner_spec(self.row_line(pos), pos as u8, true, false);
        let cc = banner_spec(self.col_line(pos), pos as u8, false, false);
        if self.enemy_at(pos - 9 * t, R_PAWN) || self.enemy_at(pos - 1, R_PAWN) || self.enemy_at(pos + 1, R_PAWN) {
            true
        } else if self.piece(w8(pos - 10)) == 0 {
            self.enemy_at(w8(pos - 19), R_KNIGHT) || self.enemy_at(w8(pos - 11), R_KNIGHT)
        } else if self.piece(pos + 10) == 0 {
            self.enemy_at(pos + 19, R_KNIGHT) || self.enemy_at(pos + 11, R_KNIGHT)
        } else if self.piece(pos + 8) == 0 {
            self.enemy_at(pos + 17, R_KNIGHT) || self.enemy_at(pos + 7, R_KNIGHT)
        } else if self.piece(w8(pos - 8)) == 0 {
            self.enemy_at(w8(pos - 17), R_KNIGHT) || self.enemy_at(w8(pos - 7), R_KNIGHT)
        } else if self.enemy_at(rl.0 as int, R_ROOK) || self.enemy_at(rl.1 as int, R_ROOK)
            || self.enemy_at(rc.0 as int, R_ROOK) || self.enemy_at(rc.1 as int, R_ROOK) {
            true
        } else if (cl.0 < 90 && self.enemy_at(cl.0 as int, R_CANNON)) || (cl.1 < 90 && self.enemy_at(
            cl.1 as int,
            R_CANNON,
        )) || (cc.0 < 90 && self.enemy_at(cc.0 as int, R_CANNON)) || (cc.1 < 90 && self.enemy_at(
            cc.1 as int,
            R_CANNON,
        )) {
            true
        } else {
            self.face_king_spec()
        }
    }

    /// Whether square `x` holds the side to move's piece of kind `kind`.
    pub open spec fn friend_at(&self, x: int, kind: i8) -> bool {
        self.piece(x) * self.side() == kind
    }

    /// What `legal_move` answers.  A move must take a piece of the side to
    /// move to a square without its own piece and without a king.  A king
    /// steps one square inside its palace; an advisor steps diagonally to a
    /// palace square of its side; a bishop and a knight need only the
    /// blocking square for their offset empty (any other offset is judged by
    /// the last blocking square); rooks and cannons are never accepted, as
    /// the row-and-column test rejects every move; anything else is accepted.
    pub open spec fn legal_move_spec(&self, mv: Move) -> bool {
        let t = self.side();
        let beg = mv.beg as int;
        let end = mv.end as int;
        let p = self.piece(beg);
        let e = self.piece(end);
        let d = end - beg;
        if t * e > 0 || p * t <= 0 {
            false
        } else if e == R_KING || e == B_KING {
            false
        } else if p == R_KING || p == B_KING {
            &&& d == 1 || d == -1 || d == 9 || d == -9
            &&& 3 <= end % 9 <= 5
            &&& !(p == R_KING && end / 9 < 7)
            &&& !(p == B_KING && end / 9 > 2)
        } else if p == R_ADVISOR || p == B_ADVISOR {
            &&& d == 10 || d == -10 || d == 8 || d == -8
            &&& end == 13 || end == 76 || (3 <= end % 9 <= 5 && ((p == R_ADVISOR && end / 9 >= 7) || (p
                == B_ADVISOR && end / 9 <= 2)))
            &&& !(p == R_ADVISOR && end / 9 < 7)
            &&& !(p == B_ADVISOR && end / 9 > 2)
        } else if p == R_BISHOP || p == -R_BISHOP {
            if d == 20 {
                self.piece(beg + 10) == 0
            } else if d == 16 {
                self.piece(beg + 8) == 0
            } else if d == -20 {
                self.piece(beg - 10) == 0
            } else {
                self.piece(w8(beg - 8)) == 0
            }
        } else if p == R_KNIGHT || p == -R_KNIGHT {
            if d == 17 || d == 15 {
                self.piece(beg + 9) == 0
            } else if d == -17 || d == -15 {
                self.piece(beg - 9) == 0
            } else if d == 10 || d == -6 {
                self.piece(beg + 1) == 0
            } else {
                self.piece(w8(beg - 1)) == 0
            }
        } else if p == R_CANNON || p == -R_CANNON || p == R_ROOK || p == -R_ROOK {
            false
        } else {
            true
        }
    }

    /// The first protector that `get_protector` finds for square `pos` among
    /// the pieces near it: a pawn, an advisor, a bishop, a knight.
    pub open spec fn protector_near(&self, pos: int) -> Option<int> {
        let t = self.side();
        let c1 = t == R && pos / 9 > 6 && pos % 9 > 2 && pos % 9 < 5;
        let c2 = t == B && pos / 9 < 3 && pos % 9 > 2 && pos % 9 < 5;
        let crossed = (pos / 9 < 5 && t == R) || (pos / 9 > 4 && t == B);
        let home = (t == R && pos / 9 > 4) || (t == B && pos / 9 < 5);
        if self.friend_at(w8(pos - 9 * t), R_PAWN) {
            Some(w8(pos - 9 * t))
        } else if crossed && self.friend_at(w8(pos - 1), R_PAWN) {
            Some(w8(pos - 1))
        } else if crossed && self.friend_at(w8(pos + 1), R_PAWN) {
            Some(w8(pos + 1))
        } else if (c1 || c2) && self.friend_at(w8(pos - 10), R_ADVISOR) {
            Some(w8(pos - 10))
        } else if (c1 || c2) && self.friend_at(w8(pos - 8), R_ADVISOR) {
            Some(w8(pos - 8))
        } else if (c1 || c2) && self.friend_at(w8(pos + 10), R_ADVISOR) {
            Some(w8(pos + 10))
        } else if (c1 || c2) && self.friend_at(w8(pos + 8), R_ADVISOR) {
            Some(w8(pos + 8))
        } else if home && self.piece(w8(pos - 10)) == 0 && self.friend_at(w8(pos - 20), R_BISHOP) {
            Some(w8(pos - 20))
        } else if home && self.piece(w8(pos - 8)) == 0 && self.friend_at(w8(pos - 16), R_BISHOP) {
            Some(w8(pos - 16))
        } else if home && self.friend_at(w8(pos + 20), R_BISHOP) {
            Some(w8(pos + 20))
        } else if home && self.friend_at(w8(pos + 16), R_BISHOP) {
            Some(w8(pos + 16))
        } else if self.piece(w8(pos - 10)) == 0 && self.friend_at(w8(pos - 19), R_KNIGHT) {
            Some(w8(pos - 19))
        } else if self.piece(w8(pos - 10)) == 0 && self.friend_at(w8(pos - 11), R_KNIGHT) {
            Some(w8(pos - 11))
        } else if self.piece(w8(pos + 10)) == 0 && self.friend_at(w8(pos + 19), R_KNIGHT) {
            Some(w8(pos + 19))
        } else if self.piece(w8(pos + 10)) == 0 && self.friend_at(w8(pos + 11), R_KNIGHT) {
            Some(w8(pos + 11))
        } else if self.piece(w8(pos - 8)) == 0 && self.friend_at(w8(pos - 17), R_KNIGHT) {
            Some(w8(pos - 17))
        } else if self.piece(w8(pos - 8)) == 0 && self.friend_at(w8(pos - 7), R_KNIGHT) {
            Some(w8(pos - 7))
        } else if self.piece(w8(pos + 8)) == 0 && self.friend_at(w8(pos + 17), R_KNIGHT) {
            Some(w8(pos + 17))
        } else if self.piece(w8(pos + 8)) == 0 && self.friend_at(w8(pos + 7), R_KNIGHT) {
            Some(w8(pos + 7))
        } else {
            None
        }
    }

    /// What `get_protector` answers: a near protector, else a cannon at a
    /// cannon point, else a rook at a rook point, else (in the palace) a
    /// king next to `pos`, else `INVALID_POS`.
    pub open spec fn protector_spec(&self, pos: int) -> int {
        let t = self.side();
        let c1 = t == R && pos / 9 > 6 && pos % 9 > 2 && pos % 9 < 5;
        let c2 = t == B && pos / 9 < 3 && pos % 9 > 2 && pos % 9 < 5;
        let rl = banner_spec(self.row_line(pos), pos as u8, true, true);
        let rc = banner_spec(self.col_line(pos), pos as u8, false, true);
        let cl = banner_spec(self.row_line(pos), pos as u8, true, false);
        let cc = banner_spec(self.col_line(pos), pos as u8, false, false);
        match self.protector_near(pos) {
            Some(x) => x,
            None => if cl.0 < 90 && self.friend_at(cl.0 as int, R_CANNON) {
                cl.0 as int
            } else if cl.1 < 90 && self.friend_at(cl.1 as int, R_CANNON) {
                cl.1 as int
            } else if cc.0 < 90 && self.friend_at(cc.0 as int, R_CANNON) {
                cc.0 as int
            } else if cc.1 < 90 && self.friend_at(cc.1 as int, R_CANNON) {
                cc.1 as int
            } else if self.friend_at(rl.0 as int, R_ROOK) {
                rl.0 as int
            } else if self.friend_at(rl.1 as int, R_ROOK) {
                rl.1 as int
            } else if self.friend_at(rc.0 as int, R_ROOK) {
                rc.0 as int
            } else if self.friend_at(rc.1 as int, R_ROOK) {
                rc.1 as int
            } else if (c1 || c2) && self.friend_at(w8(pos - 9), R_KING) {
                w8(pos - 9)
            } else if (c1 || c2) && self.friend_at(w8(pos + 9), R_KING) {
                w8(pos + 9)
            } else if (c1 || c2) && self.friend_at(w8(pos - 1), R_KING) {
                w8(pos - 1)
            } else if (c1 || c2) && self.friend_at(w8(pos + 1), R_KING) {
                w8(pos + 1)
            } else {
                INVALID_POS as int
            },
        }
    }

    /// Whether every second entry of the checking flags from `k` on is set.
    pub open spec fn checks_from(&self, k: int) -> bool {
        forall|j: int|
            k <= j < self.hist_checkings().len() && (j - k) % 2 == 0 ==> #[trigger] self.hist_checkings()[j]
    }

    /// The backward scan of `is_repeat` over the first `i` history entries:
    /// the latest earlier occurrence of the current key, if met before a
    /// capture, must lie at least four entries back with every second
    /// entry from it a checking move.
    pub open spec fn repeat_scan(&self, i: int) -> bool
        decreases i,
    {
        if i <= 0 {
            false
        } else {
            let k = i - 1;
            if self.hist_keys()[k] == self.hash_key() {
                self.hist_keys().len() - k >= 4 && self.checks_from(k)
            } else if self.hist_captures()[k] != 0 {
                false
            } else {
                self.repeat_scan(i - 1)
            }
        }
    }

    /// What `is_repeat` answers: at least four history entries, as many
    /// checking flags as keys, and a repetition found by `repeat_scan`.
    pub open spec fn is_repeat_spec(&self) -> bool {
        let n = self.hist_keys().len();
        n >= 4 && self.hist_checkings().len() == n && self.repeat_scan(n as int)
    }

    /// `self` and `other` hold the same board, piece lists, lines and
    /// evaluation (the side to move and the key may differ).
    pub open spec fn same_setup(&self, other: &Position) -> bool {
        &&& self.board() == other.board()
        &&& self.list_r() == other.list_r()
        &&& self.list_b() == other.list_b()
        &&& self.bl9s() == other.bl9s()
        &&& self.bl10s() == other.bl10s()
        &&& self.eval_score() == other.eval_score()
    }

    /// Everything but the evaluation is the same in `self` and `other`.
    pub open spec fn same_but_eval(&self, other: &Position) -> bool {
        &&& self.board() == other.board()
        &&& self.side() == other.side()
        &&& self.hash_key() == other.hash_key()
        &&& self.list_r() == other.list_r()
        &&& self.list_b() == other.list_b()
        &&& self.pid_r() == other.pid_r()
        &&& self.pid_b() == other.pid_b()
        &&& self.bl9s() == other.bl9s()
        &&& self.bl10s() == other.bl10s()
        &&& self.hist_moves() == other.hist_moves()
        &&& self.hist_captures() == other.hist_captures()
        &&& self.hist_keys() == other.hist_keys()
        &&& self.hist_checkings() == other.hist_checkings()
        &&& self.zobrist() == other.zobrist()
    }

    /// Whether a piece of kind `abs_type` may move to square `pos` for the
    /// side to move: a capture (`CAPTURE`), a move to an empty square
    /// (`QUIET`) or either (any other `g`), never onto a king.
    pub open spec fn target_ok(&self, pos: int, g: GenType) -> bool {
        if pos >= 90 {
            false
        } else {
            let t = self.piece(pos);
            if t == R_KING || t == -R_KING {
                false
            } else if g == CAPTURE {
                t * self.side() < 0
            } else if g == QUIET {
                t == 0
            } else {
                t * self.side() <= 0
            }
        }
    }

    /// An empty position with red to move, and the Zobrist key table drawn.
    pub fn new() -> (p: Position)
        ensures
            p.wf(),
            forall|i: int| 0 <= i < 90 ==> #[trigger] p.board()[i] == 0,
            p.side() == R,
            p.hash_key() == 0,
            p.eval_score() == 0,
            p.list_r().len() == 0,
            p.list_b().len() == 0,
            p.hist_moves().len() == 0,
    {
        let p = Position {
            board: [0i8; 90],
            team: R,
            key: 0,
            eval: 0,
            history: History {
                checkings: Vec::new(),
                moves: Vec::new(),
                captures: Vec::new(),
                keys: Vec::new(),
            },
            pos_list_r: Vec::new(),
            pos_list_b: Vec::new(),
            pos_pid_r: [0u8; 90],
            pos_pid_b: [0u8; 90],
            bl10_items: [0u16; 10],
            bl9_items: [0u16; 10],
            hash_keys: hash_keys(),
        };
        proof {
            assert forall|j: int| 0 <= j < 10 implies !#[trigger] has_bit(0u32, j) by {
                lemma_line_zero(j as u32);
            }
        }
        p
    }

    /// Sets up the position from a board and the side to move: clears the
    /// history, builds the piece lists (each side's king first, then its
    /// other pieces in square order), the occupancy lines, the hash key and
    /// the evaluation.
    pub fn init(&mut self, board: &Matrix, team: Team)
        requires
            keys_ok(old(self).zobrist()),
            board_ok(board@),
            forall|n: int| 0 <= n <= 90 ==> #[trigger] fits_i16(pst_total(board@, n)),
        ensures
            final(self).board() == board@,
            final(self).side() == team,
            final(self).zobrist() == old(self).zobrist(),
            final(self).hash_key() == zobrist_spec(board@, team, final(self).zobrist()),
            final(self).eval_score() == pst_total(board@, 90),
            final(self).list_r() == init_list(board@, R),
            final(self).list_b() == init_list(board@, B),
            forall|i: int|
                0 <= i < 90 ==> #[trigger] final(self).pid_r()[i] == (if owned(board@[i], R) && board@[i]
                    != R_KING {
                    kings_of(board@, R, 90).len() + others_of(board@, R, i).len()
                } else {
                    0
                }),
            forall|i: int|
                0 <= i < 90 ==> #[trigger] final(self).pid_b()[i] == (if owned(board@[i], B) && board@[i]
                    != B_KING {
                    kings_of(board@, B, 90).len() + others_of(board@, B, i).len()
                } else {
                    0
                }),
            lines_ok(board@, final(self).bl9s(), final(self).bl10s()),
            final(self).hist_moves().len() == 0,
            final(self).hist_captures().len() == 0,
            final(self).hist_keys().len() == 0,
            final(self).hist_checkings().len() == 0,
            (team == R || team == B) && kings_of(board@, R, 90).len() <= 1 && kings_of(board@, B, 90).len()
                <= 1 ==> final(self).wf(),
    {
        self.history.moves.clear();
        self.history.captures.clear();
        self.history.checkings.clear();
        self.history.keys.clear();
        self.pos_pid_r = [0u8; 90];
        self.pos_pid_b = [0u8; 90];
        self.pos_list_b.clear();
        self.pos_list_r.clear();
        self.bl10_items = [0u16; 10];
        self.bl9_items = [0u16; 10];
        self.key = 0;
        self.board = *board;
        self.team = team;
        if team == B {
            self.key ^= SIDE_KEY;
            assert(0i64 ^ SIDE_KEY == SIDE_KEY) by (bit_vector);
        }
        let ghost seed = self.key;
        assert(seed == if team == B { SIDE_KEY } else { 0 });
        // the kings first
        let mut i: usize = 0;
        while i < 90
            invariant
                i <= 90,
                self.board@ == board@,
                self.pos_list_r@ == kings_of(board@, R, i as int),
                self.pos_list_b@ == kings_of(board@, B, i as int),
                forall|j: int| 0 <= j < 90 ==> #[trigger] self.pos_pid_r@[j] == 0,
                forall|j: int| 0 <= j < 90 ==> #[trigger] self.pos_pid_b@[j] == 0,
                forall|j: int| 0 <= j < 10 ==> #[trigger] self.bl9_items@[j] == 0,
                forall|j: int| 0 <= j < 10 ==> #[trigger] self.bl10_items@[j] == 0,
                self.hash_keys@ == old(self).hash_keys@,
                self.key == seed,
                self.team == team,
                self.history.moves@.len() == 0,
                self.history.captures@.len() == 0,
                self.history.keys@.len() == 0,
                self.history.checkings@.len() == 0,
            decreases 90 - i,
        {
            if board[i] == R_KING {
                self.pos_pid_r[i] = 0;
                self.pos_list_r.push(i as Pos);
            } else if board[i] == B_KING {
                self.pos_pid_b[i] = 0;
                self.pos_list_b.push(i as Pos);
            }
            i += 1;
        }
        let ghost kings_r = self.pos_list_r@;
        let ghost kings_b = self.pos_list_b@;
        proof {
            lemma_lines_start(board@, self.bl9_items@, self.bl10_items@);
            lemma_kings_of(board@, R, 90);
            lemma_kings_of(board@, B, 90);
        }
        // the other pieces, the hash key and the lines
        let mut i: usize = 0;
        while i < 90
            invariant
                i <= 90,
                board_ok(board@),
                self.board@ == board@,
                self.hash_keys@ == old(self).hash_keys@,
                keys_ok(self.hash_keys@),
                self.key == board_hash(board@, self.hash_keys@, i as int, seed),
                kings_r == kings_of(board@, R, 90),
                kings_b == kings_of(board@, B, 90),
                kings_r.len() <= 90,
                kings_b.len() <= 90,
                self.pos_list_r@ == kings_r + others_of(board@, R, i as int),
                self.pos_list_b@ == kings_b + others_of(board@, B, i as int),
                forall|j: int|
                    0 <= j < 90 ==> #[trigger] self.pos_pid_r@[j] == (if owned(board@[j], R) && board@[j]
                        != R_KING && j < i {
                        kings_r.len() + others_of(board@, R, j).len()
                    } else {
                        0
                    }),
                forall|j: int|
                    0 <= j < 90 ==> #[trigger] self.pos_pid_b@[j] == (if owned(board@[j], B) && board@[j]
                        != B_KING && j < i {
                        kings_b.len() + others_of(board@, B, j).len()
                    } else {
                        0
                    }),
                lines_upto(board@, self.bl9_items@, self.bl10_items@, i as int),
                self.team == team,
                self.history.moves@.len() == 0,
                self.history.captures@.len() == 0,
                self.history.keys@.len() == 0,
                self.history.checkings@.len() == 0,
            decreases 90 - i,
        {
            proof {
                lemma_others_of(board@, R, i as int);
                lemma_others_of(board@, B, i as int);
            }
            assert(-7 <= board@[i as int] <= 7);
            self.key ^= self.hash_keys[((board[i] + 7) as usize) * 90 + i];
            let ghost bl9_before = self.bl9_items@;
            let ghost bl10_before = self.bl10_items@;
            if board[i] != 0 {
                assert(i < 90);
                self.bl10_items[i % 9] |= 1u16 << ((i / 9) as u8);
                self.bl9_items[i / 9] |= 1u16 << ((i % 9) as u8);
            }
            proof {
                lemma_lines_step(board@, bl9_before, bl10_before, self.bl9_items@, self.bl10_items@, i as int);
            }
            if board[i] > 0 && board[i] != R_KING {
                self.pos_pid_r[i] = self.pos_list_r.len() as Pid;
                self.pos_list_r.push(i as Pos);
            } else if board[i] < 0 && board[i] != B_KING {
                self.pos_pid_b[i] = self.pos_list_b.len() as Pid;
                self.pos_list_b.push(i as Pos);
            }
            i += 1;
        }
        proof {
            lemma_lines_done(board@, self.bl9_items@, self.bl10_items@);
            lemma_others_of(board@, R, 90);
            lemma_others_of(board@, B, 90);
        }
        // the evaluation
        self.eval_reset();
        let ghost snap = *self;
        let mut i: usize = 0;
        while i < 90
            invariant
                i <= 90,
                board_ok(board@),
                self.board@ == board@,
                forall|n: int| 0 <= n <= 90 ==> #[trigger] fits_i16(pst_total(board@, n)),
                self.eval == pst_total(board@, i as int),
                self.same_but_eval(&snap),
            decreases 90 - i,
        {
            assert(fits_i16(pst_total(board@, i + 1)));
            if board[i] != 0 {
                proof {
                    lemma_pst_bounded(if board@[i as int] > 0 { R } else { B }, abs8(board@[i as int]), i as u8);
                }
                self.eval_add(if board[i] > 0 { R } else { B }, board[i], i as Pos);
            }
            i += 1;
        }
        proof {
            if (team == R || team == B) && kings_r.len() <= 1 && kings_b.len() <= 1 {
                self.lemma_init_lists_ok(board@);
            }
        }
    }

    proof fn lemma_init_lists_ok(&self, board: Seq<i8>)
        requires
            board_ok(board),
            self.board() == board,
            kings_of(board, R, 90).len() <= 1,
            kings_of(board, B, 90).len() <= 1,
            self.list_r() == init_list(board, R),
            self.list_b() == init_list(board, B),
            self.pid_r().len() == 90,
            self.pid_b().len() == 90,
            forall|i: int|
                0 <= i < 90 ==> #[trigger] self.pid_r()[i] == (if owned(board[i], R) && board[i] != R_KING {
                    kings_of(board, R, 90).len() + others_of(board, R, i).len()
                } else {
                    0
                }),
            forall|i: int|
                0 <= i < 90 ==> #[trigger] self.pid_b()[i] == (if owned(board[i], B) && board[i] != B_KING {
                    kings_of(board, B, 90).len() + others_of(board, B, i).len()
                } else {
                    0
                }),
        ensures
            list_ok(board, self.list_r(), self.pid_r(), R),
            list_ok(board, self.list_b(), self.pid_b(), B),
    {
        lemma_init_list_ok(board, self.list_r(), self.pid_r(), R);
        lemma_init_list_ok(board, self.list_b(), self.pid_b(), B);
    }

    /// Resets the evaluation to 0.
    pub fn eval_reset(&mut self)
        ensures
            final(self).eval_score() == 0,
            final(self).same_but_eval(old(self)),
    {
        self.eval = 0;
    }

    /// Adds the table value of piece `p` of `team` on `pos`, signed by `team`.
    pub fn eval_add(&mut self, team: Team, p: PType, pos: Pos)
        requires
            p != -128,
            team != R ==> pos <= 89,
            team == R && 2 <= abs8(p) <= 7 ==> pos < 90,
            fits_i16(team * pst_spec(team, abs8(p), pos)),
            fits_i16(old(self).eval_score() + team * pst_spec(team, abs8(p), pos)),
        ensures
            final(self).eval_score() == old(self).eval_score() + team * pst_spec(
                team,
                abs8(p),
                pos,
            ),
            final(self).same_but_eval(old(self)),
    {
        self.eval += team as i16 * pst(team, abs_piece(p), pos);
    }

    /// Subtracts the table value of piece `p` of `team` on `pos`, signed by `team`.
    pub fn eval_remove(&mut self, team: Team, p: PType, pos: Pos)
        requires
            p != -128,
            team != R ==> pos <= 89,
            team == R && 2 <= abs8(p) <= 7 ==> pos < 90,
            fits_i16(team * pst_spec(team, abs8(p), pos)),
            fits_i16(old(self).eval_score() - team * pst_spec(team, abs8(p), pos)),
        ensures
            final(self).eval_score() == old(self).eval_score() - team * pst_spec(
                team,
                abs8(p),
                pos,
            ),
            final(self).same_but_eval(old(self)),
    {
        self.eval -= team as i16 * pst(team, abs_piece(p), pos);
    }

    /// Moves the table value of piece `p` of `team` from `pos_from` to `pos_to`.
    pub fn eval_slide(&mut self, team: Team, p: PType, pos_from: Pos, pos_to: Pos)
        requires
            p != -128,
            team != R ==> pos_from <= 89 && pos_to <= 89,
            team == R && 2 <= abs8(p) <= 7 ==> pos_from < 90 && pos_to < 90,
            fits_i16(team * pst_spec(team, abs8(p), pos_from)),
            fits_i16(team * pst_spec(team, abs8(p), pos_to)),
            fits_i16(old(self).eval_score() - team * pst_spec(team, abs8(p), pos_from)),
            fits_i16(old(self).eval_score() - team * pst_spec(team, abs8(p), pos_from)
                + team * pst_spec(team, abs8(p), pos_to)),
        ensures
            final(self).eval_score() == old(self).eval_score()
                - team * pst_spec(team, abs8(p), pos_from)
                + team * pst_spec(team, abs8(p), pos_to),
            final(self).same_but_eval(old(self)),
    {
        self.eval_remove(team, p, pos_from);
        self.eval_add(team, p, pos_to);
    }

    /// The occupant of square `pos`, or 0 off the board.
    pub fn get_piece(&self, pos: Pos) -> (r: PType)
        ensures
            r == self.piece(pos as int),
    {
        if pos >= 90 {
            return 0;
        }
        self.board[pos as usize]
    }

    /// Whether the side to move may move a piece to `pos` (see `target_ok`).
    pub fn target_chk(&self, pos: Pos, g: GenType) -> (r: bool)
        requires
            self.wf(),
        ensures
            r == self.target_ok(pos as int, g),
    {
        if pos >= 90 {
            return false;
        }
        let target = self.board[pos as usize];
        assert(-7 <= self.board()[pos as int] <= 7);
        proof {
            lemma_times_side(target as int, self.team as int);
        }
        if abs_piece(target) == R_KING {
            return false;
        }
        if g == CAPTURE {
            (target * self.team as i8) < 0
        } else if g == QUIET {
            target == 0
        } else {
            (target * self.team as i8) <= 0
        }
    }

    /// The occupancy line of the column of square `col`.
    pub fn get_bl10(&self, col: Pos) -> (r: u16)
        requires
            self.wf(),
        ensures
            r == self.col_line(col as int),
    {
        self.bl10_items[col as usize % 9]
    }

    /// The occupancy line of the row of square `row` (one line for each of
    /// the ten rows).
    pub fn get_bl9(&self, row: Pos) -> (r: u16)
        requires
            self.wf(),
            row < 90,
        ensures
            r == self.row_line(row as int),
    {
        self.bl9_items[row as usize / 9]
    }

    /// The squares of the side to move's pieces, in list order.
    pub fn get_pos_list(&self) -> (r: Vec<Pos>)
        requires
            self.wf(),
        ensures
            r@ == self.list_of(self.side()),
    {
        if self.team == R {
            self.pos_list_r.clone()
        } else {
            self.pos_list_b.clone()
        }
    }

    /// Whether the first-listed red and black pieces (the kings, when the
    /// lists start with them) share a column whose line is one of the
    /// facing patterns.
    pub fn face_king(&self) -> (r: bool)
        requires
            self.wf(),
            self.list_r().len() > 0,
            self.list_b().len() > 0,
        ensures
            r == (self.list_r()[0] % 9 == self.list_b()[0] % 9
                && face_pattern(self.col_line(self.list_r()[0] as int))),
    {
        if self.pos_list_r[0] % 9 == self.pos_list_b[0] % 9 {
            let l = self.get_bl10(self.pos_list_r[0] % 9);
            return l == 0b1000000001 || l == 0b1000000010 || l == 0b1000000100
                || l == 0b0100000001 || l == 0b0100000010 || l == 0b0100000100
                || l == 0b0010000001 || l == 0b0010000010 || l == 0b0010000100;
        }
        false
    }

    /// Makes move `mv`: records it in the history, updates the evaluation,
    /// the hash key, the piece lists, the lines and the board, and passes
    /// the turn.
    pub fn do_move(&mut self, mv: Move)
        requires
            old(self).wf(),
            old(self).do_ok(mv),
        ensures
            final(self).wf(),
            Self::do_result(*old(self), mv, *final(self)),
    {
        let beg = mv.beg as usize;
        let end = mv.end as usize;
        let team = self.team;
        let pc = self.board[beg];
        let cap = self.board[end];
        proof {
            lemma_times_side(pc as int, team as int);
            lemma_times_side(cap as int, team as int);
            lemma_pst_bounded(team, abs8(pc), mv.beg);
            lemma_pst_bounded(team, abs8(pc), mv.end);
            lemma_pst_bounded((-team) as i8, abs8(cap), mv.end);
            lemma_times_side(pst_spec(team, abs8(pc), mv.beg) as int, team as int);
            lemma_times_side(pst_spec(team, abs8(pc), mv.end) as int, team as int);
            lemma_times_side(pst_spec((-team) as i8, abs8(cap), mv.end) as int, team as int);
            lemma_times_side(pst_spec((-team) as i8, abs8(cap), mv.end) as int, -team as int);
        }
        self.history.moves.push(mv);
        self.history.captures.push(cap);
        self.history.keys.push(self.key);
        self.history.checkings.push(false);

        self.eval_slide(team, pc, mv.beg, mv.end);
        if cap != 0 {
            self.eval_remove(-team, cap, mv.end);
        }

        self.key ^= self.hash_keys[((pc + 7) as usize) * 90 + beg];
        self.key ^= self.hash_keys[((cap + 7) as usize) * 90 + end];
        self.key ^= self.hash_keys[((pc + 7) as usize) * 90 + end];
        self.key ^= SIDE_KEY;

        let ghost board0 = self.board@;
        let ghost board1 = board0.update(end as int, pc).update(beg as int, 0);
        let ghost lr0 = self.pos_list_r@;
        let ghost lb0 = self.pos_list_b@;
        let ghost pr0 = self.pos_pid_r@;
        let ghost pb0 = self.pos_pid_b@;
        if team == R {
            proof {
                lemma_listed(board0, lr0, pr0, R, beg as int);
            }
            let k = self.pos_pid_r[beg] as usize;
            self.pos_list_r[k] = mv.end;
            let tmp = self.pos_pid_r[beg];
            self.pos_pid_r[beg] = self.pos_pid_r[end];
            self.pos_pid_r[end] = tmp;
            proof {
                lemma_list_move(board0, board1, lr0, pr0, R, beg as int, end as int);
            }
            if cap != 0 {
                proof {
                    lemma_listed(board0, lb0, pb0, B, end as int);
                    lemma_list_capture(board0, board1, lb0, pb0, B, beg as int, end as int);
                }
                let pid = self.pos_pid_b[end];
                let last_pos = self.pos_list_b.pop().unwrap();
                self.pos_list_b[pid as usize] = last_pos;
                self.pos_pid_b[last_pos as usize] = pid;
                self.pos_pid_b[end] = 0;
            } else {
                proof {
                    lemma_list_untouched(board0, board1, lb0, pb0, B, beg as int, end as int);
                }
            }
        } else {
            proof {
                lemma_listed(board0, lb0, pb0, B, beg as int);
            }
            let k = self.pos_pid_b[beg] as usize;
            self.pos_list_b[k] = mv.end;
            let tmp = self.pos_pid_b[beg];
            self.pos_pid_b[beg] = self.pos_pid_b[end];
            self.pos_pid_b[end] = tmp;
            proof {
                lemma_list_move(board0, board1, lb0, pb0, B, beg as int, end as int);
            }
            if cap != 0 {
                proof {
                    lemma_listed(board0, lr0, pr0, R, end as int);
                    lemma_list_capture(board0, board1, lr0, pr0, R, beg as int, end as int);
                }
                let pid = self.pos_pid_r[end];
                let last_pos = self.pos_list_r.pop().unwrap();
                self.pos_list_r[pid as usize] = last_pos;
                self.pos_pid_r[last_pos as usize] = pid;
                self.pos_pid_r[end] = 0;
            } else {
                proof {
                    lemma_list_untouched(board0, board1, lr0, pr0, R, beg as int, end as int);
                }
            }
        }

        let ghost bl9_0 = self.bl9_items@;
        let ghost bl10_0 = self.bl10_items@;
        self.bl10_items[end % 9] |= 1u16 << (mv.end / 9);
        self.bl9_items[end / 9] |= 1u16 << (mv.end % 9);
        self.bl10_items[beg % 9] &= !(1u16 << (mv.beg / 9));
        self.bl9_items[beg / 9] &= !(1u16 << (mv.beg % 9));
        proof {
            lemma_lines_move(board0, board1, bl9_0, bl10_0, self.bl9_items@, self.bl10_items@, beg as int, end as int);
        }

        self.board[end] = self.board[beg];
        self.board[beg] = 0;
        self.team = -self.team;
        assert(self.board@ == board1);
    }

    /// Takes back the last move of the history.  The moved piece is taken
    /// to belong to the side not to move; after an odd number of null moves
    /// since that move it does not, the piece lists would be updated for the
    /// wrong side, and `undo_ok` rules that case out.
    pub fn undo_move(&mut self)
        requires
            old(self).wf(),
            old(self).undo_ok(),
        ensures
            final(self).wf(),
            Self::undo_result(*old(self), *final(self)),
    {
        let mv = self.history.moves.pop().unwrap();
        let beg = mv.beg as usize;
        let end = mv.end as usize;
        let captured = self.history.captures.pop().unwrap();
        let prev_key = self.history.keys.pop().unwrap();
        self.history.checkings.pop();

        let team = self.team;
        let moved = self.board[end];
        proof {
            lemma_times_side(moved as int, team as int);
            lemma_times_side(moved as int, -team as int);
            lemma_times_side(captured as int, team as int);
            lemma_times_side(captured as int, -team as int);
            lemma_pst_bounded((-team) as i8, abs8(moved), mv.end);
            lemma_pst_bounded((-team) as i8, abs8(moved), mv.beg);
            lemma_pst_bounded(team, abs8(captured), mv.end);
            lemma_times_side(pst_spec((-team) as i8, abs8(moved), mv.end) as int, -team as int);
            lemma_times_side(pst_spec((-team) as i8, abs8(moved), mv.beg) as int, -team as int);
            lemma_times_side(pst_spec(team, abs8(captured), mv.end) as int, team as int);
        }
        self.eval_slide(-team, moved, mv.end, mv.beg);
        if captured != 0 {
            self.eval_add(team, captured, mv.end);
        }
        self.key = prev_key;

        let ghost board0 = self.board@;
        let ghost board1 = board0.update(beg as int, moved).update(end as int, captured);
        let ghost lr0 = self.pos_list_r@;
        let ghost lb0 = self.pos_list_b@;
        let ghost pr0 = self.pos_pid_r@;
        let ghost pb0 = self.pos_pid_b@;
        if team == R {
            proof {
                lemma_listed(board0, lb0, pb0, B, end as int);
                lemma_list_move(board0, board1, lb0, pb0, B, end as int, beg as int);
            }
            let k = self.pos_pid_b[end] as usize;
            self.pos_list_b[k] = mv.beg;
            let tmp = self.pos_pid_b[end];
            self.pos_pid_b[end] = self.pos_pid_b[beg];
            self.pos_pid_b[beg] = tmp;
            if captured != 0 {
                proof {
                    lemma_list_restore(board0, board1, lr0, pr0, R, beg as int, end as int);
                }
                self.pos_pid_r[end] = self.pos_list_r.len() as Pid;
                self.pos_list_r.push(mv.end);
            } else {
                proof {
                    lemma_list_untouched(board0, board1, lr0, pr0, R, beg as int, end as int);
                }
            }
        } else {
            proof {
                lemma_listed(board0, lr0, pr0, R, end as int);
                lemma_list_move(board0, board1, lr0, pr0, R, end as int, beg as int);
            }
            let k = self.pos_pid_r[end] as usize;
            self.pos_list_r[k] = mv.beg;
            let tmp = self.pos_pid_r[end];
            self.pos_pid_r[end] = self.pos_pid_r[beg];
            self.pos_pid_r[beg] = tmp;
            if captured != 0 {
                proof {
                    lemma_list_restore(board0, board1, lb0, pb0, B, beg as int, end as int);
                }
                self.pos_pid_b[end] = self.pos_list_b.len() as Pid;
                self.pos_list_b.push(mv.end);
            } else {
                proof {
                    lemma_list_untouched(board0, board1, lb0, pb0, B, beg as int, end as int);
                }
            }
        }

        let ghost bl9_0 = self.bl9_items@;
        let ghost bl10_0 = self.bl10_items@;
        self.bl10_items[end % 9] &= if captured == 0 {
            !(1u16 << (mv.end / 9))
        } else {
            0xFFF
        };
        self.bl9_items[end / 9] &= if captured == 0 {
            !(1u16 << (mv.end % 9))
        } else {
            0xFFF
        };
        self.bl10_items[beg % 9] |= 1u16 << (mv.beg / 9);
        self.bl9_items[beg / 9] |= 1u16 << (mv.beg % 9);
        proof {
            lemma_lines_undo(
                board0,
                board1,
                bl9_0,
                bl10_0,
                self.bl9_items@,
                self.bl10_items@,
                beg as int,
                end as int,
                captured != 0,
            );
        }

        self.board[beg] = self.board[end];
        self.board[end] = captured;
        self.team = -self.team;
        assert(self.board@ == board1);
    }

    /// Whether the side to move's king (the first piece in its list) is
    /// attacked; see `in_check_spec`.
    pub fn in_check(&self) -> (r: bool)
        requires
            self.wf(),
            self.list_r().len() > 0,
            self.list_b().len() > 0,
            3 <= self.king_sq() % 9 <= 5,
            (self.side() == R && self.king_sq() / 9 >= 7) || (self.side() == B && self.king_sq() / 9 <= 2),
            abs8(self.piece(self.king_sq())) == R_KING,
        ensures
            r == self.in_check_spec(),
    {
        let pos = if self.team == R {
            self.pos_list_r[0]
        } else {
            self.pos_list_b[0]
        };
        let t = self.team;
        proof {
            lemma_times_side(self.piece((pos - 9 * t) as int) as int, t as int);
        }
        // attacked by pawn
        let front = if t == R { pos - 9 } else { pos + 9 };
        if self.get_piece(front) * t == -R_PAWN {
            return true;
        }
        proof {
            lemma_piece_times_side(self, (pos - 1) as int);
            lemma_piece_times_side(self, (pos + 1) as int);
        }
        if self.get_piece(pos - 1) * t == -R_PAWN {
            return true;
        }
        if self.get_piece(pos + 1) * t == -R_PAWN {
            return true;
        }
        // attacked by knight
        if self.get_piece(sq_sub(pos, 10)) == 0 {
            proof {
                lemma_piece_times_side(self, w8(pos - 19));
                lemma_piece_times_side(self, w8(pos - 11));
            }
            return self.get_piece(sq_sub(pos, 19)) * t == -R_KNIGHT || self.get_piece(sq_sub(pos, 11)) * t
                == -R_KNIGHT;
        }
        if self.get_piece(pos + 10) == 0 {
            proof {
                lemma_piece_times_side(self, pos + 19);
                lemma_piece_times_side(self, pos + 11);
            }
            return self.get_piece(pos + 19) * t == -R_KNIGHT || self.get_piece(pos + 11) * t == -R_KNIGHT;
        }
        if self.get_piece(pos + 8) == 0 {
            proof {
                lemma_piece_times_side(self, pos + 17);
                lemma_piece_times_side(self, pos + 7);
            }
            return self.get_piece(pos + 17) * t == -R_KNIGHT || self.get_piece(pos + 7) * t == -R_KNIGHT;
        }
        if self.get_piece(sq_sub(pos, 8)) == 0 {
            proof {
                lemma_piece_times_side(self, w8(pos - 17));
                lemma_piece_times_side(self, w8(pos - 7));
            }
            return self.get_piece(sq_sub(pos, 17)) * t == -R_KNIGHT || self.get_piece(sq_sub(pos, 7)) * t
                == -R_KNIGHT;
        }
        proof {
            lemma_line_bounds(self, pos as int);
        }
        let (l, r) = rook9(self.get_bl9(pos), pos);
        let (top, bot) = rook10(self.get_bl10(pos), pos);
        proof {
            lemma_piece_times_side(self, l as int);
            lemma_piece_times_side(self, r as int);
            lemma_piece_times_side(self, top as int);
            lemma_piece_times_side(self, bot as int);
        }
        if self.get_piece(l) * t == -R_ROOK || self.get_piece(r) * t == -R_ROOK || self.get_piece(top) * t
            == -R_ROOK || self.get_piece(bot) * t == -R_ROOK {
            return true;
        }
        let (l, r) = cannon9(self.get_bl9(pos), pos);
        let (top, bot) = cannon10(self.get_bl10(pos), pos);
        proof {
            lemma_piece_times_side(self, l as int);
            lemma_piece_times_side(self, r as int);
            lemma_piece_times_side(self, top as int);
            lemma_piece_times_side(self, bot as int);
        }
        if l < 90 && self.get_piece(l) * t == -R_CANNON {
            return true;
        }
        if r < 90 && self.get_piece(r) * t == -R_CANNON {
            return true;
        }
        if top < 90 && self.get_piece(top) * t == -R_CANNON {
            return true;
        }
        if bot < 90 && self.get_piece(bot) * t == -R_CANNON {
            return true;
        }
        self.face_king()
    }

    /// The piece on `pos` as seen by the side to move: positive for its own.
    pub(crate) fn rel_piece(&self, pos: Pos) -> (r: PType)
        requires
            self.wf(),
        ensures
            r == self.piece(pos as int) * self.side(),
            -7 <= r <= 7,
    {
        proof {
            lemma_piece_times_side(self, pos as int);
        }
        self.get_piece(pos) * self.team
    }

    /// Whether `mv` passes the piece rules; see `legal_move_spec`.
    pub fn legal_move(&self, mv: Move) -> (r: bool)
        requires
            self.wf(),
        ensures
            r == self.legal_move_spec(mv),
    {
        let p = self.get_piece(mv.beg);
        proof {
            lemma_piece_times_side(self, mv.beg as int);
            lemma_piece_times_side(self, mv.end as int);
            lemma_times_side(self.piece(mv.end as int) as int, self.side() as int);
        }
        if self.team * self.get_piece(mv.end) > 0 || p * self.team <= 0 {
            return false;
        }
        let e = self.get_piece(mv.end);
        if e == R_KING || e == -R_KING {
            return false;
        }
        let d = mv.end as i32 - mv.beg as i32;
        if p == R_KING || p == -R_KING {
            if d != 1 && d != -1 && d != 9 && d != -9 {
                return false;
            }
            if mv.end % 9 < 3 || mv.end % 9 > 5 {
                return false;
            }
            if p == R_KING && mv.end / 9 < 7 {
                return false;
            }
            if p == -R_KING && mv.end / 9 > 2 {
                return false;
            }
        } else if p == R_ADVISOR || p == -R_ADVISOR {
            if d != 10 && d != -10 && d != 8 && d != -8 {
                return false;
            }
            if mv.end != 13 && mv.end != 76 && !(mv.end % 9 >= 3 && mv.end % 9 <= 5 && ((p == R_ADVISOR
                && mv.end / 9 >= 7) || (p == B_ADVISOR && mv.end / 9 <= 2))) {
                return false;
            }
            if p == R_ADVISOR && mv.end / 9 < 7 {
                return false;
            }
            if p == B_ADVISOR && mv.end / 9 > 2 {
                return false;
            }
        } else if p == R_BISHOP || p == -R_BISHOP {
            if d == 20 {
                if self.get_piece(mv.beg + 10) != 0 {
                    return false;
                }
            } else if d == 16 {
                if self.get_piece(mv.beg + 8) != 0 {
                    return false;
                }
            } else if d == -20 {
                if self.get_piece(mv.beg - 10) != 0 {
                    return false;
                }
            } else if self.get_piece(sq_sub(mv.beg, 8)) != 0 {
                return false;
            }
        } else if p == R_KNIGHT || p == -R_KNIGHT {
            if d == 17 || d == 15 {
                if self.get_piece(mv.beg + 9) != 0 {
                    return false;
                }
            } else if d == -17 || d == -15 {
                if self.get_piece(mv.beg - 9) != 0 {
                    return false;
                }
            } else if d == 10 || d == -6 {
                if self.get_piece(mv.beg + 1) != 0 {
                    return false;
                }
            } else if self.get_piece(sq_sub(mv.beg, 1)) != 0 {
                return false;
            }
        } else if p == R_CANNON || p == -R_CANNON {
            if mv.beg % 9 != mv.end % 9 || mv.beg / 9 != mv.end / 9 {
                return false;
            }
            if -9 < d && d < 9 {
                let (l, r) = cannon9(self.get_bl9(mv.beg), mv.beg);
                let (l2, r2) = rook9(self.get_bl9(mv.end), mv.end);
                if !(l2 < mv.end && mv.end < r2) {
                    if mv.end != l && mv.end != r {
                        return false;
                    }
                }
            } else {
                let (u, d) = cannon10(self.get_bl10(mv.beg), mv.beg);
                let (u2, d2) = rook10(self.get_bl10(mv.end), mv.end);
                if !(u2 < mv.end && mv.end < d2) {
                    if mv.end != u && mv.end != d {
                        return false;
                    }
                }
            }
        } else if p == R_ROOK || p == -R_ROOK {
            if mv.beg % 9 != mv.end % 9 || mv.beg / 9 != mv.end / 9 {
                return false;
            }
            if -9 < d && d < 9 {
                let (l, r) = rook9(self.get_bl9(mv.beg), mv.beg);
                if !(l < mv.end && mv.end < r) {
                    return false;
                }
            } else {
                let (u, d) = rook10(self.get_bl10(mv.beg), mv.beg);
                if !(u < mv.end && mv.end < d) {
                    return false;
                }
            }
        }
        true
    }

    /// A piece of the side to move that guards square `pos`; see
    /// `protector_spec`.  The line points need `pos` on the board unless a
    /// near protector is found first.
    pub fn get_protector(&self, pos: Pos) -> (r: Pos)
        requires
            self.wf(),
            pos < 90 || self.protector_near(pos as int) is Some,
        ensures
            r == self.protector_spec(pos as int),
    {
        let team = self.team;
        let front = if team == R { sq_sub(pos, 9) } else { sq_add(pos, 9) };
        if self.rel_piece(front) == R_PAWN {
            return front;
        }
        if (pos / 9 < 5 && team == R) || (pos / 9 > 4 && team == B) {
            if self.rel_piece(sq_sub(pos, 1)) == R_PAWN {
                return sq_sub(pos, 1);
            }
            if self.rel_piece(sq_add(pos, 1)) == R_PAWN {
                return sq_add(pos, 1);
            }
        }
        let c1 = team == R && pos / 9 > 6 && pos % 9 > 2 && pos % 9 < 5;
        let c2 = team == B && pos / 9 < 3 && pos % 9 > 2 && pos % 9 < 5;
        if c1 || c2 {
            if self.rel_piece(sq_sub(pos, 10)) == R_ADVISOR {
                return sq_sub(pos, 10);
            }
            if self.rel_piece(sq_sub(pos, 8)) == R_ADVISOR {
                return sq_sub(pos, 8);
            }
            if self.rel_piece(sq_add(pos, 10)) == R_ADVISOR {
                return sq_add(pos, 10);
            }
            if self.rel_piece(sq_add(pos, 8)) == R_ADVISOR {
                return sq_add(pos, 8);
            }
        }
        if team == R && pos / 9 > 4 || team == B && pos / 9 < 5 {
            if self.get_piece(sq_sub(pos, 10)) == 0 && self.rel_piece(sq_sub(pos, 20)) == R_BISHOP {
                return sq_sub(pos, 20);
            }
            if self.get_piece(sq_sub(pos, 8)) == 0 && self.rel_piece(sq_sub(pos, 16)) == R_BISHOP {
                return sq_sub(pos, 16);
            }
            if self.rel_piece(sq_add(pos, 20)) == R_BISHOP {
                return sq_add(pos, 20);
            }
            if self.rel_piece(sq_add(pos, 16)) == R_BISHOP {
                return sq_add(pos, 16);
            }
        }
        if self.get_piece(sq_sub(pos, 10)) == 0 {
            if self.rel_piece(sq_sub(pos, 19)) == R_KNIGHT {
                return sq_sub(pos, 19);
            }
            if self.rel_piece(sq_sub(pos, 11)) == R_KNIGHT {
                return sq_sub(pos, 11);
            }
        }
        if self.get_piece(sq_add(pos, 10)) == 0 {
            if self.rel_piece(sq_add(pos, 19)) == R_KNIGHT {
                return sq_add(pos, 19);
            }
            if self.rel_piece(sq_add(pos, 11)) == R_KNIGHT {
                return sq_add(pos, 11);
            }
        }
        if self.get_piece(sq_sub(pos, 8)) == 0 {
            if self.rel_piece(sq_sub(pos, 17)) == R_KNIGHT {
                return sq_sub(pos, 17);
            }
            if self.rel_piece(sq_sub(pos, 7)) == R_KNIGHT {
                return sq_sub(pos, 7);
            }
        }
        if self.get_piece(sq_add(pos, 8)) == 0 {
            if self.rel_piece(sq_add(pos, 17)) == R_KNIGHT {
                return sq_add(pos, 17);
            }
            if self.rel_piece(sq_add(pos, 7)) == R_KNIGHT {
                return sq_add(pos, 7);
            }
        }
        proof {
            lemma_line_bounds(self, pos as int);
        }
        let (l, r) = rook9(self.get_bl9(pos), pos);
        let (u, b) = rook10(self.get_bl10(pos), pos);
        let (l2, r2) = cannon9(self.get_bl9(pos), pos);
        let (u2, b2) = cannon10(self.get_bl10(pos), pos);
        if l2 < 90 && self.rel_piece(l2) == R_CANNON {
            return l2;
        }
        if r2 < 90 && self.rel_piece(r2) == R_CANNON {
            return r2;
        }
        if u2 < 90 && self.rel_piece(u2) == R_CANNON {
            return u2;
        }
        if b2 < 90 && self.rel_piece(b2) == R_CANNON {
            return b2;
        }
        if self.rel_piece(l) == R_ROOK {
            return l;
        }
        if self.rel_piece(r) == R_ROOK {
            return r;
        }
        if self.rel_piece(u) == R_ROOK {
            return u;
        }
        if self.rel_piece(b) == R_ROOK {
            return b;
        }
        if c1 || c2 {
            if self.rel_piece(sq_sub(pos, 9)) == R_KING {
                return sq_sub(pos, 9);
            }
            if self.rel_piece(sq_add(pos, 9)) == R_KING {
                return sq_add(pos, 9);
            }
            if self.rel_piece(sq_sub(pos, 1)) == R_KING {
                return sq_sub(pos, 1);
            }
            if self.rel_piece(sq_add(pos, 1)) == R_KING {
                return sq_add(pos, 1);
            }
        }
        INVALID_POS
    }

    /// Whether the position repeats an earlier one under perpetual check;
    /// see `is_repeat_spec`.
    pub fn is_repeat(&self) -> (r: bool)
        requires
            self.wf(),
        ensures
            r == self.is_repeat_spec(),
    {
        let h = &self.history;
        let n = h.keys.len();
        if n < 4 || h.checkings.len() != n {
            return false;
        }
        let mut i = n;
        while i > 0
            invariant
                i <= n,
                n == self.hist_keys().len(),
                n == self.hist_checkings().len(),
                n == self.hist_captures().len(),
                h == &self.history,
                self.repeat_scan(n as int) == self.repeat_scan(i as int),
            decreases i,
        {
            let k = i - 1;
            if h.keys[k] == self.key {
                if n - k < 4 {
                    return false;
                }
                let mut j = k;
                while j < n
                    invariant
                        k <= j,
                        k == i - 1,
                        0 < i <= n,
                        n == self.hist_checkings().len(),
                        n == self.hist_keys().len(),
                        n - k >= 4,
                        h == &self.history,
                        self.hist_keys()[k as int] == self.hash_key(),
                        self.repeat_scan(n as int) == self.repeat_scan(i as int),
                        (j - k) % 2 == 0,
                        forall|x: int| k <= x < j && (x - k) % 2 == 0 ==> #[trigger] self.hist_checkings()[x],
                    decreases n - j,
                {
                    if !h.checkings[j] {
                        return false;
                    }
                    if n - j <= 2 {
                        return true;
                    }
                    j += 2;
                }
                return true;
            }
            if h.captures[k] != 0 {
                return false;
            }
            i -= 1;
        }
        false
    }

    /// The side to move.
    pub fn side_to_move(&self) -> (r: Team)
        ensures
            r == self.side(),
    {
        self.team
    }

    /// Red's incremental evaluation.
    pub fn eval_value(&self) -> (r: VL)
        ensures
            r == self.eval_score(),
    {
        self.eval
    }

    /// The hash key.
    pub fn key_value(&self) -> (r: i64)
        ensures
            r == self.hash_key(),
    {
        self.key
    }

    /// The piece list of `team` (red for `R`, black otherwise).
    pub fn list_for(&self, team: Team) -> (r: &Vec<Pos>)
        ensures
            r@ == self.list_of(team),
    {
        if team == R {
            &self.pos_list_r
        } else {
            &self.pos_list_b
        }
    }

    /// Passes the move: toggles the side key and the side to move.
    pub fn do_null(&mut self)
        requires
            old(self).wf(),
        ensures
            final(self).wf(),
            Self::null_result(*old(self), *final(self)),
    {
        self.key ^= SIDE_KEY;
        self.team = -self.team;
    }

    /// Takes back a passed move; the same change as `do_null`.
    pub fn undo_null(&mut self)
        requires
            old(self).wf(),
        ensures
            final(self).wf(),
            Self::null_result(*old(self), *final(self)),
    {
        self.key ^= SIDE_KEY;
        self.team = -self.team;
    }
}

} // verus!

verus! {

proof fn lemma_xor_facts(a: i64, b: i64, c: i64)
    ensures
        (a ^ b) ^ c == a ^ (b ^ c),
        a ^ b == b ^ a,
        a ^ a == 0,
        a ^ 0 == a,
        0 ^ a == a,
{
    assert((a ^ b) ^ c == a ^ (b ^ c)) by (bit_vector);
    assert(a ^ b == b ^ a) by (bit_vector);
    assert(a ^ a == 0) by (bit_vector);
    assert(a ^ 0 == a) by (bit_vector);
    assert(0 ^ a == a) by (bit_vector);
}

/// Changing square `j` of the board changes the hash by the old and the
/// new key of that square.
proof fn lemma_hash_update(board: Seq<i8>, keys: Seq<i64>, n: int, seed: i64, j: int, x: i8)
    requires
        0 <= j < n <= board.len(),
    ensures
        board_hash(board.update(j, x), keys, n, seed) == board_hash(board, keys, n, seed) ^ key_of(
            keys,
            board[j] as int,
            j,
        ) ^ key_of(keys, x as int, j),
    decreases n,
{
    let b2 = board.update(j, x);
    let kj_old = key_of(keys, board[j] as int, j);
    let kj_new = key_of(keys, x as int, j);
    if j < n - 1 {
        lemma_hash_update(board, keys, n - 1, seed, j, x);
        let h = board_hash(board, keys, n - 1, seed);
        let k = key_of(keys, board[n - 1] as int, n - 1);
        assert(b2[n - 1] == board[n - 1]);
        // ((h ^ o) ^ w) ^ k == ((h ^ k) ^ o) ^ w
        lemma_xor_facts(h, kj_old, kj_new);
        lemma_xor_facts(h ^ kj_old, kj_new, k);
        lemma_xor_facts(h, kj_old, kj_new ^ k);
        lemma_xor_facts(kj_new, k, 0);
        lemma_xor_facts(h, k, kj_old);
        lemma_xor_facts(kj_old, k, kj_new);
        lemma_xor_facts(h ^ k, kj_old, kj_new);
        lemma_xor_facts(h, k ^ kj_old, kj_new);
        lemma_xor_facts(h, kj_old ^ k, kj_new);
        lemma_xor_facts(k, kj_old, kj_new);
        lemma_xor_facts(kj_old, k, kj_new);
        lemma_xor_facts(kj_old, kj_new, k);
        lemma_xor_facts(h, kj_old ^ kj_new, k);
    } else {
        assert(board_hash(b2, keys, n - 1, seed) == board_hash(board, keys, n - 1, seed)) by {
            lemma_hash_prefix_same(board, b2, keys, n - 1, seed);
        }
        let h = board_hash(board, keys, n - 1, seed);
        lemma_xor_facts(h, kj_old, kj_old);
        lemma_xor_facts(h ^ kj_old, kj_old, kj_new);
        lemma_xor_facts(kj_old, kj_old, 0);
        lemma_xor_facts(h, kj_old ^ kj_old, kj_new);
        lemma_xor_facts(h, 0, kj_new);
    }
}

proof fn lemma_hash_prefix_same(b1: Seq<i8>, b2: Seq<i8>, keys: Seq<i64>, n: int, seed: i64)
    requires
        0 <= n <= b1.len(),
        n <= b2.len(),
        forall|i: int| 0 <= i < n ==> b1[i] == b2[i],
    ensures
        board_hash(b1, keys, n, seed) == board_hash(b2, keys, n, seed),
    decreases n,
{
    if n > 0 {
        lemma_hash_prefix_same(b1, b2, keys, n - 1, seed);
    }
}

/// Starting the hash from `seed ^ t` gives the hash from `seed`, xor `t`.
proof fn lemma_hash_seed(board: Seq<i8>, keys: Seq<i64>, n: int, seed: i64, t: i64)
    requires
        0 <= n <= board.len(),
    ensures
        board_hash(board, keys, n, seed ^ t) == board_hash(board, keys, n, seed) ^ t,
    decreases n,
{
    if n > 0 {
        lemma_hash_seed(board, keys, n - 1, seed, t);
        let h = board_hash(board, keys, n - 1, seed);
        let k = key_of(keys, board[n - 1] as int, n - 1);
        lemma_xor_facts(h, t, k);
        lemma_xor_facts(t, k, 0);
        lemma_xor_facts(h, k, t);
    }
}

/// `do_move` keeps the hash key equal to the Zobrist hash of the board and
/// the side to move.
pub proof fn lemma_do_move_keeps_hash(p: Position, mv: Move, q: Position)
    requires
        p.wf(),
        p.do_ok(mv),
        Position::do_result(p, mv, q),
        p.hash_key() == zobrist_spec(p.board(), p.side(), p.zobrist()),
    ensures
        q.hash_key() == zobrist_spec(q.board(), q.side(), q.zobrist()),
{
    let b = p.board();
    let z = p.zobrist();
    let beg = mv.beg as int;
    let end = mv.end as int;
    let pc = b[beg];
    let cap = b[end];
    let seed: i64 = if p.side() == B { SIDE_KEY } else { 0 };
    let seed2: i64 = if q.side() == B { SIDE_KEY } else { 0 };
    let b1 = b.update(end, pc);
    let b2 = b1.update(beg, 0);
    assert(q.board() == b2);
    lemma_hash_update(b, z, 90, seed, end, pc);
    lemma_hash_update(b1, z, 90, seed, beg, 0);
    assert(key_of(z, 0, beg) == 0);
    let h = board_hash(b, z, 90, seed);
    let kb = key_of(z, pc as int, beg);
    let kc = key_of(z, cap as int, end);
    let ke = key_of(z, pc as int, end);
    // the board part
    assert(board_hash(b2, z, 90, seed) == h ^ kc ^ ke ^ kb ^ 0);
    lemma_xor_facts(h ^ kc ^ ke ^ kb, 0, 0);
    // the side part
    assert(seed2 == seed ^ SIDE_KEY) by {
        lemma_xor_facts(SIDE_KEY, SIDE_KEY, 0);
        lemma_xor_facts(0, SIDE_KEY, 0);
        lemma_xor_facts(SIDE_KEY, 0, 0);
    }
    lemma_hash_seed(b2, z, 90, seed, SIDE_KEY);
    // reorder: h ^ kb ^ kc ^ ke ^ S == h ^ kc ^ ke ^ kb ^ S
    lemma_xor_facts(h, kb, kc);
    lemma_xor_facts(h, kc, kb);
    lemma_xor_facts(kb, kc, 0);
    lemma_xor_facts(h ^ kb ^ kc, ke, 0);
    lemma_xor_facts(h ^ kc ^ kb, ke, 0);
    lemma_xor_facts(h ^ kc, kb, ke);
    lemma_xor_facts(h ^ kc, ke, kb);
    lemma_xor_facts(kb, ke, 0);
}

/// Changing square `j` changes the evaluation total by the old and the new
/// contribution of that square.
proof fn lemma_total_update(board: Seq<i8>, n: int, j: int, x: i8)
    requires
        0 <= j < n <= board.len(),
    ensures
        pst_total(board.update(j, x), n) == pst_total(board, n) - contribution(board[j], j) + contribution(x, j),
    decreases n,
{
    if j < n - 1 {
        lemma_total_update(board, n - 1, j, x);
    } else {
        lemma_total_prefix_same(board, board.update(j, x), n - 1);
    }
}

proof fn lemma_total_prefix_same(b1: Seq<i8>, b2: Seq<i8>, n: int)
    requires
        0 <= n <= b1.len(),
        n <= b2.len(),
        forall|i: int| 0 <= i < n ==> b1[i] == b2[i],
    ensures
        pst_total(b1, n) == pst_total(b2, n),
    decreases n,
{
    if n > 0 {
        lemma_total_prefix_same(b1, b2, n - 1);
    }
}

/// What a piece of `team` adds is `team` times its table value.
proof fn lemma_contribution(p: i8, team: i8, pos: int)
    requires
        owned(p, team),
        team == R || team == B,
        -7 <= p <= 7,
    ensures
        contribution(p, pos) == team * pst_spec(team, abs8(p), pos as u8),
{
    lemma_times_side(p as int, team as int);
    lemma_times_side(pst_spec(team, abs8(p), pos as u8) as int, team as int);
}

/// `do_move` keeps the evaluation equal to the table total of the board.
pub proof fn lemma_do_move_keeps_eval(p: Position, mv: Move, q: Position)
    requires
        p.wf(),
        p.do_ok(mv),
        Position::do_result(p, mv, q),
        p.eval_score() == pst_total(p.board(), 90),
    ensures
        q.eval_score() == pst_total(q.board(), 90),
{
    let b = p.board();
    let t = p.side();
    let beg = mv.beg as int;
    let end = mv.end as int;
    let pc = b[beg];
    let cap = b[end];
    let b1 = b.update(end, pc);
    lemma_total_update(b, 90, end, pc);
    lemma_total_update(b1, 90, beg, 0);
    lemma_times_side(pc as int, t as int);
    lemma_times_side(cap as int, t as int);
    lemma_contribution(pc, t, beg);
    lemma_contribution(pc, t, end);
    if cap != 0 {
        lemma_times_side(cap as int, -t as int);
        lemma_contribution(cap, (-t) as i8, end);
        lemma_times_side(pst_spec((-t) as i8, abs8(cap), mv.end) as int, t as int);
        lemma_times_side(pst_spec((-t) as i8, abs8(cap), mv.end) as int, -t as int);
    }
}

/// `undo_move` keeps the evaluation equal to the table total of the board.
pub proof fn lemma_undo_move_keeps_eval(p: Position, q: Position)
    requires
        p.wf(),
        p.undo_ok(),
        Position::undo_result(p, q),
        p.eval_score() == pst_total(p.board(), 90),
    ensures
        q.eval_score() == pst_total(q.board(), 90),
{
    let b = p.board();
    let t = p.side();
    let m = (-t) as i8;
    let mv = p.last_move();
    let cap = p.last_capture();
    let beg = mv.beg as int;
    let end = mv.end as int;
    let pc = b[end];
    let b1 = b.update(beg, pc);
    lemma_total_update(b, 90, beg, pc);
    lemma_total_update(b1, 90, end, cap);
    lemma_times_side(pc as int, m as int);
    lemma_contribution(pc, m, beg);
    lemma_contribution(pc, m, end);
    if cap != 0 {
        lemma_contribution(cap, t, end);
    }
}

/// Taking back a move just made gives back the board, the side to move,
/// the hash key, the evaluation, the occupancy lines and the history; the
/// mover's piece list comes back as it was and the other list holds the
/// same squares.
pub proof fn lemma_undo_after_do(p0: Position, mv: Move, p1: Position, p2: Position)
    requires
        p0.wf(),
        p0.do_ok(mv),
        Position::do_result(p0, mv, p1),
        p1.wf(),
        p1.undo_ok(),
        Position::undo_result(p1, p2),
        p2.wf(),
    ensures
        p2.board() == p0.board(),
        p2.side() == p0.side(),
        p2.hash_key() == p0.hash_key(),
        p2.eval_score() == p0.eval_score(),
        p2.bl9s() == p0.bl9s(),
        p2.bl10s() == p0.bl10s(),
        p2.hist_moves() == p0.hist_moves(),
        p2.hist_captures() == p0.hist_captures(),
        p2.hist_keys() == p0.hist_keys(),
        p2.hist_checkings() == p0.hist_checkings(),
        p2.zobrist() == p0.zobrist(),
        p2.list_of(p0.side()) == p0.list_of(p0.side()),
        p2.pid_of(p0.side()) == p0.pid_of(p0.side()),
        p2.list_of((-p0.side()) as i8).to_set() == p0.list_of((-p0.side()) as i8).to_set(),
{
    let t = p0.side();
    let o = (-t) as i8;
    let b = p0.board();
    let beg = mv.beg as int;
    let end = mv.end as int;
    let pc = b[beg];
    let cap = b[end];
    assert(p1.last_move() == mv);
    assert(p1.last_capture() == cap);
    assert(p2.board() =~= b);
    assert(p2.hist_moves() =~= p0.hist_moves());
    assert(p2.hist_captures() =~= p0.hist_captures());
    assert(p2.hist_keys() =~= p0.hist_keys());
    assert(p2.hist_checkings() =~= p0.hist_checkings());
    // evaluation
    lemma_times_side(pc as int, t as int);
    lemma_times_side(pst_spec(t, abs8(pc), mv.beg) as int, t as int);
    lemma_times_side(pst_spec(t, abs8(pc), mv.end) as int, t as int);
    lemma_times_side(pst_spec(t, abs8(pc), mv.beg) as int, -t as int);
    lemma_times_side(pst_spec(t, abs8(pc), mv.end) as int, -t as int);
    lemma_times_side(pst_spec(o, abs8(cap), mv.end) as int, t as int);
    lemma_times_side(pst_spec(o, abs8(cap), mv.end) as int, -t as int);
    assert(p1.piece(end) == pc);
    // mover's list and pids
    lemma_listed(b, p0.list_of(t), p0.pid_of(t), t, beg);
    assert(p2.list_of(t) =~= p0.list_of(t));
    assert(p2.pid_of(t) =~= p0.pid_of(t));
    // the other list holds the same squares
    if cap != 0 {
        lemma_times_side(cap as int, t as int);
        lemma_listed(b, p0.list_of(o), p0.pid_of(o), o, end);
        lemma_swap_back_set(p0.list_of(o), p0.pid_of(o)[end] as int, mv.end);
    }
    lemma_lines_same(b, p2.bl9s(), p2.bl10s(), p0.bl9s(), p0.bl10s());
}

/// Moving the last entry into place `j` and then appending the entry that
/// was at `j` keeps the set of entries.
proof fn lemma_swap_back_set(l0: Seq<u8>, j: int, x: u8)
    requires
        0 <= j < l0.len() - 1,
        l0[j] == x,
    ensures
        l0.drop_last().update(j, l0.last()).push(x).to_set() == l0.to_set(),
{
    let l2 = l0.drop_last().update(j, l0.last()).push(x);
    assert forall|y: u8| l2.to_set().contains(y) <==> l0.to_set().contains(y) by {
        if l0.contains(y) {
            let k = choose|k: int| 0 <= k < l0.len() && l0[k] == y;
            if k == j {
                assert(l2[l2.len() - 1] == y);
            } else if k == l0.len() - 1 {
                assert(l2[j] == y);
            } else {
                assert(l2[k] == y);
            }
        }
        if l2.contains(y) {
            let k = choose|k: int| 0 <= k < l2.len() && l2[k] == y;
            if k == l2.len() - 1 {
                assert(l0[j] == y);
            } else if k == j {
                assert(l0[l0.len() - 1] == y);
            } else {
                assert(l0[k] == y);
            }
        }
    }
    assert(l2.to_set() =~= l0.to_set());
}

/// The lines of a board are determined by the board.
proof fn lemma_lines_same(b: Seq<i8>, bl9a: Seq<u16>, bl10a: Seq<u16>, bl9b: Seq<u16>, bl10b: Seq<u16>)
    requires
        lines_ok(b, bl9a, bl10a),
        lines_ok(b, bl9b, bl10b),
    ensures
        bl9a == bl9b,
        bl10a == bl10b,
{
    assert forall|c: int| 0 <= c < 9 implies bl10a[c] == bl10b[c] by {
        assert(col_ok(b, bl10a[c], c));
        assert(col_ok(b, bl10b[c], c));
        assert forall|j: int| 0 <= j < 10 implies #[trigger] has_bit(bl10a[c] as u32, j) == has_bit(
            bl10b[c] as u32,
            j,
        ) by {}
        lemma_line_ext(bl10a[c], bl10b[c]);
    }
    assert forall|r: int| 0 <= r < 10 implies bl9a[r] == bl9b[r] by {
        assert(row_ok(b, bl9a[r], r));
        assert(row_ok(b, bl9b[r], r));
        assert forall|j: int| 0 <= j < 10 implies #[trigger] has_bit(bl9a[r] as u32, j) == has_bit(
            bl9b[r] as u32,
            j,
        ) by {
            if j == 9 {
                lemma_row_bit9(bl9a[r]);
                lemma_row_bit9(bl9b[r]);
            }
        }
        lemma_line_ext(bl9a[r], bl9b[r]);
    }
    assert(bl10a =~= bl10b);
    assert(bl9a =~= bl9b);
}

/// A row line (below 512) never has bit 9.
proof fn lemma_row_bit9(x: u16)
    requires
        x < 512,
    ensures
        !has_bit(x as u32, 9),
{
    assert(x < 512 ==> (x as u32 >> 9u32) & 1 != 1) by (bit_vector);
}

} // verus!

verus! {

/// Passing twice gives back the position.
pub proof fn lemma_null_twice(p0: Position, p1: Position, p2: Position)
    requires
        p0.wf(),
        Position::null_result(p0, p1),
        Position::null_result(p1, p2),
    ensures
        p2.hash_key() == p0.hash_key(),
        p2.side() == p0.side(),
        p2.board() == p0.board(),
        p2.eval_score() == p0.eval_score(),
        p2.list_r() == p0.list_r(),
        p2.list_b() == p0.list_b(),
{
    lemma_xor_facts(p0.hash_key(), SIDE_KEY, SIDE_KEY);
    lemma_xor_facts(SIDE_KEY, SIDE_KEY, 0);
    lemma_xor_facts(p0.hash_key(), 0, 0);
}

/// Passing keeps the hash key equal to the Zobrist hash of the board and the
/// side to move.
pub proof fn lemma_null_keeps_hash(p: Position, q: Position)
    requires
        p.wf(),
        Position::null_result(p, q),
        p.hash_key() == zobrist_spec(p.board(), p.side(), p.zobrist()),
    ensures
        q.hash_key() == zobrist_spec(q.board(), q.side(), q.zobrist()),
{
    let seed: i64 = if p.side() == B { SIDE_KEY } else { 0 };
    lemma_hash_seed(p.board(), p.zobrist(), 90, seed, SIDE_KEY);
    lemma_xor_facts(SIDE_KEY, SIDE_KEY, 0);
    lemma_xor_facts(0, SIDE_KEY, 0);
}

/// `init` puts each side's king first: after setting up a board with at
/// most one king per side, each king stands first in its side's list.
pub proof fn lemma_init_kings_first(board: Seq<i8>, p: Position)
    requires
        board_ok(board),
        p.board() == board,
        p.list_r() == init_list(board, R),
        p.list_b() == init_list(board, B),
        kings_of(board, R, 90).len() <= 1,
        kings_of(board, B, 90).len() <= 1,
    ensures
        p.kings_first(),
{
    lemma_kings_of(board, R, 90);
    lemma_kings_of(board, B, 90);
    assert forall|i: int| 0 <= i < 90 && #[trigger] p.board()[i] == R implies p.list_of(R).len() > 0
        && p.list_of(R)[0] == i by {
        assert(kings_of(board, R, 90).contains(i as u8));
        assert(kings_of(board, R, 90)[0] == i as u8);
    }
    assert forall|i: int| 0 <= i < 90 && #[trigger] p.board()[i] == B implies p.list_of(B).len() > 0
        && p.list_of(B)[0] == i by {
        assert(kings_of(board, B, 90).contains(i as u8));
        assert(kings_of(board, B, 90)[0] == i as u8);
    }
}

/// Making a move keeps each king first in its side's list.
pub proof fn lemma_do_move_kings_first(p: Position, mv: Move, q: Position)
    requires
        p.wf(),
        p.do_ok(mv),
        Position::do_result(p, mv, q),
        p.kings_first(),
    ensures
        q.kings_first(),
{
    let t = p.side();
    let o = (-t) as i8;
    let beg = mv.beg as int;
    let end = mv.end as int;
    lemma_listed(p.board(), p.list_of(t), p.pid_of(t), t, beg);
    assert forall|i: int| 0 <= i < 90 && #[trigger] q.board()[i] == t implies q.list_of(t).len() > 0 && q.list_of(t)[0]
        == i by {
        if i == end {
            assert(p.board()[beg] == t);
        } else {
            assert(p.board()[i] == t);
        }
    }
    if p.piece(end) != 0 {
        lemma_times_side(p.piece(end) as int, t as int);
        lemma_times_side(p.piece(end) as int, o as int);
        lemma_listed(p.board(), p.list_of(o), p.pid_of(o), o, end);
    }
    assert forall|i: int| 0 <= i < 90 && #[trigger] q.board()[i] == o implies q.list_of(o).len() > 0 && q.list_of(o)[0]
        == i by {
        assert(i != end);
        assert(p.board()[i] == o);
    }
    assert(q.king_first(t));
    assert(q.king_first(o));
}

/// Taking back a move that captured no king keeps each king first in its
/// side's list.
pub proof fn lemma_undo_move_kings_first(p: Position, q: Position)
    requires
        p.wf(),
        p.undo_ok(),
        Position::undo_result(p, q),
        p.kings_first(),
        p.last_capture() != R_KING && p.last_capture() != B_KING,
    ensures
        q.kings_first(),
{
    let t = p.side();
    let m = (-t) as i8;
    let mv = p.last_move();
    let beg = mv.beg as int;
    let end = mv.end as int;
    lemma_listed(p.board(), p.list_of(m), p.pid_of(m), m, end);
    lemma_times_side(p.piece(end) as int, m as int);
    lemma_times_side(p.piece(end) as int, t as int);
    assert(q.board()[beg] == p.piece(end));
    assert forall|i: int| 0 <= i < 90 && #[trigger] q.board()[i] == m implies q.list_of(m).len() > 0 && q.list_of(m)[0]
        == i by {
        if i == beg {
            assert(p.board()[end] == m);
        } else {
            assert(i != end);
            assert(p.board()[i] == m);
        }
    }
    assert forall|i: int| 0 <= i < 90 && #[trigger] q.board()[i] == t implies q.list_of(t).len() > 0 && q.list_of(t)[0]
        == i by {
        assert(i != end);
        assert(i != beg);
        assert(p.board()[i] == t);
    }
    assert(q.king_first(t));
    assert(q.king_first(m));
}

/// Passing the move keeps each king first in its side's list.
pub proof fn lemma_null_kings_first(p: Position, q: Position)
    requires
        Position::null_result(p, q),
        p.kings_first(),
    ensures
        q.kings_first(),
{
}

/// Two positions set up by `init` from the same board, whichever side is to
/// move, hold the same board, piece lists, lines and evaluation.
pub proof fn lemma_init_same_setup(board: Seq<i8>, p: Position, q: Position)
    requires
        p.wf(),
        q.wf(),
        p.board() == board,
        q.board() == board,
        p.list_r() == init_list(board, R),
        q.list_r() == init_list(board, R),
        p.list_b() == init_list(board, B),
        q.list_b() == init_list(board, B),
        p.eval_score() == pst_total(board, 90),
        q.eval_score() == pst_total(board, 90),
    ensures
        p.same_setup(&q),
{
    lemma_lines_same(board, p.bl9s(), p.bl10s(), q.bl9s(), q.bl10s());
}

/// A move just made can be taken back: after `do_move`, `undo_move`'s
/// requirement holds, provided (for a capture) the two values of the
/// evaluation that taking back passes through (the captured piece's value
/// added back, before and after the moved piece returns) fit in 16 bits;
/// without a capture nothing more is needed.
#[verifier::spinoff_prover]
pub proof fn lemma_do_move_undo_ok(p: Position, mv: Move, q: Position)
    requires
        p.wf(),
        p.do_ok(mv),
        Position::do_result(p, mv, q),
        p.piece(mv.end as int) != 0 ==> ({
            let t = p.side();
            let a = pst_spec(t, abs8(p.piece(mv.beg as int)), mv.beg);
            let c = pst_spec((-t) as i8, abs8(p.piece(mv.end as int)), mv.end);
            fits_i16(p.eval_score() - t * a + t * c) && fits_i16(p.eval_score() + t * c)
        }),
    ensures
        q.undo_ok(),
{
    let t = p.side();
    let pc = p.piece(mv.beg as int);
    let cap = p.piece(mv.end as int);
    assert(q.last_move() == mv);
    assert(q.last_capture() == cap);
    assert(q.piece(mv.end as int) == pc);
    assert(q.piece(mv.beg as int) == 0);
    lemma_times_side(pc as int, t as int);
    lemma_times_side(cap as int, t as int);
    assert(-7 <= cap <= 7);
    let a = pst_spec(t, abs8(pc), mv.beg);
    let b = pst_spec(t, abs8(pc), mv.end);
    let c = pst_spec((-t) as i8, abs8(cap), mv.end);
    assert(q.side() == -t);
    assert((-q.side()) as i8 == t);
    assert(q.undo_eval1() == q.eval_score() - t * b);
    assert(q.undo_eval2() == q.undo_eval1() + t * a);
    if cap == 0 {
        assert(q.eval_score() == p.eval_score() - t * a + t * b);
        assert(q.undo_eval1() == p.do_eval1(mv));
        assert(q.undo_eval2() == p.eval_score());
    } else {
        assert(q.eval_score() == p.eval_score() - t * a + t * b + t * c);
        assert(q.undo_eval1() == p.eval_score() - t * a + t * c);
        assert(q.undo_eval2() == p.eval_score() + t * c);
        assert(q.side() == (-t) as i8);
        lemma_times_side(c as int, t as int);
        lemma_times_side(c as int, q.side() as int);
        lemma_times_side(cap as int, q.side() as int);
        assert(q.undo_eval3() == q.undo_eval2() + q.side() * c);
        assert(q.undo_eval3() == p.eval_score());
    }
}

/// An off-board index reads as empty whichever way it wraps to 8 bits.
pub proof fn lemma_piece_w8(p: &Position, x: int)
    requires
        -166 <= x < 256,
    ensures
        p.piece(w8(x)) == p.piece(x),
{
}

/// Whether `y` lies strictly between squares `a` and `b` on the row or the
/// column that they share.
pub open spec fn on_line_between(a: int, b: int, y: int) -> bool {
    ||| a / 9 == b / 9 && (if a < b { a < y < b } else { b < y < a })
    ||| a % 9 == b % 9 && y % 9 == a % 9 && (if a < b { a < y < b } else { b < y < a })
}

/// Squares `a` and `b` share a row or a column with exactly one piece
/// between them (the screen a cannon jumps).
pub open spec fn screened(p: &Position, a: int, b: int) -> bool {
    &&& 0 <= a < 90
    &&& 0 <= b < 90
    &&& a != b
    &&& (a / 9 == b / 9 || a % 9 == b % 9)
    &&& exists|sc: int|
        #[trigger] on_line_between(a, b, sc) && p.piece(sc) != 0 && (forall|y: int|
            on_line_between(a, b, y) && y != sc ==> #[trigger] p.piece(y) == 0)
}

/// The cannon points of square `a`: the two along its row and the two
/// along its column.
pub open spec fn cannon_points(p: &Position, a: int) -> Seq<u8> {
    let cl = banner_spec(p.row_line(a), a as u8, true, false);
    let cc = banner_spec(p.col_line(a), a as u8, false, false);
    seq![cl.0, cl.1, cc.0, cc.1]
}

proof fn lemma_cannon_row(p: &Position, a: int, b: int, sc: int)
    requires
        p.wf(),
        0 <= a < 90,
        0 <= b < 90,
        a / 9 == b / 9,
        if a < b { a < sc < b } else { b < sc < a },
        p.piece(sc) != 0,
        p.piece(b) != 0,
        forall|y: int| (if a < b { a < y < b } else { b < y < a }) && y != sc ==> #[trigger] p.piece(y) == 0,
    ensures
        b < a ==> banner_spec(p.row_line(a), a as u8, true, false).0 == b,
        a < b ==> banner_spec(p.row_line(a), a as u8, true, false).1 == b,
{
    let ra = a / 9;
    let ca = a % 9;
    let line = p.bl9s()[ra];
    assert(row_ok(p.board(), line, ra));
    assert(ra * 9 <= sc < ra * 9 + 9);
    let cs = sc - ra * 9;
    let cb = b - ra * 9;
    assert(0 <= cs < 9 && 0 <= cb < 9);
    assert(has_bit(line as u32, cs));
    assert(has_bit(line as u32, cb));
    if b < a {
        assert forall|k: int| cs < k <= ca - 1 implies !#[trigger] has_bit(line as u32, k) by {
            assert(p.piece(ra * 9 + k) == 0);
        }
        crate::lines::lemma_scan_down_finds(line as u32, ca - 1, cs);
        assert forall|k: int| cb < k <= cs - 1 implies !#[trigger] has_bit(line as u32, k) by {
            assert(p.piece(ra * 9 + k) == 0);
        }
        crate::lines::lemma_scan_down_finds(line as u32, cs - 1, cb);
    } else if a < b {
        assert forall|k: int| ca + 1 <= k < cs implies !#[trigger] has_bit(line as u32, k) by {
            assert(p.piece(ra * 9 + k) == 0);
        }
        crate::lines::lemma_scan_up_finds(line as u32, ca + 1, 9, cs);
        assert forall|k: int| cs + 1 <= k < cb implies !#[trigger] has_bit(line as u32, k) by {
            assert(p.piece(ra * 9 + k) == 0);
        }
        crate::lines::lemma_scan_up_finds(line as u32, cs + 1, 9, cb);
    }
}

proof fn lemma_cannon_col(p: &Position, a: int, b: int, sc: int)
    requires
        p.wf(),
        0 <= a < 90,
        0 <= b < 90,
        a % 9 == b % 9,
        sc % 9 == a % 9,
        if a < b { a < sc < b } else { b < sc < a },
        p.piece(sc) != 0,
        p.piece(b) != 0,
        forall|y: int|
            y % 9 == a % 9 && (if a < b { a < y < b } else { b < y < a }) && y != sc ==> #[trigger] p.piece(y)
                == 0,
    ensures
        b < a ==> banner_spec(p.col_line(a), a as u8, false, false).0 == b,
        a < b ==> banner_spec(p.col_line(a), a as u8, false, false).1 == b,
{
    let ra = a / 9;
    let ca = a % 9;
    let line = p.bl10s()[ca];
    assert(col_ok(p.board(), line, ca));
    let rs = sc / 9;
    let rb = b / 9;
    assert(rs * 9 + ca == sc);
    assert(rb * 9 + ca == b);
    assert(has_bit(line as u32, rs));
    assert(has_bit(line as u32, rb));
    if b < a {
        assert forall|k: int| rs < k <= ra - 1 implies !#[trigger] has_bit(line as u32, k) by {
            assert((k * 9 + ca) % 9 == ca);
            assert(p.piece(k * 9 + ca) == 0);
        }
        crate::lines::lemma_scan_down_finds(line as u32, ra - 1, rs);
        assert forall|k: int| rb < k <= rs - 1 implies !#[trigger] has_bit(line as u32, k) by {
            assert((k * 9 + ca) % 9 == ca);
            assert(p.piece(k * 9 + ca) == 0);
        }
        crate::lines::lemma_scan_down_finds(line as u32, rs - 1, rb);
    } else if a < b {
        assert forall|k: int| ra + 1 <= k < rs implies !#[trigger] has_bit(line as u32, k) by {
            assert((k * 9 + ca) % 9 == ca);
            assert(p.piece(k * 9 + ca) == 0);
        }
        crate::lines::lemma_scan_up_finds(line as u32, ra + 1, 9, rs);
        assert forall|k: int| rs + 1 <= k < rb implies !#[trigger] has_bit(line as u32, k) by {
            assert((k * 9 + ca) % 9 == ca);
            assert(p.piece(k * 9 + ca) == 0);
        }
        crate::lines::lemma_scan_up_finds(line as u32, rs + 1, 9, rb);
    }
}

/// A square screened from `a` (a piece behind exactly one other piece on
/// `a`'s row or column) is one of the cannon points of `a`: the cannon
/// tables find the second piece along each of the four lines.
pub proof fn lemma_cannon_point(p: &Position, a: int, b: int)
    requires
        p.wf(),
        screened(p, a, b),
        p.piece(b) != 0,
    ensures
        cannon_points(p, a).contains(b as u8),
{
    let sc = choose|sc: int|
        #[trigger] on_line_between(a, b, sc) && p.piece(sc) != 0 && (forall|y: int|
            on_line_between(a, b, y) && y != sc ==> #[trigger] p.piece(y) == 0);
    let pts = cannon_points(p, a);
    if a / 9 == b / 9 {
        assert forall|y: int| (if a < b { a < y < b } else { b < y < a }) && y != sc implies #[trigger] p.piece(y) == 0 by {
            assert(on_line_between(a, b, y));
        }
        lemma_cannon_row(p, a, b, sc);
        if b < a {
            assert(pts[0] == b as u8);
        } else {
            assert(pts[1] == b as u8);
        }
    } else {
        assert(a % 9 == b % 9);
        assert forall|y: int|
            y % 9 == a % 9 && (if a < b { a < y < b } else { b < y < a }) && y != sc implies #[trigger] p.piece(y)
                == 0 by {
            assert(on_line_between(a, b, y));
        }
        lemma_cannon_col(p, a, b, sc);
        if b < a {
            assert(pts[2] == b as u8);
        } else {
            assert(pts[3] == b as u8);
        }
    }
}

proof fn lemma_screened_sym(p: &Position, a: int, b: int)
    requires
        screened(p, a, b),
    ensures
        screened(p, b, a),
{
    let sc = choose|sc: int|
        #[trigger] on_line_between(a, b, sc) && p.piece(sc) != 0 && (forall|y: int|
            on_line_between(a, b, y) && y != sc ==> #[trigger] p.piece(y) == 0);
    assert(on_line_between(b, a, sc));
    assert forall|y: int| on_line_between(b, a, y) && y != sc implies #[trigger] p.piece(y) == 0 by {
        assert(on_line_between(a, b, y));
    }
}

/// What `get_protector` finds is a piece of the side to move, unless it
/// finds nothing (`INVALID_POS`).
pub proof fn lemma_protector_friendly(p: &Position, pos: int)
    requires
        p.wf(),
    ensures
        p.protector_spec(pos) != INVALID_POS ==> p.piece(p.protector_spec(pos)) * p.side() > 0,
{
}

/// A cannon guards the square it could capture on: when a cannon of the
/// side to move stands on `c` with exactly one piece between it and `pos`
/// on their row or column, `get_protector(pos)` finds a guard, a piece of
/// the side to move.
pub proof fn lemma_protector_cannon(p: &Position, pos: int, c: int)
    requires
        p.wf(),
        p.friend_at(c, R_CANNON),
        screened(p, c, pos),
    ensures
        p.protector_spec(pos) != INVALID_POS,
        p.piece(p.protector_spec(pos)) * p.side() > 0,
{
    lemma_screened_sym(p, c, pos);
    assert(p.piece(c) != 0);
    lemma_cannon_point(p, pos, c);
    let pts = cannon_points(p, pos);
    let k = choose|k: int| 0 <= k < pts.len() && pts[k] == c as u8;
    assert(pts[k] as int == c);
}

/// What puts a king in check: an enemy pawn in front of it or beside it,
/// or an enemy knight a knight's move away whose leg (the square
/// diagonally next to the king on the knight's side) is empty.  The legs
/// `pos - 10`, `pos + 10`, `pos + 8`, `pos - 8` are looked at in that
/// order and only the knights behind the first empty one count, so each
/// knight case also asks the legs before it to be occupied.
pub proof fn lemma_in_check_attackers(p: &Position)
    requires
        p.wf(),
        p.list_of(p.side()).len() > 0,
    ensures
        ({
            let pos = p.king_sq();
            let t = p.side();
            &&& p.enemy_at(pos - 9 * t, R_PAWN) || p.enemy_at(pos - 1, R_PAWN) || p.enemy_at(pos + 1, R_PAWN)
                ==> p.in_check_spec()
            &&& p.piece(pos - 10) == 0 && (p.enemy_at(pos - 19, R_KNIGHT) || p.enemy_at(pos - 11, R_KNIGHT))
                ==> p.in_check_spec()
            &&& p.piece(pos - 10) != 0 && p.piece(pos + 10) == 0 && (p.enemy_at(pos + 19, R_KNIGHT) || p.enemy_at(
                pos + 11,
                R_KNIGHT,
            )) ==> p.in_check_spec()
            &&& p.piece(pos - 10) != 0 && p.piece(pos + 10) != 0 && p.piece(pos + 8) == 0 && (p.enemy_at(
                pos + 17,
                R_KNIGHT,
            ) || p.enemy_at(pos + 7, R_KNIGHT)) ==> p.in_check_spec()
            &&& p.piece(pos - 10) != 0 && p.piece(pos + 10) != 0 && p.piece(pos + 8) != 0 && p.piece(pos - 8) == 0
                && (p.enemy_at(pos - 17, R_KNIGHT) || p.enemy_at(pos - 7, R_KNIGHT)) ==> p.in_check_spec()
        }),
{
    let pos = p.king_sq();
    assert(0 <= pos < 90);
    lemma_piece_w8(p, pos - 10);
    lemma_piece_w8(p, pos - 19);
    lemma_piece_w8(p, pos - 11);
    lemma_piece_w8(p, pos - 8);
    lemma_piece_w8(p, pos - 17);
    lemma_piece_w8(p, pos - 7);
}

/// The piece rules that `legal_move` accepts, for a piece of the side to
/// move going to a square without its own piece and without a king: a king
/// one step along a row or column inside its palace; an advisor one step
/// diagonally inside its palace; a bishop two steps diagonally with the
/// square between empty; a knight two rows and one column away along a
/// column (offset 17 either way) with the square next to it on that column
/// empty.
pub proof fn lemma_legal_steps(p: &Position, mv: Move)
    requires
        p.wf(),
    ensures
        ({
            let t = p.side();
            let beg = mv.beg as int;
            let end = mv.end as int;
            let pc = p.piece(beg) * t;
            let d = end - beg;
            let target_ok = end < 90 && p.piece(end) * t <= 0 && p.piece(end) != R_KING && p.piece(end) != B_KING;
            let palace = 3 <= end % 9 <= 5 && (if t == R { end / 9 >= 7 } else { end / 9 <= 2 });
            &&& target_ok && pc == R_KING && (d == 1 || d == -1 || d == 9 || d == -9) && palace
                ==> p.legal_move_spec(mv)
            &&& target_ok && pc == R_ADVISOR && (d == 10 || d == -10 || d == 8 || d == -8) && palace
                ==> p.legal_move_spec(mv)
            &&& target_ok && pc == R_BISHOP && (d == 20 || d == -20 || d == 16 || d == -16) && p.piece(
                beg + d / 2,
            ) == 0 ==> p.legal_move_spec(mv)
            &&& target_ok && pc == R_KNIGHT && (d == 17 || d == -17) && p.piece(beg + d / 17 * 9) == 0
                ==> p.legal_move_spec(mv)
        }),
{
    let t = p.side();
    let beg = mv.beg as int;
    lemma_piece_times_side(p, beg);
    lemma_piece_times_side(p, mv.end as int);
    lemma_piece_w8(p, beg - 8);
}

/// Squares `a` and `b` share a row or a column with nothing between them.
pub open spec fn clear_line(p: &Position, a: int, b: int) -> bool {
    &&& 0 <= a < 90
    &&& 0 <= b < 90
    &&& a != b
    &&& (a / 9 == b / 9 || a % 9 == b % 9)
    &&& forall|y: int| on_line_between(a, b, y) ==> #[trigger] p.piece(y) == 0
}

/// The rook points of square `a`: the two along its row and the two along
/// its column.
pub open spec fn rook_points(p: &Position, a: int) -> Seq<u8> {
    let rl = banner_spec(p.row_line(a), a as u8, true, true);
    let rc = banner_spec(p.col_line(a), a as u8, false, true);
    seq![rl.0, rl.1, rc.0, rc.1]
}

proof fn lemma_rook_row(p: &Position, a: int, b: int)
    requires
        p.wf(),
        0 <= a < 90,
        0 <= b < 90,
        a / 9 == b / 9,
        p.piece(b) != 0,
        forall|y: int| (if a < b { a < y < b } else { b < y < a }) ==> #[trigger] p.piece(y) == 0,
    ensures
        b < a ==> banner_spec(p.row_line(a), a as u8, true, true).0 == b,
        a < b ==> banner_spec(p.row_line(a), a as u8, true, true).1 == b,
{
    let ra = a / 9;
    let ca = a % 9;
    let line = p.bl9s()[ra];
    assert(row_ok(p.board(), line, ra));
    let cb = b - ra * 9;
    assert(0 <= cb < 9);
    assert(has_bit(line as u32, cb));
    if b < a {
        assert forall|k: int| cb < k <= ca - 1 implies !#[trigger] has_bit(line as u32, k) by {
            assert(p.piece(ra * 9 + k) == 0);
        }
        crate::lines::lemma_scan_down_finds(line as u32, ca - 1, cb);
    } else if a < b {
        assert forall|k: int| ca + 1 <= k < cb implies !#[trigger] has_bit(line as u32, k) by {
            assert(p.piece(ra * 9 + k) == 0);
        }
        crate::lines::lemma_scan_up_finds(line as u32, ca + 1, 9, cb);
    }
}

proof fn lemma_rook_col(p: &Position, a: int, b: int)
    requires
        p.wf(),
        0 <= a < 90,
        0 <= b < 90,
        a % 9 == b % 9,
        p.piece(b) != 0,
        forall|y: int| y % 9 == a % 9 && (if a < b { a < y < b } else { b < y < a }) ==> #[trigger] p.piece(y) == 0,
    ensures
        b < a ==> banner_spec(p.col_line(a), a as u8, false, true).0 == b,
        a < b ==> banner_spec(p.col_line(a), a as u8, false, true).1 == b,
{
    let ra = a / 9;
    let ca = a % 9;
    let line = p.bl10s()[ca];
    assert(col_ok(p.board(), line, ca));
    let rb = b / 9;
    assert(rb * 9 + ca == b);
    assert(has_bit(line as u32, rb));
    if b < a {
        assert forall|k: int| rb < k <= ra - 1 implies !#[trigger] has_bit(line as u32, k) by {
            assert((k * 9 + ca) % 9 == ca);
            assert(p.piece(k * 9 + ca) == 0);
        }
        crate::lines::lemma_scan_down_finds(line as u32, ra - 1, rb);
    } else if a < b {
        assert forall|k: int| ra + 1 <= k < rb implies !#[trigger] has_bit(line as u32, k) by {
            assert((k * 9 + ca) % 9 == ca);
            assert(p.piece(k * 9 + ca) == 0);
        }
        crate::lines::lemma_scan_up_finds(line as u32, ra + 1, 9, rb);
    }
}

/// The first piece along a row or column from `a` is a rook point of `a`.
pub proof fn lemma_rook_point(p: &Position, a: int, b: int)
    requires
        p.wf(),
        clear_line(p, a, b),
        p.piece(b) != 0,
    ensures
        rook_points(p, a).contains(b as u8),
{
    let pts = rook_points(p, a);
    if a / 9 == b / 9 {
        assert forall|y: int| (if a < b { a < y < b } else { b < y < a }) implies #[trigger] p.piece(y) == 0 by {
            assert(on_line_between(a, b, y));
        }
        lemma_rook_row(p, a, b);
        if b < a {
            assert(pts[0] == b as u8);
        } else {
            assert(pts[1] == b as u8);
        }
    } else {
        assert forall|y: int| y % 9 == a % 9 && (if a < b { a < y < b } else { b < y < a }) implies #[trigger] p.piece(y)
            == 0 by {
            assert(on_line_between(a, b, y));
        }
        lemma_rook_col(p, a, b);
        if b < a {
            assert(pts[2] == b as u8);
        } else {
            assert(pts[3] == b as u8);
        }
    }
}

/// A rook guards the squares it sees: when a rook of the side to move on
/// `c` has nothing between it and `pos` on their row or column,
/// `get_protector(pos)` finds a guard, a piece of the side to move.
pub proof fn lemma_protector_rook(p: &Position, pos: int, c: int)
    requires
        p.wf(),
        p.friend_at(c, R_ROOK),
        clear_line(p, c, pos),
    ensures
        p.protector_spec(pos) != INVALID_POS,
        p.piece(p.protector_spec(pos)) * p.side() > 0,
{
    assert(clear_line(p, pos, c)) by {
        assert forall|y: int| on_line_between(pos, c, y) implies #[trigger] p.piece(y) == 0 by {
            assert(on_line_between(c, pos, y));
        }
    }
    lemma_rook_point(p, pos, c);
    let pts = rook_points(p, pos);
    let k = choose|k: int| 0 <= k < pts.len() && pts[k] == c as u8;
    assert(pts[k] as int == c);
}

/// Pieces next to a square guard it: a pawn of the side to move behind it
/// (or beside it across the river), an advisor diagonally next to it in
/// its palace, a bishop two squares diagonally away on its own half with
/// the square between empty (for the two bishops on the far side), or a
/// knight reaching it over an empty leg; then `get_protector(pos)` finds a
/// guard, a piece of the side to move.
pub proof fn lemma_protector_near(p: &Position, pos: int)
    requires
        p.wf(),
        0 <= pos < 90,
    ensures
        ({
            let t = p.side();
            let crossed = (pos / 9 < 5 && t == R) || (pos / 9 > 4 && t == B);
            let palace = (t == R && pos / 9 > 6 && pos % 9 > 2 && pos % 9 < 5) || (t == B && pos / 9 < 3 && pos % 9 > 2
                && pos % 9 < 5);
            let guarded = p.friend_at(pos - 9 * t, R_PAWN) || (crossed && (p.friend_at(pos - 1, R_PAWN)
                || p.friend_at(pos + 1, R_PAWN))) || (palace && (p.friend_at(pos - 10, R_ADVISOR) || p.friend_at(
                pos - 8,
                R_ADVISOR,
            ) || p.friend_at(pos + 10, R_ADVISOR) || p.friend_at(pos + 8, R_ADVISOR))) || (p.piece(pos - 10) == 0
                && (p.friend_at(pos - 19, R_KNIGHT) || p.friend_at(pos - 11, R_KNIGHT))) || (p.piece(pos + 10)
                == 0 && (p.friend_at(pos + 19, R_KNIGHT) || p.friend_at(pos + 11, R_KNIGHT))) || (p.piece(pos
                - 8) == 0 && (p.friend_at(pos - 17, R_KNIGHT) || p.friend_at(pos - 7, R_KNIGHT))) || (p.piece(pos
                + 8) == 0 && (p.friend_at(pos + 17, R_KNIGHT) || p.friend_at(pos + 7, R_KNIGHT)));
            guarded ==> p.protector_spec(pos) != INVALID_POS && p.piece(p.protector_spec(pos)) * t > 0
        }),
{
    let t = p.side();
    lemma_piece_w8(p, pos - 9 * t);
    lemma_piece_w8(p, pos - 1);
    lemma_piece_w8(p, pos + 1);
    lemma_piece_w8(p, pos - 10);
    lemma_piece_w8(p, pos - 8);
    lemma_piece_w8(p, pos + 10);
    lemma_piece_w8(p, pos + 8);
    lemma_piece_w8(p, pos - 19);
    lemma_piece_w8(p, pos - 11);
    lemma_piece_w8(p, pos + 19);
    lemma_piece_w8(p, pos + 11);
    lemma_piece_w8(p, pos - 17);
    lemma_piece_w8(p, pos - 7);
    lemma_piece_w8(p, pos + 17);
    lemma_piece_w8(p, pos + 7);
    lemma_protector_friendly(p, pos);
}

/// `legal_move` only accepts a move of a piece of the side to move to a
/// square without its own piece and without a king, and a king only one
/// step along a row or a column into its palace.
pub proof fn lemma_legal_needs(p: &Position, mv: Move)
    requires
        p.wf(),
    ensures
        ({
            let t = p.side();
            let beg = mv.beg as int;
            let end = mv.end as int;
            let d = end - beg;
            p.legal_move_spec(mv) ==> {
                &&& p.piece(beg) * t > 0
                &&& p.piece(end) * t <= 0
                &&& p.piece(end) != R_KING && p.piece(end) != B_KING
                &&& p.piece(beg) * t == R_KING ==> (d == 1 || d == -1 || d == 9 || d == -9) && 3 <= end % 9 <= 5
                    && (if t == R { end / 9 >= 7 } else { end / 9 <= 2 })
            }
        }),
{
    lemma_piece_times_side(p, mv.beg as int);
    lemma_piece_times_side(p, mv.end as int);
}

/// A king whose four diagonal neighbours are all occupied (so that no
/// knight test ends the search) is in check from an enemy rook with nothing
/// between it and the king on their row or column.
pub proof fn lemma_in_check_rook(p: &Position, c: int)
    requires
        p.wf(),
        p.list_of(p.side()).len() > 0,
        p.piece(p.king_sq() - 10) != 0,
        p.piece(p.king_sq() + 10) != 0,
        p.piece(p.king_sq() + 8) != 0,
        p.piece(p.king_sq() - 8) != 0,
        p.enemy_at(c, R_ROOK),
        clear_line(p, c, p.king_sq()),
    ensures
        p.in_check_spec(),
{
    let pos = p.king_sq();
    assert(0 <= pos < 90);
    lemma_piece_w8(p, pos - 10);
    lemma_piece_w8(p, pos - 8);
    assert(clear_line(p, pos, c)) by {
        assert forall|y: int| on_line_between(pos, c, y) implies #[trigger] p.piece(y) == 0 by {
            assert(on_line_between(c, pos, y));
        }
    }
    assert(p.piece(c) != 0);
    lemma_rook_point(p, pos, c);
    let pts = rook_points(p, pos);
    let k = choose|k: int| 0 <= k < pts.len() && pts[k] == c as u8;
    assert(pts[k] as int == c);
}

} // verus!
