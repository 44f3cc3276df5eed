//! Move generation and move ordering.

use vstd::prelude::*;
use vstd::multiset::Multiset;
use crate::common::{Move, Pos, GenType, Depth, Team, R, B, R_KING, R_ADVISOR, R_BISHOP, R_KNIGHT, R_ROOK, R_CANNON, R_PAWN, QUIET, CAPTURE, ALL, INVALID_POS};
use crate::lines::{banner_spec, rook9, rook10, cannon9, cannon10};
use crate::heuristic::{HistoryTable, KillerTable, TT, hist_sorted, moves_on_board, sort_by_history, null_move};
use crate::position::{Position, abs8, w8, sq_sub, abs_piece, lemma_line_bounds, owned, screened, cannon_points, lemma_cannon_point, clear_line, rook_points, lemma_rook_point};

verus! {

/// The move from `b` to `e`.
pub open spec fn mv(b: int, e: int) -> Move {
    Move { beg: b as u8, end: e as u8 }
}

/// The move from `b` to `e` when `c` holds, else nothing.
pub open spec fn opt_mv(c: bool, b: int, e: int) -> Seq<Move> {
    if c {
        seq![mv(b, e)]
    } else {
        Seq::empty()
    }
}

/// Moves from `pos` to `cur`, `cur - step`, ... while not below `lo`.
pub open spec fn down_seq(pos: int, lo: int, cur: int, step: int) -> Seq<Move>
    decreases (if cur >= lo { cur - lo + 1 } else { 0 }),
{
    if cur < lo || step < 1 {
        Seq::empty()
    } else {
        seq![mv(pos, cur)] + down_seq(pos, lo, cur - step, step)
    }
}

/// Moves from `pos` to `cur`, `cur + step`, ... while below `hi`.
pub open spec fn up_seq(pos: int, cur: int, hi: int, step: int) -> Seq<Move>
    decreases (if cur < hi { hi - cur } else { 0 }),
{
    if cur >= hi || step < 1 {
        Seq::empty()
    } else {
        seq![mv(pos, cur)] + up_seq(pos, cur + step, hi, step)
    }
}

/// Pushes the moves from `pos` to the squares of `(lo..hi).rev().step_by(step)`.
fn push_down(ret: &mut Vec<Move>, pos: Pos, lo: u8, hi: u8, step: u8)
    requires
        step >= 1,
    ensures
        final(ret)@ == old(ret)@ + down_seq(pos as int, lo as int, hi - 1, step as int),
{
    if hi <= lo {
        return;
    }
    let mut cur: u8 = hi - 1;
    loop
        invariant_except_break
            ret@ + down_seq(pos as int, lo as int, cur as int, step as int) == old(ret)@ + down_seq(
                pos as int,
                lo as int,
                hi - 1,
                step as int,
            ),
        invariant
            lo <= cur < hi,
            step >= 1,
        ensures
            ret@ == old(ret)@ + down_seq(pos as int, lo as int, hi - 1, step as int),
        decreases cur,
    {
        let ghost before = ret@;
        ret.push(Move::new(pos, cur));
        if cur - lo < step {
            assert(down_seq(pos as int, lo as int, cur - step, step as int) =~= Seq::<Move>::empty());
            assert(ret@ =~= before + down_seq(pos as int, lo as int, cur as int, step as int));
            assert(ret@ =~= old(ret)@ + down_seq(pos as int, lo as int, hi - 1, step as int));
            break;
        }
        assert(before + down_seq(pos as int, lo as int, cur as int, step as int) =~= ret@ + down_seq(
            pos as int,
            lo as int,
            cur - step,
            step as int,
        ));
        cur -= step;
    }
}

/// Pushes the moves from `pos` to the squares of `(lo..hi).step_by(step)`.
fn push_up(ret: &mut Vec<Move>, pos: Pos, lo: u8, hi: u8, step: u8)
    requires
        step >= 1,
    ensures
        final(ret)@ == old(ret)@ + up_seq(pos as int, lo as int, hi as int, step as int),
{
    if hi <= lo {
        return;
    }
    let mut cur: u8 = lo;
    loop
        invariant_except_break
            ret@ + up_seq(pos as int, cur as int, hi as int, step as int) == old(ret)@ + up_seq(
                pos as int,
                lo as int,
                hi as int,
                step as int,
            ),
        invariant
            lo <= cur < hi,
            step >= 1,
        ensures
            ret@ == old(ret)@ + up_seq(pos as int, lo as int, hi as int, step as int),
        decreases hi - cur,
    {
        let ghost before = ret@;
        ret.push(Move::new(pos, cur));
        if hi - cur <= step {
            assert(up_seq(pos as int, cur + step, hi as int, step as int) =~= Seq::<Move>::empty());
            assert(ret@ =~= before + up_seq(pos as int, cur as int, hi as int, step as int));
            assert(ret@ =~= old(ret)@ + up_seq(pos as int, lo as int, hi as int, step as int));
            break;
        }
        assert(before + up_seq(pos as int, cur as int, hi as int, step as int) =~= ret@ + up_seq(
            pos as int,
            cur + step,
            hi as int,
            step as int,
        ));
        cur += step;
    }
}


/// Rook points lie on the board.
proof fn lemma_rook_points(row: u16, col: u16, pos: u8)
    requires
        pos < 90,
        row < 1024,
        col < 1024,
    ensures
        banner_spec(row, pos, true, true).0 < 90,
        banner_spec(row, pos, true, true).1 < 90,
        banner_spec(col, pos, false, true).0 < 90,
        banner_spec(col, pos, false, true).1 < 90,
{
    crate::lines::lemma_rook_nibbles(row as u32, (pos % 9) as int);
    crate::lines::lemma_rook_nibbles(col as u32, (pos / 9) as int);
}

impl Position {
    /// King steps: one square up, down, left or right, as its palace square allows.
    pub open spec fn king_moves(&self, g: GenType, pos: int) -> Seq<Move> {
        opt_mv((2 < pos < 15 || 65 < pos < 78) && self.target_ok(pos + 9, g), pos, pos + 9)
            + opt_mv((11 < pos < 24 || 74 < pos < 87) && self.target_ok(pos - 9, g), pos, pos - 9)
            + opt_mv((pos % 9 == 4 || pos % 9 == 5) && self.target_ok(pos - 1, g), pos, pos - 1)
            + opt_mv((pos % 9 == 4 || pos % 9 == 3) && self.target_ok(pos + 1, g), pos, pos + 1)
    }

    /// Advisor steps: from a palace centre (13 or 76) to the four corners,
    /// else to the centre of its own palace.
    pub open spec fn advisor_moves(&self, g: GenType, pos: int) -> Seq<Move> {
        if pos == 13 || pos == 76 {
            opt_mv(self.target_ok(pos - 10, g), pos, pos - 10) + opt_mv(self.target_ok(pos + 10, g), pos, pos
                + 10) + opt_mv(self.target_ok(pos - 8, g), pos, pos - 8) + opt_mv(
                self.target_ok(pos + 8, g),
                pos,
                pos + 8,
            )
        } else if pos < 24 && self.target_ok(13, g) {
            seq![mv(pos, 13)]
        } else if pos > 65 && self.target_ok(76, g) {
            seq![mv(pos, 76)]
        } else {
            Seq::empty()
        }
    }

    /// Bishop moves: `+16` and `+20` from rows 0, 3, 5, 7 (eyes at `+10`,
    /// `+12`), `-16` and `-20` from rows 3, 4, 7, 9 (eyes at `-10`, `-12`).
    pub open spec fn bishop_moves(&self, g: GenType, pos: int) -> Seq<Move> {
        let row = pos / 9;
        let down = row == 0 || row == 5 || row == 7 || row == 3;
        let up = row == 4 || row == 9 || row == 7 || row == 3;
        opt_mv(down && self.piece(pos + 10) == 0 && self.target_ok(pos + 16, g), pos, pos + 16)
            + opt_mv(down && self.piece(pos + 12) == 0 && self.target_ok(pos + 20, g), pos, pos + 20)
            + opt_mv(up && self.piece(pos - 10) == 0 && self.target_ok(pos - 16, g), pos, pos - 16)
            + opt_mv(up && self.piece(pos - 12) == 0 && self.target_ok(pos - 20, g), pos, pos - 20)
    }

    /// Knight moves, each pair behind its leg square.
    pub open spec fn knight_moves(&self, g: GenType, pos: int) -> Seq<Move> {
        self.knight_up(g, pos) + self.knight_down(g, pos) + self.knight_left(g, pos) + self.knight_right(g, pos)
    }

    pub open spec fn knight_up(&self, g: GenType, pos: int) -> Seq<Move> {
        let a = pos > 17 && self.piece(pos - 9) == 0;
        opt_mv(a && pos % 9 != 0 && self.target_ok(pos - 19, g), pos, pos - 19)
            + opt_mv(a && pos % 9 != 0 && self.target_ok(pos - 17, g), pos, pos - 17)
    }

    pub open spec fn knight_down(&self, g: GenType, pos: int) -> Seq<Move> {
        let b = pos < 72 && self.piece(pos + 9) == 0;
        opt_mv(b && pos % 9 != 0 && self.target_ok(pos + 19, g), pos, pos + 19)
            + opt_mv(b && pos % 9 != 0 && self.target_ok(pos + 17, g), pos, pos + 17)
    }

    pub open spec fn knight_left(&self, g: GenType, pos: int) -> Seq<Move> {
        let c = pos % 9 > 1 && self.piece(pos - 1) == 0;
        opt_mv(c && pos / 9 != 0 && self.target_ok(pos - 11, g), pos, pos - 11)
            + opt_mv(c && pos / 9 != 9 && self.target_ok(pos + 7, g), pos, pos + 7)
    }

    pub open spec fn knight_right(&self, g: GenType, pos: int) -> Seq<Move> {
        let d = pos % 9 < 7 && self.piece(pos + 1) == 0;
        opt_mv(d && pos / 9 != 0 && self.target_ok(pos + 11, g), pos, pos + 11)
            + opt_mv(d && pos / 9 != 9 && self.target_ok(w8(pos - 7), g), pos, w8(pos - 7))
    }

    /// Pawn moves: straight ahead, and sideways once across the river.
    pub open spec fn pawn_moves(&self, g: GenType, pos: int) -> Seq<Move> {
        let t = self.side();
        let target = pos - 9 * t;
        let crossed = (pos / 9 < 5 && t == R) || (pos / 9 > 4 && t == B);
        opt_mv(0 <= target < 90 && self.target_ok(target, g), pos, target)
            + opt_mv(crossed && pos % 9 != 0 && self.target_ok(pos - 1, g), pos, pos - 1)
            + opt_mv(crossed && pos % 9 != 8 && self.target_ok(pos + 1, g), pos, pos + 1)
    }

    /// Rook moves to empty squares: along the row to the left and right up
    /// to the rook points (the points themselves when empty), then along the
    /// column up and down in steps of 9.
    pub open spec fn rook_quiet(&self, pos: int) -> Seq<Move> {
        let (l, r) = banner_spec(self.row_line(pos), pos as u8, true, true);
        let (u, b) = banner_spec(self.col_line(pos), pos as u8, false, true);
        down_seq(pos, l + 1, pos - 1, 1) + opt_mv(self.piece(l as int) == 0, pos, l as int) + up_seq(
            pos,
            pos + 1,
            r as int,
            1,
        ) + opt_mv(self.piece(r as int) == 0, pos, r as int) + down_seq(pos, u + 1, w8(pos - 8) - 1, 9)
            + opt_mv(self.piece(u as int) == 0, pos, u as int) + up_seq(pos, pos + 9, b as int, 9)
            + opt_mv(self.piece(b as int) == 0, pos, b as int)
    }

    /// Rook captures at the four rook points.
    pub open spec fn rook_captures(&self, pos: int) -> Seq<Move> {
        let (l, r) = banner_spec(self.row_line(pos), pos as u8, true, true);
        let (u, b) = banner_spec(self.col_line(pos), pos as u8, false, true);
        opt_mv(self.target_ok(l as int, CAPTURE), pos, l as int) + opt_mv(
            self.target_ok(r as int, CAPTURE),
            pos,
            r as int,
        ) + opt_mv(self.target_ok(u as int, CAPTURE), pos, u as int) + opt_mv(
            self.target_ok(b as int, CAPTURE),
            pos,
            b as int,
        )
    }

    pub open spec fn rook_moves(&self, g: GenType, pos: int) -> Seq<Move> {
        (if g != CAPTURE {
            self.rook_quiet(pos)
        } else {
            Seq::empty()
        }) + (if g != QUIET {
            self.rook_captures(pos)
        } else {
            Seq::empty()
        })
    }

    /// Cannon moves: as a rook when quiet; else captures at the cannon
    /// points (those below square 100), followed by the quiet rook moves
    /// for `ALL`.
    pub open spec fn cannon_moves(&self, g: GenType, pos: int) -> Seq<Move> {
        if g == QUIET {
            self.rook_moves(QUIET, pos)
        } else {
            let (l, r) = banner_spec(self.row_line(pos), pos as u8, true, false);
            let (u, b) = banner_spec(self.col_line(pos), pos as u8, false, false);
            opt_mv(l < INVALID_POS && self.target_ok(l as int, CAPTURE), pos, l as int) + opt_mv(
                r < INVALID_POS && self.target_ok(r as int, CAPTURE),
                pos,
                r as int,
            ) + opt_mv(u < INVALID_POS && self.target_ok(u as int, CAPTURE), pos, u as int) + opt_mv(
                b < INVALID_POS && self.target_ok(b as int, CAPTURE),
                pos,
                b as int,
            ) + (if g == ALL {
                self.rook_moves(QUIET, pos)
            } else {
                Seq::empty()
            })
        }
    }

    /// The moves of the piece on `pos`, by its kind (pawns included).
    pub open spec fn piece_moves(&self, g: GenType, pos: int) -> Seq<Move> {
        let t = abs8(self.piece(pos));
        if t == R_KING {
            self.king_moves(g, pos)
        } else if t == R_ADVISOR {
            self.advisor_moves(g, pos)
        } else if t == R_BISHOP {
            self.bishop_moves(g, pos)
        } else if t == R_KNIGHT {
            self.knight_moves(g, pos)
        } else if t == R_ROOK {
            self.rook_moves(g, pos)
        } else if t == R_CANNON {
            self.cannon_moves(g, pos)
        } else if t == R_PAWN {
            self.pawn_moves(g, pos)
        } else {
            Seq::empty()
        }
    }

    /// The moves of the pieces on the first `n` squares of `list`, in order.
    pub open spec fn moves_of(&self, g: GenType, list: Seq<u8>, n: int) -> Seq<Move>
        decreases n,
    {
        if n <= 0 {
            Seq::empty()
        } else {
            self.moves_of(g, list, n - 1) + self.piece_moves(g, list[n - 1] as int)
        }
    }

    /// The moves that `gen_moves(g)` generates: those of the side to move's
    /// pieces in list order.
    pub open spec fn gen_spec(&self, g: GenType) -> Seq<Move> {
        self.moves_of(g, self.list_of(self.side()), self.list_of(self.side()).len() as int)
    }


    fn gen_king(&self, g: GenType, pos: Pos) -> (ret: Vec<Move>)
        requires
            self.wf(),
            pos < 90,
        ensures
            ret@ == self.king_moves(g, pos as int),
    {
        let mut ret = Vec::new();
        ret.reserve(4);
        if (2 < pos && pos < 15 || 65 < pos && pos < 78) && self.target_chk(pos + 9, g) {
            ret.push(Move::new(pos, pos + 9));
        }
        if (11 < pos && pos < 24 || 74 < pos && pos < 87) && self.target_chk(pos - 9, g) {
            ret.push(Move::new(pos, pos - 9));
        }
        if (pos % 9 == 4 || pos % 9 == 5) && self.target_chk(pos - 1, g) {
            ret.push(Move::new(pos, pos - 1));
        }
        if (pos % 9 == 4 || pos % 9 == 3) && self.target_chk(pos + 1, g) {
            ret.push(Move::new(pos, pos + 1));
        }
        assert(ret@ =~= self.king_moves(g, pos as int));
        ret
    }

    fn gen_advisor(&self, g: GenType, pos: Pos) -> (ret: Vec<Move>)
        requires
            self.wf(),
            pos < 90,
        ensures
            ret@ == self.advisor_moves(g, pos as int),
    {
        if pos == 13 || pos == 76 {
            let mut ret = Vec::new();
            ret.reserve(4);
            if self.target_chk(pos - 10, g) {
                ret.push(Move::new(pos, pos - 10));
            }
            if self.target_chk(pos + 10, g) {
                ret.push(Move::new(pos, pos + 10));
            }
            if self.target_chk(pos - 8, g) {
                ret.push(Move::new(pos, pos - 8));
            }
            if self.target_chk(pos + 8, g) {
                ret.push(Move::new(pos, pos + 8));
            }
            assert(ret@ =~= self.advisor_moves(g, pos as int));
            return ret;
        } else if pos < 24 && self.target_chk(13, g) {
            let ret = vec![Move::new(pos, 13)];
            assert(ret@ =~= self.advisor_moves(g, pos as int));
            return ret;
        } else if pos > 65 && self.target_chk(76, g) {
            let ret = vec![Move::new(pos, 76)];
            assert(ret@ =~= self.advisor_moves(g, pos as int));
            return ret;
        } else {
            let ret = Vec::new();
            assert(ret@ =~= self.advisor_moves(g, pos as int));
            return ret;
        }
    }

    fn gen_bishop(&self, g: GenType, pos: Pos) -> (ret: Vec<Move>)
        requires
            self.wf(),
            pos < 90,
        ensures
            ret@ == self.bishop_moves(g, pos as int),
    {
        let mut ret = Vec::new();
        ret.reserve(4);
        if pos / 9 == 0 || pos / 9 == 5 || pos / 9 == 7 || pos / 9 == 3 {
            if self.get_piece(pos + 10) == 0 && self.target_chk(pos + 16, g) {
                ret.push(Move::new(pos, pos + 16));
            }
            if self.get_piece(pos + 12) == 0 && self.target_chk(pos + 20, g) {
                ret.push(Move::new(pos, pos + 20));
            }
        }
        if pos / 9 == 4 || pos / 9 == 9 || pos / 9 == 7 || pos / 9 == 3 {
            if self.get_piece(pos - 10) == 0 && self.target_chk(pos - 16, g) {
                ret.push(Move::new(pos, pos - 16));
            }
            if self.get_piece(pos - 12) == 0 && self.target_chk(pos - 20, g) {
                ret.push(Move::new(pos, pos - 20));
            }
        }
        assert(ret@ =~= self.bishop_moves(g, pos as int));
        ret
    }

    #[verifier::rlimit(100)]
    #[verifier::spinoff_prover]
    fn gen_knight(&self, g: GenType, pos: Pos) -> (ret: Vec<Move>)
        requires
            self.wf(),
            pos < 90,
        ensures
            ret@ == self.knight_moves(g, pos as int),
    {
        let mut ret = Vec::new();
        ret.reserve(8);
        if pos > 17 && self.get_piece(pos - 9) == 0 {
            if pos % 9 != 0 && self.target_chk(pos - 19, g) {
                ret.push(Move::new(pos, pos - 19));
            }
            if pos % 9 != 0 && self.target_chk(pos - 17, g) {
                ret.push(Move::new(pos, pos - 17));
            }
        }
        assert(ret@ =~= self.knight_up(g, pos as int));
        let ghost s1 = ret@;
        if pos < 72 && self.get_piece(pos + 9) == 0 {
            if pos % 9 != 0 && self.target_chk(pos + 19, g) {
                ret.push(Move::new(pos, pos + 19));
            }
            if pos % 9 != 0 && self.target_chk(pos + 17, g) {
                ret.push(Move::new(pos, pos + 17));
            }
        }
        assert(ret@ =~= s1 + self.knight_down(g, pos as int));
        let ghost s2 = ret@;
        if pos % 9 > 1 && self.get_piece(pos - 1) == 0 {
            if pos / 9 != 0 && self.target_chk(pos - 11, g) {
                ret.push(Move::new(pos, pos - 11));
            }
            if pos / 9 != 9 && self.target_chk(pos + 7, g) {
                ret.push(Move::new(pos, pos + 7));
            }
        }
        assert(ret@ =~= s2 + self.knight_left(g, pos as int));
        let ghost s3 = ret@;
        if pos % 9 < 7 && self.get_piece(pos + 1) == 0 {
            if pos / 9 != 0 && self.target_chk(pos + 11, g) {
                ret.push(Move::new(pos, pos + 11));
            }
            if pos / 9 != 9 && self.target_chk(sq_sub(pos, 7), g) {
                ret.push(Move::new(pos, sq_sub(pos, 7)));
            }
        }
        assert(ret@ =~= s3 + self.knight_right(g, pos as int));
        assert(ret@ =~= self.knight_moves(g, pos as int));
        ret
    }

    #[verifier::rlimit(100)]
    #[verifier::spinoff_prover]
    fn gen_rook(&self, g: GenType, pos: Pos) -> (ret: Vec<Move>)
        requires
            self.wf(),
            pos < 90,
        ensures
            ret@ == self.rook_moves(g, pos as int),
    {
        proof {
            lemma_line_bounds(self, pos as int);
        }
        let mut ret = Vec::new();
        ret.reserve(24);
        let (l, r) = rook9(self.get_bl9(pos), pos);
        let (u, b) = rook10(self.get_bl10(pos), pos);
        proof {
            lemma_rook_points(self.row_line(pos as int), self.col_line(pos as int), pos);
        }
        if g != CAPTURE {
            push_down(&mut ret, pos, l + 1, pos, 1);
            if self.get_piece(l) == 0 {
                ret.push(Move::new(pos, l));
            }
            let ghost s1 = ret@;
            assert(s1 =~= down_seq(pos as int, l + 1, pos - 1, 1) + opt_mv(self.piece(l as int) == 0, pos as int, l as int));
            push_up(&mut ret, pos, pos + 1, r, 1);
            if self.get_piece(r) == 0 {
                ret.push(Move::new(pos, r));
            }
            let ghost s2 = ret@;
            assert(s2 =~= s1 + up_seq(pos as int, pos + 1, r as int, 1) + opt_mv(self.piece(r as int) == 0, pos as int, r as int));
            push_down(&mut ret, pos, u + 1, sq_sub(pos, 8), 9);
            if self.get_piece(u) == 0 {
                ret.push(Move::new(pos, u));
            }
            let ghost s3 = ret@;
            assert(s3 =~= s2 + down_seq(pos as int, u + 1, w8(pos - 8) - 1, 9) + opt_mv(self.piece(u as int) == 0, pos as int, u as int));
            push_up(&mut ret, pos, pos + 9, b, 9);
            if self.get_piece(b) == 0 {
                ret.push(Move::new(pos, b));
            }
            assert(ret@ =~= s3 + up_seq(pos as int, pos + 9, b as int, 9) + opt_mv(self.piece(b as int) == 0, pos as int, b as int));
        }
        assert(ret@ =~= (if g != CAPTURE { self.rook_quiet(pos as int) } else { Seq::empty() }));
        let ghost quiet = ret@;
        if g != QUIET {
            if self.target_chk(l, CAPTURE) {
                ret.push(Move::new(pos, l));
            }
            if self.target_chk(r, CAPTURE) {
                ret.push(Move::new(pos, r));
            }
            if self.target_chk(u, CAPTURE) {
                ret.push(Move::new(pos, u));
            }
            if self.target_chk(b, CAPTURE) {
                ret.push(Move::new(pos, b));
            }
        }
        assert(ret@ =~= quiet + (if g != QUIET { self.rook_captures(pos as int) } else { Seq::empty() }));
        ret
    }

    fn gen_cannon(&self, g: GenType, pos: Pos) -> (ret: Vec<Move>)
        requires
            self.wf(),
            pos < 90,
        ensures
            ret@ == self.cannon_moves(g, pos as int),
    {
        if g == QUIET {
            return self.gen_rook(g, pos);
        }
        proof {
            lemma_line_bounds(self, pos as int);
        }
        let mut ret = Vec::new();
        ret.reserve(4);
        let (l, r) = cannon9(self.get_bl9(pos), pos);
        let (u, b) = cannon10(self.get_bl10(pos), pos);
        if l < INVALID_POS && self.target_chk(l, CAPTURE) {
            ret.push(Move::new(pos, l));
        }
        if r < INVALID_POS && self.target_chk(r, CAPTURE) {
            ret.push(Move::new(pos, r));
        }
        if u < INVALID_POS && self.target_chk(u, CAPTURE) {
            ret.push(Move::new(pos, u));
        }
        if b < INVALID_POS && self.target_chk(b, CAPTURE) {
            ret.push(Move::new(pos, b));
        }
        if g == ALL {
            let mut qs = self.gen_rook(QUIET, pos);
            ret.append(&mut qs);
        }
        assert(ret@ =~= self.cannon_moves(g, pos as int));
        ret
    }

    fn gen_moves(&self, g: GenType) -> (ret: Vec<Move>)
        requires
            self.wf(),
        ensures
            ret@ == self.gen_spec(g),
    {
        let mut ret = Vec::new();
        ret.reserve(16);
        let list = self.get_pos_list();
        let mut k: usize = 0;
        while k < list.len()
            invariant
                self.wf(),
                list@ == self.list_of(self.side()),
                k <= list.len(),
                ret@ == self.moves_of(g, list@, k as int),
            decreases list.len() - k,
        {
            let p = list[k];
            proof {
                assert(self.side() == R || self.side() == B);
                assert(p < 90 && owned(self.board()[p as int], self.side()));
                assert(-7 <= self.board()[p as int] <= 7);
            }
            let t = abs_piece(self.get_piece(p));
            let mut more = if t == R_KING {
                self.gen_king(g, p)
            } else if t == R_ADVISOR {
                self.gen_advisor(g, p)
            } else if t == R_BISHOP {
                self.gen_bishop(g, p)
            } else if t == R_KNIGHT {
                self.gen_knight(g, p)
            } else if t == R_ROOK {
                self.gen_rook(g, p)
            } else if t == R_CANNON {
                self.gen_cannon(g, p)
            } else if t == R_PAWN {
                self.gen_pawn(g, p)
            } else {
                Vec::new()
            };
            ret.append(&mut more);
            k += 1;
        }
        ret
    }

    /// The captures of the side to move.
    pub fn gen_capture_moves(&self) -> (ret: Vec<Move>)
        requires
            self.wf(),
        ensures
            ret@ == self.gen_spec(CAPTURE),
    {
        self.gen_moves(CAPTURE)
    }

    /// The moves to empty squares of the side to move.
    pub fn gen_quiet_moves(&self) -> (ret: Vec<Move>)
        requires
            self.wf(),
        ensures
            ret@ == self.gen_spec(QUIET),
    {
        self.gen_moves(QUIET)
    }

    /// All moves of the side to move.
    pub fn gen_all_moves(&self) -> (ret: Vec<Move>)
        requires
            self.wf(),
        ensures
            ret@ == self.gen_spec(ALL),
    {
        self.gen_moves(ALL)
    }

    fn gen_pawn(&self, g: GenType, pos: Pos) -> (ret: Vec<Move>)
        requires
            self.wf(),
            pos < 90,
        ensures
            ret@ == self.pawn_moves(g, pos as int),
    {
        let mut ret = Vec::new();
        ret.reserve(3);
        let team = self.side_to_move();
        let target: i8 = pos as i8 - 9 * team;
        if 0 <= target && target < 90 && self.target_chk(target as u8, g) {
            ret.push(Move::new(pos, target as u8));
        }
        if (pos / 9 < 5 && team == R) || (pos / 9 > 4 && team == B) {
            if pos % 9 != 0 && self.target_chk(pos - 1, g) {
                ret.push(Move::new(pos, pos - 1));
            }
            if pos % 9 != 8 && self.target_chk(pos + 1, g) {
                ret.push(Move::new(pos, pos + 1));
            }
        }
        assert(ret@ =~= self.pawn_moves(g, pos as int));
        ret
    }
}

} // verus!

verus! {

/// The moves of `s` that land on an occupied square, in order.
pub open spec fn captures_of(p: &Position, s: Seq<Move>) -> Seq<Move>
    decreases s.len(),
{
    if s.len() == 0 {
        Seq::empty()
    } else {
        captures_of(p, s.drop_last()) + (if p.piece(s.last().end as int) != 0 {
            seq![s.last()]
        } else {
            Seq::empty()
        })
    }
}

/// The moves of `s` that land on an empty square, in order.
pub open spec fn quiets_of(p: &Position, s: Seq<Move>) -> Seq<Move>
    decreases s.len(),
{
    if s.len() == 0 {
        Seq::empty()
    } else {
        quiets_of(p, s.drop_last()) + (if p.piece(s.last().end as int) == 0 {
            seq![s.last()]
        } else {
            Seq::empty()
        })
    }
}

proof fn lemma_split_len(p: &Position, s: Seq<Move>)
    ensures
        captures_of(p, s).len() + quiets_of(p, s).len() == s.len(),
    decreases s.len(),
{
    if s.len() > 0 {
        lemma_split_len(p, s.drop_last());
    }
}

/// `r` orders `moves`: the captures first in their order, then the other
/// moves sorted by the history scores of the side to move.
pub open spec fn ordered_rest(p: &Position, h: &HistoryTable, moves: Seq<Move>, r: Seq<Move>) -> bool {
    let c = captures_of(p, moves);
    let q = r.subrange(c.len() as int, r.len() as int);
    &&& r.len() == c.len() + quiets_of(p, moves).len()
    &&& r.subrange(0, c.len() as int) == c
    &&& q.to_multiset() == quiets_of(p, moves).to_multiset()
    &&& hist_sorted(h.table(p.side()), q)
}

/// What sorting the non-captures needs: fewer than two of them, or all on the board.
pub open spec fn rest_sortable(p: &Position, moves: Seq<Move>) -> bool {
    quiets_of(p, moves).len() >= 2 ==> moves_on_board(quiets_of(p, moves))
}

/// The first place from `i` (below 3) that holds a move, if any.
pub open spec fn first_start(starts: Seq<Move>, i: int) -> Option<int>
    decreases 3 - i,
{
    if i >= 3 || i < 0 {
        None
    } else if starts[i].beg != starts[i].end {
        Some(i)
    } else {
        first_start(starts, i + 1)
    }
}

/// The first place from `idx` of `moves` whose move is not one of `starts`.
pub open spec fn first_fresh(moves: Seq<Move>, starts: Seq<Move>, idx: int) -> Option<int>
    decreases moves.len() - idx,
{
    if idx >= moves.len() || idx < 0 {
        None
    } else if !starts.contains(moves[idx]) {
        Some(idx)
    } else {
        first_fresh(moves, starts, idx + 1)
    }
}

/// Hands out moves in order: the hash move and two killers, then the
/// generated moves (captures first, then by history) that are not among them.
pub struct MovePicker {
    starts: [Move; 3],
    moves: Vec<Move>,
    i: isize,
}

impl MovePicker {
    pub closed spec fn starts(&self) -> Seq<Move> {
        self.starts@
    }

    pub closed spec fn rest(&self) -> Seq<Move> {
        self.moves@
    }

    /// The stage: 0 to 2 for the next first move to try, 3 before the
    /// moves are generated, `-k - 1` when `k` generated moves have been
    /// looked at.
    pub closed spec fn stage(&self) -> int {
        self.i as int
    }

    pub open spec fn wf(&self) -> bool {
        &&& self.starts().len() == 3
        &&& self.stage() <= 3
        &&& self.stage() < 0 ==> -self.stage() - 1 <= self.rest().len()
        &&& self.rest().len() < 0x4000_0000
    }

    /// Whether the next call generates the moves: the stage is 0 to 3 and
    /// no first move is left.
    pub open spec fn gen_due(&self) -> bool {
        0 <= self.stage() <= 3 && first_start(self.starts(), self.stage()) is None
    }

    /// What `next` needs: valid pickers and tables, and when the moves are
    /// generated, sortable non-captures and fewer than 2^30 moves.
    pub open spec fn next_ok(&self, p: &Position, h: &HistoryTable) -> bool {
        &&& self.wf()
        &&& p.wf()
        &&& h.wf()
        &&& self.gen_due() ==> rest_sortable(p, p.gen_spec(ALL)) && p.gen_spec(ALL).len() < 0x4000_0000
    }

    /// The move that `next` returns and the picker it leaves: the next first
    /// move that is a move; else, once the moves are generated and ordered
    /// (`ordered_rest`), the next one not among the first moves; else the
    /// null move.
    pub open spec fn next_result(mp: MovePicker, p: &Position, h: &HistoryTable, r: Move, q: MovePicker) -> bool {
        let s = mp.starts();
        let i = mp.stage();
        &&& q.starts() == s
        &&& if 0 <= i <= 3 && first_start(s, i) is Some {
            let k = first_start(s, i)->0;
            r == s[k] && q.stage() == k + 1 && q.rest() == mp.rest()
        } else {
            &&& (0 <= i <= 3 ==> ordered_rest(p, h, p.gen_spec(ALL), q.rest()))
            &&& (i < 0 ==> q.rest() == mp.rest())
            &&& match first_fresh(q.rest(), s, if i < 0 { -i - 1 } else { 0 }) {
                Some(k) => r == q.rest()[k] && q.stage() == -k - 2,
                None => r == null_move() && q.stage() == -q.rest().len() - 1,
            }
        }
    }

    /// Splits `moves` into captures (onto occupied squares) and the others,
    /// sorts the others by history, and puts the captures first.
    fn order_rest(moves: Vec<Move>, p: &Position, h: &HistoryTable) -> (r: Vec<Move>)
        requires
            p.wf(),
            h.wf(),
            rest_sortable(p, moves@),
        ensures
            ordered_rest(p, h, moves@, r@),
    {
        let mut left: Vec<Move> = Vec::new();
        let mut right: Vec<Move> = Vec::new();
        let mut k: usize = 0;
        while k < moves.len()
            invariant
                k <= moves.len(),
                left@ == captures_of(p, moves@.subrange(0, k as int)),
                right@ == quiets_of(p, moves@.subrange(0, k as int)),
            decreases moves.len() - k,
        {
            let m = moves[k];
            assert(moves@.subrange(0, k + 1).drop_last() =~= moves@.subrange(0, k as int));
            if p.get_piece(m.end) != 0 {
                left.push(m);
            } else {
                right.push(m);
            }
            k += 1;
        }
        assert(moves@.subrange(0, moves.len() as int) =~= moves@);
        let ghost c = left@;
        sort_by_history(h, &mut right, p.side_to_move());
        let ghost sorted = right@;
        left.append(&mut right);
        assert(left@.subrange(0, c.len() as int) =~= c);
        assert(left@.subrange(c.len() as int, left@.len() as int) =~= sorted);
        assert(sorted.len() == quiets_of(p, moves@).len()) by {
            vstd::seq_lib::to_multiset_len(sorted);
            vstd::seq_lib::to_multiset_len(quiets_of(p, moves@));
        }
        left
    }

    /// The next move to try, or the null move when none is left.
    pub fn next(&mut self, p: &Position, h: &HistoryTable) -> (r: Move)
        requires
            old(self).next_ok(p, h),
        ensures
            final(self).wf(),
            Self::next_result(*old(self), p, h, r, *final(self)),
        decreases (if old(self).stage() >= 0 { 1int } else { 0int }), (if old(self).stage() >= 0 {
            4 - old(self).stage()
        } else {
            old(self).rest().len() + 1 + old(self).stage()
        }),
    {
        if self.i >= 0 && self.i < 3 {
            let m = self.starts[self.i as usize];
            self.i += 1;
            if m.into() {
                return m;
            } else {
                return self.next(p, h);
            }
        }
        if self.i == 3 {
            let moves = p.gen_all_moves();
            self.moves = MovePicker::order_rest(moves, p, h);
            proof {
                lemma_split_len(p, p.gen_spec(ALL));
            }
            self.i = -1;
            return self.next(p, h);
        }
        let idx = -self.i - 1;
        let idx = idx as usize;
        if idx < self.moves.len() {
            let m = self.moves[idx];
            let c = m == self.starts[0] || m == self.starts[1] || m == self.starts[2];
            self.i -= 1;
            if c {
                return self.next(p, h);
            } else {
                return m;
            }
        }
        Move::default()
    }

    /// A picker whose first moves are the hash move of `p` and those
    /// killers of `depth` that are moves, differ from the move before them
    /// and pass `legal_move`.
    pub fn new(depth: Depth, k: &KillerTable, tt: &TT, p: &Position) -> (mp: MovePicker)
        requires
            k.wf(),
            tt.wf(),
            p.wf(),
            depth < 128,
        ensures
            mp.wf(),
            mp.stage() == 0,
            mp.rest().len() == 0,
            mp.starts()[0] == (if tt.slot(p.hash_key()).key != p.hash_key() {
                null_move()
            } else {
                tt.slot(p.hash_key()).mv
            }),
            mp.starts()[1] == (if k.slots()[depth as int][0].beg != k.slots()[depth as int][0].end
                && k.slots()[depth as int][0] != mp.starts()[0] && p.legal_move_spec(k.slots()[depth as int][0]) {
                k.slots()[depth as int][0]
            } else {
                null_move()
            }),
            mp.starts()[2] == (if k.slots()[depth as int][1].beg != k.slots()[depth as int][1].end
                && k.slots()[depth as int][1] != null_move() && p.legal_move_spec(k.slots()[depth as int][1]) {
                k.slots()[depth as int][1]
            } else {
                null_move()
            }),
    {
        let mut starts = [Move::default(); 3];
        starts[0] = tt.get_move(p.key_value());
        let killers = k.get(depth);
        let c1 = killers[0].into() && killers[0] != starts[0];
        let c2 = killers[1].into() && killers[1] != starts[1];
        if c1 && p.legal_move(killers[0]) {
            starts[1] = killers[0]
        }
        if c2 && p.legal_move(killers[1]) {
            starts[2] = killers[1]
        }
        MovePicker { starts, moves: Vec::new(), i: 0 }
    }
}

/// Of each square, a move there is a capture or a quiet move, not both.
proof fn lemma_target_split(p: &Position, x: int)
    requires
        p.wf(),
    ensures
        p.target_ok(x, ALL) == (p.target_ok(x, CAPTURE) || p.target_ok(x, QUIET)),
        !(p.target_ok(x, CAPTURE) && p.target_ok(x, QUIET)),
{
    if x < 90 {
        crate::position::lemma_times_side(p.piece(x) as int, p.side() as int);
    }
}

proof fn lemma_opt_split(p: &Position, c: bool, x: int, b: int, e: int)
    requires
        p.wf(),
    ensures
        splits(opt_mv(c && p.target_ok(x, ALL), b, e), opt_mv(c && p.target_ok(x, CAPTURE), b, e), opt_mv(
            c && p.target_ok(x, QUIET),
            b,
            e,
        )),
{
    broadcast use vstd::multiset::group_multiset_axioms;
    broadcast use vstd::seq_lib::group_to_multiset_ensures;

    lemma_target_split(p, x);
    assert(Seq::<Move>::empty().to_multiset() =~= Multiset::<Move>::empty()) by {
        vstd::seq_lib::to_multiset_len(Seq::<Move>::empty());
    }
}

/// `f(ALL)` counts each move as often as `f(CAPTURE)` and `f(QUIET)` together.
pub open spec fn splits(all: Seq<Move>, cap: Seq<Move>, quiet: Seq<Move>) -> bool {
    all.to_multiset() =~= cap.to_multiset().add(quiet.to_multiset())
}

proof fn lemma_split_add(a1: Seq<Move>, c1: Seq<Move>, q1: Seq<Move>, a2: Seq<Move>, c2: Seq<Move>, q2: Seq<Move>)
    requires
        splits(a1, c1, q1),
        splits(a2, c2, q2),
    ensures
        splits(a1 + a2, c1 + c2, q1 + q2),
{
    broadcast use vstd::multiset::group_multiset_axioms;

    vstd::seq_lib::lemma_multiset_commutative(a1, a2);
    vstd::seq_lib::lemma_multiset_commutative(c1, c2);
    vstd::seq_lib::lemma_multiset_commutative(q1, q2);
}

proof fn lemma_split4(p: &Position, c: Seq<bool>, x: Seq<int>, pos: int)
    requires
        p.wf(),
        c.len() == 4,
        x.len() == 4,
    ensures
        splits(
            opt_mv(c[0] && p.target_ok(x[0], ALL), pos, x[0]) + opt_mv(c[1] && p.target_ok(x[1], ALL), pos, x[1])
                + opt_mv(c[2] && p.target_ok(x[2], ALL), pos, x[2]) + opt_mv(c[3] && p.target_ok(x[3], ALL), pos, x[3]),
            opt_mv(c[0] && p.target_ok(x[0], CAPTURE), pos, x[0]) + opt_mv(c[1] && p.target_ok(x[1], CAPTURE), pos, x[1])
                + opt_mv(c[2] && p.target_ok(x[2], CAPTURE), pos, x[2]) + opt_mv(c[3] && p.target_ok(x[3], CAPTURE), pos, x[3]),
            opt_mv(c[0] && p.target_ok(x[0], QUIET), pos, x[0]) + opt_mv(c[1] && p.target_ok(x[1], QUIET), pos, x[1])
                + opt_mv(c[2] && p.target_ok(x[2], QUIET), pos, x[2]) + opt_mv(c[3] && p.target_ok(x[3], QUIET), pos, x[3]),
        ),
{
    let o = |i: int, g: GenType| opt_mv(c[i] && p.target_ok(x[i], g), pos, x[i]);
    lemma_opt_split(p, c[0], x[0], pos, x[0]);
    lemma_opt_split(p, c[1], x[1], pos, x[1]);
    lemma_opt_split(p, c[2], x[2], pos, x[2]);
    lemma_opt_split(p, c[3], x[3], pos, x[3]);
    lemma_split_add(o(0, ALL), o(0, CAPTURE), o(0, QUIET), o(1, ALL), o(1, CAPTURE), o(1, QUIET));
    lemma_split_add(
        o(0, ALL) + o(1, ALL),
        o(0, CAPTURE) + o(1, CAPTURE),
        o(0, QUIET) + o(1, QUIET),
        o(2, ALL),
        o(2, CAPTURE),
        o(2, QUIET),
    );
    lemma_split_add(
        o(0, ALL) + o(1, ALL) + o(2, ALL),
        o(0, CAPTURE) + o(1, CAPTURE) + o(2, CAPTURE),
        o(0, QUIET) + o(1, QUIET) + o(2, QUIET),
        o(3, ALL),
        o(3, CAPTURE),
        o(3, QUIET),
    );
}

proof fn lemma_king_split(p: &Position, pos: int)
    requires
        p.wf(),
    ensures
        splits(p.king_moves(ALL, pos), p.king_moves(CAPTURE, pos), p.king_moves(QUIET, pos)),
{
    lemma_split4(
        p,
        seq![2 < pos < 15 || 65 < pos < 78, 11 < pos < 24 || 74 < pos < 87, pos % 9 == 4 || pos % 9 == 5, pos % 9 == 4 || pos % 9 == 3],
        seq![pos + 9, pos - 9, pos - 1, pos + 1],
        pos,
    );
}

proof fn lemma_advisor_split(p: &Position, pos: int)
    requires
        p.wf(),
    ensures
        splits(p.advisor_moves(ALL, pos), p.advisor_moves(CAPTURE, pos), p.advisor_moves(QUIET, pos)),
{
    broadcast use vstd::multiset::group_multiset_axioms;
    broadcast use vstd::seq_lib::lemma_multiset_commutative;
    broadcast use vstd::seq_lib::group_to_multiset_ensures;

    if pos == 13 || pos == 76 {
        lemma_split4(p, seq![true, true, true, true], seq![pos - 10, pos + 10, pos - 8, pos + 8], pos);
    } else {
        lemma_target_split(p, 13);
        lemma_target_split(p, 76);
        assert(Seq::<Move>::empty().to_multiset() =~= Multiset::<Move>::empty()) by {
            vstd::seq_lib::to_multiset_len(Seq::<Move>::empty());
        }
        assert(seq![mv(pos, 13)] =~= Seq::<Move>::empty().push(mv(pos, 13)));
        assert(seq![mv(pos, 76)] =~= Seq::<Move>::empty().push(mv(pos, 76)));
    }
}

proof fn lemma_bishop_split(p: &Position, pos: int)
    requires
        p.wf(),
    ensures
        splits(p.bishop_moves(ALL, pos), p.bishop_moves(CAPTURE, pos), p.bishop_moves(QUIET, pos)),
{
    let row = pos / 9;
    let down = row == 0 || row == 5 || row == 7 || row == 3;
    let up = row == 4 || row == 9 || row == 7 || row == 3;
    lemma_split4(
        p,
        seq![down && p.piece(pos + 10) == 0, down && p.piece(pos + 12) == 0, up && p.piece(pos - 10) == 0, up && p.piece(pos - 12) == 0],
        seq![pos + 16, pos + 20, pos - 16, pos - 20],
        pos,
    );
}

proof fn lemma_pair_split(p: &Position, c1: bool, x1: int, c2: bool, x2: int, pos: int)
    requires
        p.wf(),
    ensures
        splits(
            opt_mv(c1 && p.target_ok(x1, ALL), pos, x1) + opt_mv(c2 && p.target_ok(x2, ALL), pos, x2),
            opt_mv(c1 && p.target_ok(x1, CAPTURE), pos, x1) + opt_mv(c2 && p.target_ok(x2, CAPTURE), pos, x2),
            opt_mv(c1 && p.target_ok(x1, QUIET), pos, x1) + opt_mv(c2 && p.target_ok(x2, QUIET), pos, x2),
        ),
{
    lemma_opt_split(p, c1, x1, pos, x1);
    lemma_opt_split(p, c2, x2, pos, x2);
    lemma_split_add(
        opt_mv(c1 && p.target_ok(x1, ALL), pos, x1),
        opt_mv(c1 && p.target_ok(x1, CAPTURE), pos, x1),
        opt_mv(c1 && p.target_ok(x1, QUIET), pos, x1),
        opt_mv(c2 && p.target_ok(x2, ALL), pos, x2),
        opt_mv(c2 && p.target_ok(x2, CAPTURE), pos, x2),
        opt_mv(c2 && p.target_ok(x2, QUIET), pos, x2),
    );
}

proof fn lemma_knight_split(p: &Position, pos: int)
    requires
        p.wf(),
    ensures
        splits(p.knight_moves(ALL, pos), p.knight_moves(CAPTURE, pos), p.knight_moves(QUIET, pos)),
{
    let a = pos > 17 && p.piece(pos - 9) == 0;
    let b = pos < 72 && p.piece(pos + 9) == 0;
    let c = pos % 9 > 1 && p.piece(pos - 1) == 0;
    let d = pos % 9 < 7 && p.piece(pos + 1) == 0;
    lemma_pair_split(p, a && pos % 9 != 0, pos - 19, a && pos % 9 != 0, pos - 17, pos);
    lemma_pair_split(p, b && pos % 9 != 0, pos + 19, b && pos % 9 != 0, pos + 17, pos);
    lemma_pair_split(p, c && pos / 9 != 0, pos - 11, c && pos / 9 != 9, pos + 7, pos);
    lemma_pair_split(p, d && pos / 9 != 0, pos + 11, d && pos / 9 != 9, w8(pos - 7), pos);
    lemma_split_add(
        p.knight_up(ALL, pos),
        p.knight_up(CAPTURE, pos),
        p.knight_up(QUIET, pos),
        p.knight_down(ALL, pos),
        p.knight_down(CAPTURE, pos),
        p.knight_down(QUIET, pos),
    );
    lemma_split_add(
        p.knight_up(ALL, pos) + p.knight_down(ALL, pos),
        p.knight_up(CAPTURE, pos) + p.knight_down(CAPTURE, pos),
        p.knight_up(QUIET, pos) + p.knight_down(QUIET, pos),
        p.knight_left(ALL, pos),
        p.knight_left(CAPTURE, pos),
        p.knight_left(QUIET, pos),
    );
    lemma_split_add(
        p.knight_up(ALL, pos) + p.knight_down(ALL, pos) + p.knight_left(ALL, pos),
        p.knight_up(CAPTURE, pos) + p.knight_down(CAPTURE, pos) + p.knight_left(CAPTURE, pos),
        p.knight_up(QUIET, pos) + p.knight_down(QUIET, pos) + p.knight_left(QUIET, pos),
        p.knight_right(ALL, pos),
        p.knight_right(CAPTURE, pos),
        p.knight_right(QUIET, pos),
    );
}

proof fn lemma_line_split(p: &Position, pos: int)
    requires
        p.wf(),
    ensures
        splits(p.rook_moves(ALL, pos), p.rook_moves(CAPTURE, pos), p.rook_moves(QUIET, pos)),
        splits(p.cannon_moves(ALL, pos), p.cannon_moves(CAPTURE, pos), p.cannon_moves(QUIET, pos)),
{
    broadcast use vstd::multiset::group_multiset_axioms;
    broadcast use vstd::seq_lib::lemma_multiset_commutative;

    assert(Seq::<Move>::empty().to_multiset() =~= Multiset::<Move>::empty()) by {
        vstd::seq_lib::to_multiset_len(Seq::<Move>::empty());
    }
}

proof fn lemma_pawn_split(p: &Position, pos: int)
    requires
        p.wf(),
    ensures
        splits(p.pawn_moves(ALL, pos), p.pawn_moves(CAPTURE, pos), p.pawn_moves(QUIET, pos)),
{
    let t = p.side();
    let target = pos - 9 * t;
    let crossed = (pos / 9 < 5 && t == R) || (pos / 9 > 4 && t == B);
    lemma_pair_split(p, 0 <= target < 90, target, crossed && pos % 9 != 0, pos - 1, pos);
    lemma_opt_split(p, crossed && pos % 9 != 8, pos + 1, pos, pos + 1);
    lemma_split_add(
        opt_mv(0 <= target < 90 && p.target_ok(target, ALL), pos, target) + opt_mv(crossed && pos % 9 != 0
            && p.target_ok(pos - 1, ALL), pos, pos - 1),
        opt_mv(0 <= target < 90 && p.target_ok(target, CAPTURE), pos, target) + opt_mv(crossed && pos % 9 != 0
            && p.target_ok(pos - 1, CAPTURE), pos, pos - 1),
        opt_mv(0 <= target < 90 && p.target_ok(target, QUIET), pos, target) + opt_mv(crossed && pos % 9 != 0
            && p.target_ok(pos - 1, QUIET), pos, pos - 1),
        opt_mv(crossed && pos % 9 != 8 && p.target_ok(pos + 1, ALL), pos, pos + 1),
        opt_mv(crossed && pos % 9 != 8 && p.target_ok(pos + 1, CAPTURE), pos, pos + 1),
        opt_mv(crossed && pos % 9 != 8 && p.target_ok(pos + 1, QUIET), pos, pos + 1),
    );
}

proof fn lemma_piece_split(p: &Position, pos: int)
    requires
        p.wf(),
    ensures
        splits(p.piece_moves(ALL, pos), p.piece_moves(CAPTURE, pos), p.piece_moves(QUIET, pos)),
{
    broadcast use vstd::multiset::group_multiset_axioms;

    let t = abs8(p.piece(pos));
    if t == R_KING {
        lemma_king_split(p, pos);
    } else if t == R_ADVISOR {
        lemma_advisor_split(p, pos);
    } else if t == R_BISHOP {
        lemma_bishop_split(p, pos);
    } else if t == R_KNIGHT {
        lemma_knight_split(p, pos);
    } else if t == R_ROOK || t == R_CANNON {
        lemma_line_split(p, pos);
    } else if t == R_PAWN {
        lemma_pawn_split(p, pos);
    } else {
        assert(Seq::<Move>::empty().to_multiset() =~= Multiset::<Move>::empty()) by {
            vstd::seq_lib::to_multiset_len(Seq::<Move>::empty());
        }
    }
}

proof fn lemma_moves_split(p: &Position, list: Seq<u8>, n: int)
    requires
        p.wf(),
    ensures
        p.moves_of(ALL, list, n).to_multiset() =~= p.moves_of(CAPTURE, list, n).to_multiset().add(
            p.moves_of(QUIET, list, n).to_multiset(),
        ),
    decreases n,
{
    broadcast use vstd::multiset::group_multiset_axioms;
    broadcast use vstd::seq_lib::lemma_multiset_commutative;

    if n <= 0 {
        assert(Seq::<Move>::empty().to_multiset() =~= Multiset::<Move>::empty()) by {
            vstd::seq_lib::to_multiset_len(Seq::<Move>::empty());
        }
    } else {
        lemma_moves_split(p, list, n - 1);
        lemma_piece_split(p, list[n - 1] as int);
        assert(splits(p.piece_moves(ALL, list[n - 1] as int), p.piece_moves(CAPTURE, list[n - 1] as int), p.piece_moves(QUIET, list[n - 1] as int)));
    }
}

/// All moves are the captures and the quiet moves together: each move comes
/// in `gen_all_moves` as often as in `gen_capture_moves` and
/// `gen_quiet_moves` combined.
pub proof fn lemma_all_moves_split(p: &Position)
    requires
        p.wf(),
    ensures
        p.gen_spec(ALL).to_multiset() =~= p.gen_spec(CAPTURE).to_multiset().add(p.gen_spec(QUIET).to_multiset()),
{
    lemma_moves_split(p, p.list_of(p.side()), p.list_of(p.side()).len() as int);
}

proof fn lemma_first_fresh(moves: Seq<Move>, starts: Seq<Move>, idx: int)
    ensures
        match first_fresh(moves, starts, idx) {
            Some(k) => idx <= k < moves.len() && !starts.contains(moves[k]),
            None => true,
        },
    decreases moves.len() - idx,
{
    if 0 <= idx < moves.len() && starts.contains(moves[idx]) {
        lemma_first_fresh(moves, starts, idx + 1);
    }
}

/// The first moves are not handed out again: a move that `next` takes from
/// the generated moves is none of the hash move and the killers it started
/// with.
pub proof fn lemma_picker_skips_starts(mp: MovePicker, p: &Position, h: &HistoryTable, r: Move, q: MovePicker)
    requires
        mp.wf(),
        MovePicker::next_result(mp, p, h, r, q),
        !(0 <= mp.stage() <= 3 && first_start(mp.starts(), mp.stage()) is Some),
        r != null_move(),
    ensures
        !mp.starts().contains(r),
{
    let i = mp.stage();
    lemma_first_fresh(q.rest(), mp.starts(), if i < 0 { -i - 1 } else { 0 });
}

proof fn lemma_moves_of_contains(p: &Position, g: GenType, list: Seq<u8>, n: int, k: int, m: Move)
    requires
        0 <= k < n,
        p.piece_moves(g, list[k] as int).contains(m),
    ensures
        p.moves_of(g, list, n).contains(m),
    decreases n,
{
    let prev = p.moves_of(g, list, n - 1);
    let here = p.piece_moves(g, list[n - 1] as int);
    if k == n - 1 {
        let j = choose|j: int| 0 <= j < here.len() && here[j] == m;
        assert((prev + here)[prev.len() + j] == m);
    } else {
        lemma_moves_of_contains(p, g, list, n - 1, k, m);
        let j = choose|j: int| 0 <= j < prev.len() && prev[j] == m;
        assert((prev + here)[j] == m);
    }
}

/// Every cannon capture is generated: when a cannon of the side to move on
/// `c` has exactly one piece between it and an enemy piece other than the
/// king on `x`, along a row or a column, the move from `c` to `x` is among
/// the capture moves and among all moves.
pub proof fn lemma_cannon_capture_generated(p: &Position, c: int, x: int)
    requires
        p.wf(),
        p.piece(c) * p.side() == R_CANNON,
        screened(p, c, x),
        p.piece(x) * p.side() < 0,
        p.piece(x) != R_KING && p.piece(x) != -R_KING,
    ensures
        p.gen_spec(CAPTURE).contains(mv(c, x)),
        p.gen_spec(ALL).contains(mv(c, x)),
{
    crate::position::lemma_piece_times_side(p, c);
    crate::position::lemma_piece_times_side(p, x);
    lemma_cannon_point(p, c, x);
    let pts = cannon_points(p, c);
    let j = choose|j: int| 0 <= j < pts.len() && pts[j] == x as u8;
    assert(p.target_ok(x, CAPTURE));
    let m = mv(c, x);
    let caps = p.cannon_moves(CAPTURE, c);
    let alls = p.cannon_moves(ALL, c);
    assert(caps.contains(m)) by {
        if j == 0 {
            assert(caps[0] == m);
        } else if j == 1 {
            let a = opt_mv(pts[0] < INVALID_POS && p.target_ok(pts[0] as int, CAPTURE), c, pts[0] as int);
            assert(caps[a.len() as int] == m);
        } else if j == 2 {
            let a = opt_mv(pts[0] < INVALID_POS && p.target_ok(pts[0] as int, CAPTURE), c, pts[0] as int)
                + opt_mv(pts[1] < INVALID_POS && p.target_ok(pts[1] as int, CAPTURE), c, pts[1] as int);
            assert(caps[a.len() as int] == m);
        } else {
            let a = opt_mv(pts[0] < INVALID_POS && p.target_ok(pts[0] as int, CAPTURE), c, pts[0] as int)
                + opt_mv(pts[1] < INVALID_POS && p.target_ok(pts[1] as int, CAPTURE), c, pts[1] as int)
                + opt_mv(pts[2] < INVALID_POS && p.target_ok(pts[2] as int, CAPTURE), c, pts[2] as int);
            assert(caps[a.len() as int] == m);
        }
    }
    let ci = choose|i: int| 0 <= i < caps.len() && caps[i] == m;
    assert(alls[ci] == m);
    let list = p.list_of(p.side());
    assert(owned(p.board()[c], p.side()));
    assert(list.contains(c as u8));
    let k = choose|k: int| 0 <= k < list.len() && list[k] == c as u8;
    lemma_moves_of_contains(p, CAPTURE, list, list.len() as int, k, m);
    lemma_moves_of_contains(p, ALL, list, list.len() as int, k, m);
}

/// Every rook capture is generated: when a rook of the side to move on `c`
/// has nothing between it and an enemy piece other than the king on `x`,
/// along a row or a column, the move from `c` to `x` is among the capture
/// moves and among all moves.
pub proof fn lemma_rook_capture_generated(p: &Position, c: int, x: int)
    requires
        p.wf(),
        p.piece(c) * p.side() == R_ROOK,
        clear_line(p, c, x),
        p.piece(x) * p.side() < 0,
        p.piece(x) != R_KING && p.piece(x) != -R_KING,
    ensures
        p.gen_spec(CAPTURE).contains(mv(c, x)),
        p.gen_spec(ALL).contains(mv(c, x)),
{
    crate::position::lemma_piece_times_side(p, c);
    crate::position::lemma_piece_times_side(p, x);
    lemma_rook_point(p, c, x);
    let pts = rook_points(p, c);
    let j = choose|j: int| 0 <= j < pts.len() && pts[j] == x as u8;
    assert(p.target_ok(x, CAPTURE));
    let m = mv(c, x);
    let caps = p.rook_captures(c);
    assert(caps.contains(m)) by {
        if j == 0 {
            assert(caps[0] == m);
        } else if j == 1 {
            let a = opt_mv(p.target_ok(pts[0] as int, CAPTURE), c, pts[0] as int);
            assert(caps[a.len() as int] == m);
        } else if j == 2 {
            let a = opt_mv(p.target_ok(pts[0] as int, CAPTURE), c, pts[0] as int) + opt_mv(
                p.target_ok(pts[1] as int, CAPTURE),
                c,
                pts[1] as int,
            );
            assert(caps[a.len() as int] == m);
        } else {
            let a = opt_mv(p.target_ok(pts[0] as int, CAPTURE), c, pts[0] as int) + opt_mv(
                p.target_ok(pts[1] as int, CAPTURE),
                c,
                pts[1] as int,
            ) + opt_mv(p.target_ok(pts[2] as int, CAPTURE), c, pts[2] as int);
            assert(caps[a.len() as int] == m);
        }
    }
    let ci = choose|i: int| 0 <= i < caps.len() && caps[i] == m;
    let capm = p.rook_moves(CAPTURE, c);
    let allm = p.rook_moves(ALL, c);
    assert(capm =~= caps);
    assert(allm =~= p.rook_quiet(c) + caps);
    assert(allm[p.rook_quiet(c).len() + ci] == m);
    let list = p.list_of(p.side());
    assert(owned(p.board()[c], p.side()));
    assert(list.contains(c as u8));
    let k = choose|k: int| 0 <= k < list.len() && list[k] == c as u8;
    lemma_moves_of_contains(p, CAPTURE, list, list.len() as int, k, m);
    lemma_moves_of_contains(p, ALL, list, list.len() as int, k, m);
}

/// Every king step inside the palace is generated: a king of the side to
/// move steps one square along its row or column to a palace square of its
/// side that holds neither its own piece nor a king, and that move is among
/// all moves (and among the captures or the quiet moves, as the square is
/// occupied or not).
pub proof fn lemma_king_step_generated(p: &Position, c: int, x: int)
    requires
        p.wf(),
        p.piece(c) * p.side() == R_KING,
        x == c + 1 || x == c - 1 || x == c + 9 || x == c - 9,
        x / 9 == c / 9 || x % 9 == c % 9,
        3 <= c % 9 <= 5 && 3 <= x % 9 <= 5,
        if p.side() == R { c / 9 >= 7 && x / 9 >= 7 } else { c / 9 <= 2 && x / 9 <= 2 },
        0 <= x < 90,
        p.piece(x) * p.side() <= 0,
        p.piece(x) != R_KING && p.piece(x) != -R_KING,
    ensures
        p.gen_spec(ALL).contains(mv(c, x)),
        p.piece(x) == 0 ==> p.gen_spec(QUIET).contains(mv(c, x)),
        p.piece(x) != 0 ==> p.gen_spec(CAPTURE).contains(mv(c, x)),
{
    crate::position::lemma_piece_times_side(p, c);
    crate::position::lemma_piece_times_side(p, x);
    let list = p.list_of(p.side());
    assert(owned(p.board()[c], p.side()));
    assert(list.contains(c as u8));
    let k = choose|k: int| 0 <= k < list.len() && list[k] == c as u8;
    let m = mv(c, x);
    assert forall|g: GenType| g == ALL || (g == QUIET && p.piece(x) == 0) || (g == CAPTURE && p.piece(x) != 0) implies #[trigger] p.king_moves(g, c).contains(m) by {
        assert(p.target_ok(x, g));
        let km = p.king_moves(g, c);
        let o0 = opt_mv((2 < c < 15 || 65 < c < 78) && p.target_ok(c + 9, g), c, c + 9);
        let o1 = opt_mv((11 < c < 24 || 74 < c < 87) && p.target_ok(c - 9, g), c, c - 9);
        let o2 = opt_mv((c % 9 == 4 || c % 9 == 5) && p.target_ok(c - 1, g), c, c - 1);
        if x == c + 9 {
            assert(km[0] == m);
        } else if x == c - 9 {
            assert(km[o0.len() as int] == m);
        } else if x == c - 1 {
            assert(km[(o0.len() + o1.len()) as int] == m);
        } else {
            assert(km[(o0.len() + o1.len() + o2.len()) as int] == m);
        }
    }
    assert(p.king_moves(ALL, c).contains(m));
    lemma_moves_of_contains(p, ALL, list, list.len() as int, k, m);
    if p.piece(x) == 0 {
        assert(p.king_moves(QUIET, c).contains(m));
        lemma_moves_of_contains(p, QUIET, list, list.len() as int, k, m);
    } else {
        assert(p.king_moves(CAPTURE, c).contains(m));
        lemma_moves_of_contains(p, CAPTURE, list, list.len() as int, k, m);
    }
}

proof fn lemma_concat_contains(s1: Seq<Move>, s2: Seq<Move>, m: Move)
    ensures
        (s1.contains(m) || s2.contains(m)) ==> (s1 + s2).contains(m),
{
    if s1.contains(m) {
        let j = choose|j: int| 0 <= j < s1.len() && s1[j] == m;
        assert((s1 + s2)[j] == m);
    } else if s2.contains(m) {
        let j = choose|j: int| 0 <= j < s2.len() && s2[j] == m;
        assert((s1 + s2)[s1.len() + j] == m);
    }
}

/// Whether a knight on `c` reaches `x` over an empty leg: two rows and one
/// column away with the square next to it on its column empty (for a
/// knight off the edge columns), or one row and two columns away with the
/// square next to it on its row empty (to the right, the generator's row
/// tests also keep a knight on row 0 from stepping down and one on row 9
/// from stepping up).
pub open spec fn knight_step(p: &Position, c: int, x: int) -> bool {
    let col = c % 9;
    let row = c / 9;
    ||| (x == c - 19 || x == c - 17) && row >= 2 && 1 <= col <= 7 && p.piece(c - 9) == 0
    ||| (x == c + 19 || x == c + 17) && row <= 7 && 1 <= col <= 7 && p.piece(c + 9) == 0
    ||| (x == c - 11 || x == c + 7) && col >= 2 && p.piece(c - 1) == 0 && 0 <= x < 90
    ||| x == c + 11 && col <= 6 && row >= 1 && p.piece(c + 1) == 0 && 0 <= x < 90
    ||| x == c - 7 && col <= 6 && row <= 8 && p.piece(c + 1) == 0 && 0 <= x < 90
}

/// Every knight move is generated: a knight of the side to move reaching
/// `x` over an empty leg (see `knight_step`), where `x` holds neither its
/// own piece nor a king, is among all moves.
pub proof fn lemma_knight_step_generated(p: &Position, c: int, x: int)
    requires
        p.wf(),
        p.piece(c) * p.side() == R_KNIGHT,
        knight_step(p, c, x),
        p.piece(x) * p.side() <= 0,
        p.piece(x) != R_KING && p.piece(x) != -R_KING,
    ensures
        p.gen_spec(ALL).contains(mv(c, x)),
{
    crate::position::lemma_piece_times_side(p, c);
    crate::position::lemma_piece_times_side(p, x);
    assert(0 <= c < 90);
    assert(0 <= x < 90);
    assert(p.target_ok(x, ALL));
    let m = mv(c, x);
    let g = ALL;
    let up = p.knight_up(g, c);
    let down = p.knight_down(g, c);
    let left = p.knight_left(g, c);
    let right = p.knight_right(g, c);
    if x == c - 19 || x == c - 17 {
        if x == c - 19 {
            assert(up[0] == m);
        } else {
            let o = opt_mv(c > 17 && p.piece(c - 9) == 0 && c % 9 != 0 && p.target_ok(c - 19, g), c, c - 19);
            assert(up[o.len() as int] == m);
        }
        lemma_concat_contains(up, down, m);
        lemma_concat_contains(up + down, left, m);
        lemma_concat_contains(up + down + left, right, m);
    } else if x == c + 19 || x == c + 17 {
        if x == c + 19 {
            assert(down[0] == m);
        } else {
            let o = opt_mv(c < 72 && p.piece(c + 9) == 0 && c % 9 != 0 && p.target_ok(c + 19, g), c, c + 19);
            assert(down[o.len() as int] == m);
        }
        lemma_concat_contains(up, down, m);
        lemma_concat_contains(up + down, left, m);
        lemma_concat_contains(up + down + left, right, m);
    } else if x == c - 11 || x == c + 7 {
        if x == c - 11 {
            assert(left[0] == m);
        } else {
            let o = opt_mv(c % 9 > 1 && p.piece(c - 1) == 0 && c / 9 != 0 && p.target_ok(c - 11, g), c, c - 11);
            assert(left[o.len() as int] == m);
        }
        lemma_concat_contains(up + down, left, m);
        lemma_concat_contains(up + down + left, right, m);
    } else {
        crate::position::lemma_piece_w8(p, c - 7);
        if x == c + 11 {
            assert(right[0] == m);
        } else {
            assert(w8(c - 7) == c - 7);
            let o = opt_mv(c % 9 < 7 && p.piece(c + 1) == 0 && c / 9 != 0 && p.target_ok(c + 11, g), c, c + 11);
            assert(right[o.len() as int] == m);
        }
        lemma_concat_contains(up + down + left, right, m);
    }
    assert(p.knight_moves(g, c).contains(m));
    let list = p.list_of(p.side());
    assert(owned(p.board()[c], p.side()));
    assert(list.contains(c as u8));
    let k = choose|k: int| 0 <= k < list.len() && list[k] == c as u8;
    lemma_moves_of_contains(p, ALL, list, list.len() as int, k, m);
}

} // verus!
