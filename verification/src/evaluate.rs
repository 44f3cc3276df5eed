//! Static evaluation of a position.

use vstd::prelude::*;
use crate::common::{Team, Pos, PType, VL, R, B, R_KING, R_ADVISOR, R_BISHOP, R_KNIGHT, R_ROOK, R_CANNON, R_PAWN, INVALID_POS};
use crate::lines::{banner_spec, rook9, rook10, cannon9, cannon10};
use crate::position::{Position, abs8, w8, sq_add, sq_sub, abs_piece, owned, lemma_line_bounds, lemma_piece_times_side, lemma_times_side, clear_line, rook_points, lemma_rook_point};

verus! {

pub const TEMPO: VL = 8;
pub const HANG_PEN: [i32; 8] = [0, 0, 25, 25, 50, 110, 55, 8];
pub const MOB_ROOK: i32 = 2;
pub const MOB_CANNON: i32 = 2;
pub const MOB_KNIGHT: i32 = 4;

/// Whether square `pos` lies across the river for `team`.
pub open spec fn crossed_spec(team: Team, pos: int) -> bool {
    if team == R {
        pos / 9 < 5
    } else {
        pos / 9 > 4
    }
}

fn crossed_river(team: Team, pos: Pos) -> (r: bool)
    ensures
        r == crossed_spec(team, pos as int),
{
    if team == R {
        pos / 9 < 5
    } else {
        pos / 9 > 4
    }
}

/// Division by 9 rounding toward zero.
pub open spec fn tdiv9(x: int) -> int {
    if x >= 0 {
        x / 9
    } else {
        -((-x) / 9)
    }
}

/// Whether square `x` holds a piece of kind `kind` of side `by`.
pub open spec fn side_at(p: &Position, x: int, by: Team, kind: PType) -> bool {
    p.piece(x) * by == kind
}

/// Whether side `by` attacks square `sq`: a pawn in front of it (or beside
/// it across the river), an advisor or bishop on a diagonal (the bishop's eye
/// empty), a knight behind an empty leg, a rook or (as written, at the rook
/// points) a cannon, or a king next to it.
pub open spec fn attacks_spec(p: &Position, by: Team, sq: int) -> bool {
    let f = sq % 9;
    let rl = banner_spec(p.row_line(sq), sq as u8, true, true);
    let rc = banner_spec(p.col_line(sq), sq as u8, false, true);
    ||| side_at(p, sq + 9 * by, by, R_PAWN)
    ||| crossed_spec(by, sq) && f != 0 && side_at(p, sq - 1, by, R_PAWN)
    ||| crossed_spec(by, sq) && f != 0 && side_at(p, sq + 1, by, R_PAWN)
    ||| f != 0 && side_at(p, w8(sq - 10), by, R_ADVISOR)
    ||| f != 0 && side_at(p, sq + 8, by, R_ADVISOR)
    ||| f != 8 && side_at(p, w8(sq - 8), by, R_ADVISOR)
    ||| f != 8 && side_at(p, sq + 10, by, R_ADVISOR)
    ||| f >= 2 && p.piece(w8(sq - 10)) == 0 && side_at(p, w8(sq - 20), by, R_BISHOP)
    ||| f >= 2 && p.piece(sq + 8) == 0 && side_at(p, sq + 16, by, R_BISHOP)
    ||| f <= 6 && p.piece(w8(sq - 8)) == 0 && side_at(p, w8(sq - 16), by, R_BISHOP)
    ||| f <= 6 && p.piece(sq + 10) == 0 && side_at(p, sq + 20, by, R_BISHOP)
    ||| p.piece(w8(sq - 10)) == 0 && f >= 1 && side_at(p, w8(sq - 19), by, R_KNIGHT)
    ||| p.piece(w8(sq - 10)) == 0 && f <= 6 && side_at(p, w8(sq - 11), by, R_KNIGHT)
    ||| p.piece(sq + 10) == 0 && f <= 7 && side_at(p, sq + 19, by, R_KNIGHT)
    ||| p.piece(sq + 10) == 0 && f >= 2 && side_at(p, sq + 11, by, R_KNIGHT)
    ||| p.piece(sq + 8) == 0 && f >= 1 && side_at(p, sq + 17, by, R_KNIGHT)
    ||| p.piece(sq + 8) == 0 && f <= 6 && side_at(p, sq + 7, by, R_KNIGHT)
    ||| p.piece(w8(sq - 8)) == 0 && f <= 7 && side_at(p, w8(sq - 17), by, R_KNIGHT)
    ||| p.piece(w8(sq - 8)) == 0 && f >= 2 && side_at(p, w8(sq - 7), by, R_KNIGHT)
    ||| side_at(p, rl.0 as int, by, R_ROOK) || side_at(p, rl.1 as int, by, R_ROOK)
        || side_at(p, rc.0 as int, by, R_ROOK) || side_at(p, rc.1 as int, by, R_ROOK)
    ||| side_at(p, rl.0 as int, by, R_CANNON) || side_at(p, rl.1 as int, by, R_CANNON)
        || side_at(p, rc.0 as int, by, R_CANNON) || side_at(p, rc.1 as int, by, R_CANNON)
    ||| f != 0 && side_at(p, sq - 1, by, R_KING)
    ||| f != 8 && side_at(p, sq + 1, by, R_KING)
    ||| side_at(p, w8(sq - 9), by, R_KING)
    ||| side_at(p, sq + 9, by, R_KING)
}

/// The piece on `x` times `by`, for a side `by`.
fn side_piece(p: &Position, x: Pos, by: Team) -> (r: PType)
    requires
        p.wf(),
        by == R || by == B,
    ensures
        r == p.piece(x as int) * by,
{
    proof {
        lemma_piece_times_side(p, x as int);
        lemma_times_side(p.piece(x as int) as int, by as int);
    }
    p.get_piece(x) * by
}

#[verifier::spinoff_prover]
#[verifier::rlimit(60)]
fn attacks_sq(p: &Position, by: Team, sq: Pos) -> (r: bool)
    requires
        p.wf(),
        by == R || by == B,
        sq < 90,
    ensures
        r == attacks_spec(p, by, sq as int),
{
    let f = sq % 9;
    let front = if by == R { sq + 9 } else { sq_sub(sq, 9) };
    if side_piece(p, front, by) == R_PAWN {
        return true;
    }
    if crossed_river(by, sq) {
        if f != 0 && side_piece(p, sq - 1, by) == R_PAWN {
            return true;
        }
        if f != 0 && side_piece(p, sq + 1, by) == R_PAWN {
            return true;
        }
    }
    if f != 0 {
        if side_piece(p, sq_sub(sq, 10), by) == R_ADVISOR {
            return true;
        }
        if side_piece(p, sq + 8, by) == R_ADVISOR {
            return true;
        }
    }
    if f != 8 {
        if side_piece(p, sq_sub(sq, 8), by) == R_ADVISOR {
            return true;
        }
        if side_piece(p, sq + 10, by) == R_ADVISOR {
            return true;
        }
    }
    if f >= 2 {
        if p.get_piece(sq_sub(sq, 10)) == 0 && side_piece(p, sq_sub(sq, 20), by) == R_BISHOP {
            return true;
        }
        if p.get_piece(sq + 8) == 0 && side_piece(p, sq + 16, by) == R_BISHOP {
            return true;
        }
    }
    if f <= 6 {
        if p.get_piece(sq_sub(sq, 8)) == 0 && side_piece(p, sq_sub(sq, 16), by) == R_BISHOP {
            return true;
        }
        if p.get_piece(sq + 10) == 0 && side_piece(p, sq + 20, by) == R_BISHOP {
            return true;
        }
    }
    if p.get_piece(sq_sub(sq, 10)) == 0 {
        if f >= 1 && side_piece(p, sq_sub(sq, 19), by) == R_KNIGHT {
            return true;
        }
        if f <= 6 && side_piece(p, sq_sub(sq, 11), by) == R_KNIGHT {
            return true;
        }
    }
    if p.get_piece(sq + 10) == 0 {
        if f <= 7 && side_piece(p, sq + 19, by) == R_KNIGHT {
            return true;
        }
        if f >= 2 && side_piece(p, sq + 11, by) == R_KNIGHT {
            return true;
        }
    }
    if p.get_piece(sq + 8) == 0 {
        if f >= 1 && side_piece(p, sq + 17, by) == R_KNIGHT {
            return true;
        }
        if f <= 6 && side_piece(p, sq + 7, by) == R_KNIGHT {
            return true;
        }
    }
    if p.get_piece(sq_sub(sq, 8)) == 0 {
        if f <= 7 && side_piece(p, sq_sub(sq, 17), by) == R_KNIGHT {
            return true;
        }
        if f >= 2 && side_piece(p, sq_sub(sq, 7), by) == R_KNIGHT {
            return true;
        }
    }
    proof {
        lemma_line_bounds(p, sq as int);
    }
    let (rl, rr) = rook9(p.get_bl9(sq), sq);
    let (rt, rb) = rook10(p.get_bl10(sq), sq);
    if side_piece(p, rl, by) == R_ROOK || side_piece(p, rr, by) == R_ROOK || side_piece(p, rt, by) == R_ROOK
        || side_piece(p, rb, by) == R_ROOK {
        return true;
    }
    let (_cl, _cr) = cannon9(p.get_bl9(sq), sq);
    let (_ct, _cb) = cannon10(p.get_bl10(sq), sq);
    if side_piece(p, rl, by) == R_CANNON || side_piece(p, rr, by) == R_CANNON || side_piece(p, rt, by)
        == R_CANNON || side_piece(p, rb, by) == R_CANNON {
        return true;
    }
    if f != 0 && side_piece(p, sq - 1, by) == R_KING {
        return true;
    }
    if f != 8 && side_piece(p, sq + 1, by) == R_KING {
        return true;
    }
    if side_piece(p, sq_sub(sq, 9), by) == R_KING {
        return true;
    }
    if side_piece(p, sq + 9, by) == R_KING {
        return true;
    }
    false
}

} // verus!

verus! {

/// 1 when the piece on `x` is not `team`'s own, else 0.
pub open spec fn free_for(p: &Position, x: int, team: Team) -> int {
    if p.piece(x) * team <= 0 {
        1
    } else {
        0
    }
}

/// Rook mobility: the squares between the rook points of the row and of the
/// column (the column distance divided by 9, rounding toward zero), plus
/// one for each point not holding an own piece.
pub open spec fn rook_mob_spec(p: &Position, team: Team, pos: int) -> int {
    let (rl, rr) = banner_spec(p.row_line(pos), pos as u8, true, true);
    let (rt, rb) = banner_spec(p.col_line(pos), pos as u8, false, true);
    rr - rl - 2 + tdiv9(rb - rt) - 2 + free_for(p, rl as int, team) + free_for(p, rr as int, team) + free_for(
        p,
        rt as int,
        team,
    ) + free_for(p, rb as int, team)
}

/// 1 when cannon point `x` is on the board and holds an enemy piece, else 0.
pub open spec fn hit_for(p: &Position, x: int, team: Team) -> int {
    if x < 90 && p.piece(x) * team < 0 {
        1
    } else {
        0
    }
}

/// Cannon mobility: the rook mobility plus one for each cannon point that
/// holds an enemy piece.
pub open spec fn cannon_mob_spec(p: &Position, team: Team, pos: int) -> int {
    let (cl, cr) = banner_spec(p.row_line(pos), pos as u8, true, false);
    let (ct, cb) = banner_spec(p.col_line(pos), pos as u8, false, false);
    rook_mob_spec(p, team, pos) + hit_for(p, cl as int, team) + hit_for(p, cr as int, team) + hit_for(
        p,
        ct as int,
        team,
    ) + hit_for(p, cb as int, team)
}

/// 1 when `dst` is on the board without an own piece, else 0.
pub open spec fn knight_ok(p: &Position, dst: int, team: Team) -> int {
    if 0 <= dst < 90 && p.piece(dst) * team <= 0 {
        1
    } else {
        0
    }
}

/// Knight mobility: the knight targets behind each empty leg, with `f`
/// the row of `pos`.
pub open spec fn knight_mob_spec(p: &Position, team: Team, pos: int) -> int {
    let f = pos / 9;
    (if pos >= 9 && p.piece(pos - 9) == 0 {
        (if f >= 1 { knight_ok(p, pos - 19, team) } else { 0 }) + (if f <= 7 {
            knight_ok(p, pos - 17, team)
        } else {
            0
        })
    } else {
        0
    }) + (if pos <= 80 && p.piece(pos + 9) == 0 {
        (if f >= 1 { knight_ok(p, pos + 17, team) } else { 0 }) + (if f <= 7 {
            knight_ok(p, pos + 19, team)
        } else {
            0
        })
    } else {
        0
    }) + (if f >= 2 && p.piece(pos - 1) == 0 {
        knight_ok(p, pos - 11, team) + knight_ok(p, pos + 7, team)
    } else {
        0
    }) + (if f <= 6 && p.piece(pos + 1) == 0 {
        knight_ok(p, pos + 11, team) + knight_ok(p, pos - 7, team)
    } else {
        0
    })
}

proof fn lemma_rook_points_eval(p: &Position, pos: int)
    requires
        p.wf(),
        0 <= pos < 90,
    ensures
        banner_spec(p.row_line(pos), pos as u8, true, true).0 < 90,
        banner_spec(p.row_line(pos), pos as u8, true, true).1 < 90,
        banner_spec(p.col_line(pos), pos as u8, false, true).0 < 90,
        banner_spec(p.col_line(pos), pos as u8, false, true).1 < 90,
{
    lemma_line_bounds(p, pos);
    crate::lines::lemma_rook_nibbles(p.row_line(pos) as u32, pos % 9);
    crate::lines::lemma_rook_nibbles(p.col_line(pos) as u32, pos / 9);
}

fn rook_mobility(p: &Position, team: Team, pos: Pos) -> (m: i32)
    requires
        p.wf(),
        team == R || team == B,
        pos < 90,
    ensures
        m == rook_mob_spec(p, team, pos as int),
        -200 <= m <= 200,
{
    proof {
        lemma_line_bounds(p, pos as int);
        lemma_rook_points_eval(p, pos as int);
    }
    let (rl, rr) = rook9(p.get_bl9(pos), pos);
    let (rt, rb) = rook10(p.get_bl10(pos), pos);
    let mut mob = rr as i32 - rl as i32 - 2 + (rb as i32 - rt as i32) / 9 - 2;
    if side_piece(p, rl, team) <= 0 {
        mob += 1;
    }
    if side_piece(p, rr, team) <= 0 {
        mob += 1;
    }
    if side_piece(p, rt, team) <= 0 {
        mob += 1;
    }
    if side_piece(p, rb, team) <= 0 {
        mob += 1;
    }
    mob
}

fn cannon_mobility(p: &Position, team: Team, pos: Pos) -> (m: i32)
    requires
        p.wf(),
        team == R || team == B,
        pos < 90,
    ensures
        m == cannon_mob_spec(p, team, pos as int),
        -200 <= m <= 210,
{
    proof {
        lemma_line_bounds(p, pos as int);
        lemma_rook_points_eval(p, pos as int);
    }
    let mut mob = rook_mobility(p, team, pos);
    let (cl, cr) = cannon9(p.get_bl9(pos), pos);
    let (ct, cb) = cannon10(p.get_bl10(pos), pos);
    if cl < 90 && side_piece(p, cl, team) < 0 {
        mob += 1;
    }
    if cr < 90 && side_piece(p, cr, team) < 0 {
        mob += 1;
    }
    if ct < 90 && side_piece(p, ct, team) < 0 {
        mob += 1;
    }
    if cb < 90 && side_piece(p, cb, team) < 0 {
        mob += 1;
    }
    mob
}

/// Whether `dst` is on the board without an own piece (the knight targets).
fn knight_target_ok(p: &Position, team: Team, dst: i32) -> (r: bool)
    requires
        p.wf(),
        team == R || team == B,
    ensures
        r == (knight_ok(p, dst as int, team) == 1),
{
    dst >= 0 && dst < 90 && side_piece(p, dst as Pos, team) <= 0
}

fn knight_mobility(p: &Position, team: Team, pos: Pos) -> (m: i32)
    requires
        p.wf(),
        team == R || team == B,
        pos < 90,
    ensures
        m == knight_mob_spec(p, team, pos as int),
        0 <= m <= 8,
{
    let f = pos / 9;
    let mut mob: i32 = 0;
    if pos >= 9 && p.get_piece(pos - 9) == 0 {
        if f >= 1 && knight_target_ok(p, team, pos as i32 - 19) {
            mob += 1;
        }
        if f <= 7 && knight_target_ok(p, team, pos as i32 - 17) {
            mob += 1;
        }
    }
    if pos <= 80 && p.get_piece(pos + 9) == 0 {
        if f >= 1 && knight_target_ok(p, team, pos as i32 + 17) {
            mob += 1;
        }
        if f <= 7 && knight_target_ok(p, team, pos as i32 + 19) {
            mob += 1;
        }
    }
    if f >= 2 && p.get_piece(pos - 1) == 0 {
        if knight_target_ok(p, team, pos as i32 - 11) {
            mob += 1;
        }
        if knight_target_ok(p, team, pos as i32 + 7) {
            mob += 1;
        }
    }
    if f <= 6 && p.get_piece(pos + 1) == 0 {
        if knight_target_ok(p, team, pos as i32 + 11) {
            mob += 1;
        }
        if knight_target_ok(p, team, pos as i32 - 7) {
            mob += 1;
        }
    }
    mob
}

/// Whether the squares strictly between `lo` and `hi` on their column are
/// empty.
pub open spec fn clear_between(p: &Position, lo: int, hi: int) -> bool {
    forall|k: int| 1 <= k && lo + 9 * k < hi ==> #[trigger] p.piece(lo + 9 * k) == 0
}

/// Whether `ca` and `king` share a column with nothing between them.
pub open spec fn hollow_spec(p: &Position, ca: int, king: int) -> bool {
    ca % 9 == king % 9 && clear_between(p, if ca < king { ca } else { king }, if ca < king { king } else { ca })
}

fn hollow_cannon(p: &Position, ca: Pos, king: Pos) -> (r: bool)
    requires
        ca < 90,
        king < 90,
    ensures
        r == hollow_spec(p, ca as int, king as int),
{
    if ca % 9 != king % 9 {
        return false;
    }
    let lo = if ca < king { ca } else { king };
    let hi = if ca < king { king } else { ca };
    let mut pos = lo + 9;
    let ghost mut n: int = 1;
    while pos < hi
        invariant
            lo < 90,
            hi < 90,
            n >= 1,
            pos == lo + 9 * n,
            lo == (if ca < king { ca } else { king }),
            hi == (if ca < king { king } else { ca }),
            forall|k: int| 1 <= k && lo + 9 * k < pos ==> #[trigger] p.piece(lo + 9 * k) == 0,
        decreases 100 - pos,
    {
        if p.get_piece(pos) != 0 {
            assert(p.piece(lo + 9 * n) != 0);
            return false;
        }
        pos += 9;
        proof {
            n = n + 1;
        }
    }
    true
}

} // verus!

verus! {

/// What one side's pieces amount to.
pub struct SideInfo {
    pub advisors: usize,
    pub bishops: usize,
    pub knights: usize,
    pub rooks: usize,
    pub cannons: usize,
    pub pawns: usize,
    pub over_river: usize,
    pub mobility: i32,
    pub open_file: i32,
    pub threat: i32,
    pub pawn_files: u32,
    pub king: Pos,
    pub cannon_sq: [Pos; 2],
}

impl Default for SideInfo {
    fn default() -> (s: SideInfo)
        ensures
            s.advisors == 0 && s.bishops == 0 && s.knights == 0 && s.rooks == 0 && s.cannons == 0
                && s.pawns == 0 && s.over_river == 0,
            s.mobility == 0 && s.open_file == 0 && s.threat == 0 && s.pawn_files == 0,
            s.king == INVALID_POS,
            s.cannon_sq@ == seq![INVALID_POS, INVALID_POS],
    {
        SideInfo {
            advisors: 0,
            bishops: 0,
            knights: 0,
            rooks: 0,
            cannons: 0,
            pawns: 0,
            over_river: 0,
            mobility: 0,
            open_file: 0,
            threat: 0,
            pawn_files: 0,
            king: INVALID_POS,
            cannon_sq: [INVALID_POS; 2],
        }
    }
}

/// The kind (1 to 7) of the piece on `pos`.
pub open spec fn kind_at(p: &Position, pos: int) -> i8 {
    abs8(p.piece(pos))
}

/// How many of the first `n` squares of `list` hold a piece of kind `kind`.
pub open spec fn count_kind(p: &Position, list: Seq<u8>, n: int, kind: i8) -> int
    decreases n,
{
    if n <= 0 {
        0
    } else {
        count_kind(p, list, n - 1, kind) + (if kind_at(p, list[n - 1] as int) == kind { 1int } else { 0 })
    }
}

/// What a piece of kind `kind` across the river adds to `over_river`.
pub open spec fn river_weight(kind: i8) -> int {
    if kind == R_KNIGHT {
        2
    } else if kind == R_ROOK {
        3
    } else if kind == R_CANNON {
        2
    } else if kind == R_PAWN {
        1
    } else {
        0
    }
}

pub open spec fn over_sum(p: &Position, team: Team, list: Seq<u8>, n: int) -> int
    decreases n,
{
    if n <= 0 {
        0
    } else {
        over_sum(p, team, list, n - 1) + (if crossed_spec(team, list[n - 1] as int) {
            river_weight(kind_at(p, list[n - 1] as int))
        } else {
            0
        })
    }
}

/// The files holding pawns among the first `n` squares of `list`, as bits.
pub open spec fn pawn_bits(p: &Position, list: Seq<u8>, n: int) -> u32
    decreases n,
{
    if n <= 0 {
        0
    } else {
        pawn_bits(p, list, n - 1) | (if kind_at(p, list[n - 1] as int) == R_PAWN {
            1u32 << ((list[n - 1] % 9) as u32)
        } else {
            0u32
        })
    }
}

/// The last king square among the first `n` squares of `list`, or `INVALID_POS`.
pub open spec fn last_king(p: &Position, list: Seq<u8>, n: int) -> u8
    decreases n,
{
    if n <= 0 {
        INVALID_POS
    } else if kind_at(p, list[n - 1] as int) == R_KING {
        list[n - 1]
    } else {
        last_king(p, list, n - 1)
    }
}

/// The cannon square kept in slot `j` (0: the first cannon, 1: the last of
/// the others) among the first `n` squares of `list`, or `INVALID_POS`.
pub open spec fn cannon_slot(p: &Position, list: Seq<u8>, n: int, j: int) -> u8
    decreases n,
{
    if n <= 0 {
        INVALID_POS
    } else if kind_at(p, list[n - 1] as int) == R_CANNON && (if count_kind(p, list, n - 1, R_CANNON) < 1 {
        count_kind(p, list, n - 1, R_CANNON)
    } else {
        1
    }) == j {
        list[n - 1]
    } else {
        cannon_slot(p, list, n - 1, j)
    }
}

/// `s` holds what `collect_side` gathers from the first `n` pieces of `list`.
pub open spec fn collected(p: &Position, team: Team, list: Seq<u8>, n: int, s: SideInfo) -> bool {
    &&& s.advisors == count_kind(p, list, n, R_ADVISOR)
    &&& s.bishops == count_kind(p, list, n, R_BISHOP)
    &&& s.knights == count_kind(p, list, n, R_KNIGHT)
    &&& s.rooks == count_kind(p, list, n, R_ROOK)
    &&& s.cannons == count_kind(p, list, n, R_CANNON)
    &&& s.pawns == count_kind(p, list, n, R_PAWN)
    &&& s.over_river == over_sum(p, team, list, n)
    &&& s.mobility == 0
    &&& s.open_file == 0
    &&& s.threat == 0
    &&& s.pawn_files == pawn_bits(p, list, n)
    &&& s.king == last_king(p, list, n)
    &&& s.cannon_sq@ == seq![cannon_slot(p, list, n, 0), cannon_slot(p, list, n, 1)]
}

proof fn lemma_counts_bounded(p: &Position, team: Team, list: Seq<u8>, n: int)
    requires
        0 <= n,
    ensures
        0 <= count_kind(p, list, n, R_ADVISOR) <= n,
        0 <= count_kind(p, list, n, R_BISHOP) <= n,
        0 <= count_kind(p, list, n, R_KNIGHT) <= n,
        0 <= count_kind(p, list, n, R_ROOK) <= n,
        0 <= count_kind(p, list, n, R_CANNON) <= n,
        0 <= count_kind(p, list, n, R_PAWN) <= n,
        0 <= over_sum(p, team, list, n) <= 3 * n,
    decreases n,
{
    if n > 0 {
        lemma_counts_bounded(p, team, list, n - 1);
    }
}

impl SideInfo {
    /// The tally with its positional fields (mobility, open files, threat)
    /// cleared.
    pub open spec fn counts_only(self) -> SideInfo {
        SideInfo { mobility: 0, open_file: 0, threat: 0, ..self }
    }
}

impl SideInfo {
    /// Counts the pieces of `team`, sums what its pieces across the river
    /// weigh, marks its pawn files, and notes its king and cannons.
    fn collect_side(p: &Position, team: Team) -> (s: SideInfo)
        requires
            p.wf(),
            team == R || team == B,
        ensures
            collected(p, team, p.list_of(team), p.list_of(team).len() as int, s),
    {
        let mut s = SideInfo::default();
        let list = p.list_for(team);
        let mut k: usize = 0;
        while k < list.len()
            invariant
                p.wf(),
                team == R || team == B,
                list@ == p.list_of(team),
                k <= list.len(),
                list.len() <= 90,
                collected(p, team, list@, k as int, s),
            decreases list.len() - k,
        {
            let pos = list[k];
            let ghost files0 = s.pawn_files;
            assert(files0 | 0u32 == files0) by (bit_vector);
            proof {
                lemma_counts_bounded(p, team, list@, k as int);
                assert(pos < 90);
                lemma_piece_times_side(p, pos as int);
            }
            let over = crossed_river(team, pos);
            let id = abs_piece(p.get_piece(pos));
            if id == R_KING {
                s.king = pos;
            } else if id == R_ADVISOR {
                s.advisors += 1;
            } else if id == R_BISHOP {
                s.bishops += 1;
            } else if id == R_KNIGHT {
                s.knights += 1;
                if over {
                    s.over_river += 2;
                }
            } else if id == R_ROOK {
                s.rooks += 1;
                if over {
                    s.over_river += 3;
                }
            } else if id == R_CANNON {
                let slot = if s.cannons < 1 { s.cannons } else { 1 };
                s.cannon_sq[slot] = pos;
                s.cannons += 1;
                if over {
                    s.over_river += 2;
                }
            } else if id == R_PAWN {
                s.pawns += 1;
                s.pawn_files |= 1u32 << ((pos % 9) as u32);
                if over {
                    s.over_river += 1;
                }
            }
            k += 1;
            proof {
                assert(s.cannon_sq@ =~= seq![
                    cannon_slot(p, list@, k as int, 0),
                    cannon_slot(p, list@, k as int, 1),
                ]);
            }
        }
        s
    }
}

} // verus!

verus! {

/// The other side.
pub open spec fn other(team: Team) -> Team {
    if team == R {
        B
    } else {
        R
    }
}

/// What the piece on `pos` adds to its side's mobility.
pub open spec fn mob_term(p: &Position, team: Team, pos: int) -> int {
    let kind = kind_at(p, pos);
    if kind == R_KNIGHT {
        MOB_KNIGHT * knight_mob_spec(p, team, pos)
    } else if kind == R_ROOK {
        MOB_ROOK * rook_mob_spec(p, team, pos)
    } else if kind == R_CANNON {
        MOB_CANNON * cannon_mob_spec(p, team, pos)
    } else {
        0
    }
}

/// Whether the file of `pos` has no bit in `files`.
pub open spec fn file_free(files: u32, pos: int) -> bool {
    files & (1u32 << ((pos % 9) as u32)) == 0
}

/// What a rook on `pos` adds for standing on a file without own pawns
/// (`files`), and more without enemy pawns (`ofiles`).
pub open spec fn open_term(p: &Position, pos: int, files: u32, ofiles: u32) -> int {
    if kind_at(p, pos) == R_ROOK && file_free(files, pos) {
        10 + (if file_free(ofiles, pos) { 8int } else { 0 })
    } else {
        0
    }
}

/// The penalty for the piece on `pos` when the other side attacks it and
/// its own side does not defend it (kings excepted).
pub open spec fn threat_term(p: &Position, team: Team, pos: int) -> int {
    let kind = kind_at(p, pos);
    if kind != R_KING && attacks_spec(p, other(team), pos) && !attacks_spec(p, team, pos) {
        HANG_PEN[kind as int] as int
    } else {
        0
    }
}

pub open spec fn mob_sum(p: &Position, team: Team, list: Seq<u8>, n: int) -> int
    decreases n,
{
    if n <= 0 {
        0
    } else {
        mob_sum(p, team, list, n - 1) + mob_term(p, team, list[n - 1] as int)
    }
}

pub open spec fn open_sum(p: &Position, list: Seq<u8>, n: int, files: u32, ofiles: u32) -> int
    decreases n,
{
    if n <= 0 {
        0
    } else {
        open_sum(p, list, n - 1, files, ofiles) + open_term(p, list[n - 1] as int, files, ofiles)
    }
}

pub open spec fn threat_sum(p: &Position, team: Team, list: Seq<u8>, n: int) -> int
    decreases n,
{
    if n <= 0 {
        0
    } else {
        threat_sum(p, team, list, n - 1) + threat_term(p, team, list[n - 1] as int)
    }
}

impl SideInfo {
    /// Adds up, over the pieces of `team`, the mobility of knights, rooks
    /// and cannons, the open-file bonus of rooks (against the pawn files of
    /// `opp`) and the penalty of hanging pieces.
    fn collect_positional(&mut self, p: &Position, team: Team, opp: &SideInfo)
        requires
            p.wf(),
            team == R || team == B,
            -1_000_000 <= old(self).mobility <= 1_000_000,
            -1_000_000 <= old(self).open_file <= 1_000_000,
            -1_000_000 <= old(self).threat <= 1_000_000,
        ensures
            ({
                let list = p.list_of(team);
                let n = list.len() as int;
                *final(self) == SideInfo {
                    mobility: (old(self).mobility + mob_sum(p, team, list, n)) as i32,
                    open_file: (old(self).open_file + open_sum(p, list, n, old(self).pawn_files, opp.pawn_files)) as i32,
                    threat: (old(self).threat + threat_sum(p, team, list, n)) as i32,
                    ..*old(self)
                }
            }),
            -40000 <= mob_sum(p, team, p.list_of(team), p.list_of(team).len() as int) <= 40000,
            0 <= open_sum(p, p.list_of(team), p.list_of(team).len() as int, old(self).pawn_files, opp.pawn_files)
                <= 2000,
            0 <= threat_sum(p, team, p.list_of(team), p.list_of(team).len() as int) <= 10000,
    {
        let list = p.list_for(team);
        let ghost s0 = *self;
        let mut k: usize = 0;
        while k < list.len()
            invariant
                p.wf(),
                team == R || team == B,
                list@ == p.list_of(team),
                k <= list.len(),
                list.len() <= 90,
                self.mobility == s0.mobility + mob_sum(p, team, list@, k as int),
                self.open_file == s0.open_file + open_sum(p, list@, k as int, s0.pawn_files, opp.pawn_files),
                self.threat == s0.threat + threat_sum(p, team, list@, k as int),
                -420 * k <= mob_sum(p, team, list@, k as int) <= 420 * k,
                0 <= open_sum(p, list@, k as int, s0.pawn_files, opp.pawn_files) <= 18 * k,
                0 <= threat_sum(p, team, list@, k as int) <= 110 * k,
                -1_000_000 <= s0.mobility <= 1_000_000,
                -1_000_000 <= s0.open_file <= 1_000_000,
                -1_000_000 <= s0.threat <= 1_000_000,
                *self == (SideInfo { mobility: self.mobility, open_file: self.open_file, threat: self.threat, ..s0 }),
            decreases list.len() - k,
        {
            let pos = list[k];
            proof {
                assert(pos < 90);
                lemma_piece_times_side(p, pos as int);
                assert(owned(p.board()[pos as int], team));
            }
            let id = abs_piece(p.get_piece(pos));
            if id == R_KNIGHT {
                let m = knight_mobility(p, team, pos);
                self.mobility += MOB_KNIGHT * m;
            } else if id == R_ROOK {
                let m = rook_mobility(p, team, pos);
                self.mobility += MOB_ROOK * m;
                let bit: u32 = 1u32 << ((pos % 9) as u32);
                if self.pawn_files & bit == 0 {
                    self.open_file += 10;
                    if opp.pawn_files & bit == 0 {
                        self.open_file += 8;
                    }
                }
            } else if id == R_CANNON {
                let m = cannon_mobility(p, team, pos);
                self.mobility += MOB_CANNON * m;
            }
            if id != R_KING && attacks_sq(p, -team, pos) && !attacks_sq(p, team, pos) {
                self.threat += HANG_PEN[id as usize];
            }
            k += 1;
        }
    }
}

} // verus!

verus! {

/// 15 for a full guard (two advisors and two bishops).
pub open spec fn guard_bonus(adv: int, bis: int) -> int {
    if adv == 2 && bis == 2 { 15 } else { 0 }
}

/// Rooks against a guard without advisors (two rooks: 30) or with one
/// (one rook: 10).
pub open spec fn rook_bonus(o_adv: int, rooks: int) -> int {
    if o_adv == 0 && rooks >= 2 {
        30
    } else if o_adv <= 1 && rooks >= 1 {
        10
    } else {
        0
    }
}

/// Cannons against a side without bishops (20) or with one (8).
pub open spec fn cannon_bonus(o_bis: int, cannons: int) -> int {
    if o_bis == 0 && cannons >= 1 {
        20
    } else if o_bis <= 1 && cannons >= 1 {
        8
    } else {
        0
    }
}

/// 50 when an own knight stands on the own palace heart.
pub open spec fn heart_penalty(p: &Position, team: Team) -> int {
    let heart: int = if team == R { 76 } else { 13 };
    if p.piece(heart) * team == R_KNIGHT { 50 } else { 0 }
}

/// `20 + 8 * m` when a cannon (`c0` or `c1`) faces the enemy king on an
/// empty column.
pub open spec fn facing_bonus(p: &Position, c0: int, c1: int, o_king: int, m: int) -> int {
    if (c0 < 90 && o_king < 90 && hollow_spec(p, c0, o_king)) || (c1 < 90 && o_king < 90 && hollow_spec(
        p,
        c1,
        o_king,
    )) {
        20 + m * 8
    } else {
        0
    }
}

/// Five per point of river weight ahead of the other side, at most 24.
pub open spec fn river_bonus(over: int, o_over: int) -> int {
    if over > o_over {
        if 5 * (over - o_over) < 24 { 5 * (over - o_over) } else { 24 }
    } else {
        0
    }
}

/// The shape bonus of a side from its counts (`adv` advisors, `bis`
/// bishops, `rooks`, `knights`, `cannons`, `over` across the river, cannon
/// squares `c0` and `c1`) and those of the other side (`o_adv`, `o_bis`,
/// `o_over`, king square `o_king`).
pub open spec fn shape_formula(
    p: &Position,
    team: Team,
    adv: int,
    bis: int,
    rooks: int,
    knights: int,
    cannons: int,
    over: int,
    c0: int,
    c1: int,
    o_adv: int,
    o_bis: int,
    o_over: int,
    o_king: int,
) -> int {
    guard_bonus(adv, bis) + rook_bonus(o_adv, rooks) + cannon_bonus(o_bis, cannons) - heart_penalty(p, team)
        + facing_bonus(p, c0, c1, o_king, rooks + knights + cannons) + river_bonus(over, o_over)
}

/// The shape bonus computed from two tallies.
pub open spec fn shape_spec(s: SideInfo, o: SideInfo, p: &Position, team: Team) -> int {
    shape_formula(
        p,
        team,
        s.advisors as int,
        s.bishops as int,
        s.rooks as int,
        s.knights as int,
        s.cannons as int,
        s.over_river as int,
        s.cannon_sq@[0] as int,
        s.cannon_sq@[1] as int,
        o.advisors as int,
        o.bishops as int,
        o.over_river as int,
        o.king as int,
    )
}

/// The bonus of a cannon (`c0` or `c1`) facing the king on `king` on an
/// empty column, for `m` attacking pieces.
fn facing(p: &Position, c0: Pos, c1: Pos, king: Pos, m: i32) -> (r: i32)
    requires
        0 <= m <= 270,
    ensures
        r == facing_bonus(p, c0 as int, c1 as int, king as int, m as int),
{
    if (c0 < 90 && king < 90 && hollow_cannon(p, c0, king)) || (c1 < 90 && king < 90 && hollow_cannon(
        p,
        c1,
        king,
    )) {
        20 + m * 8
    } else {
        0
    }
}

impl SideInfo {
    fn shape_bonus(&self, opp: &SideInfo, p: &Position, team: Team) -> (vl: i32)
        requires
            p.wf(),
            team == R || team == B,
            self.rooks <= 90 && self.knights <= 90 && self.cannons <= 90,
            self.over_river <= 1000,
            opp.over_river <= 1000,
        ensures
            vl == shape_spec(*self, *opp, p, team),
            -50 <= vl <= 2500,
    {
        let g: i32 = if self.advisors == 2 && self.bishops == 2 { 15 } else { 0 };
        let rk: i32 = if opp.advisors == 0 && self.rooks >= 2 {
            30
        } else if opp.advisors <= 1 && self.rooks >= 1 {
            10
        } else {
            0
        };
        let cn: i32 = if opp.bishops == 0 && self.cannons >= 1 {
            20
        } else if opp.bishops <= 1 && self.cannons >= 1 {
            8
        } else {
            0
        };
        let heart: Pos = if team == R { 76 } else { 13 };
        let hp: i32 = if side_piece(p, heart, team) == R_KNIGHT { 50 } else { 0 };
        let m = (self.rooks + self.knights + self.cannons) as i32;
        let fc = facing(p, self.cannon_sq[0], self.cannon_sq[1], opp.king, m);
        let rv: i32 = if self.over_river > opp.over_river {
            let d = 5 * (self.over_river as i32 - opp.over_river as i32);
            if d < 24 { d } else { 24 }
        } else {
            0
        };
        g + rk + cn - hp + fc + rv
    }
}

} // verus!

verus! {

/// The shape bonus of `team` from its pieces and those of the other side.
pub open spec fn tally_shape(p: &Position, team: Team) -> int {
    let l = p.list_of(team);
    let n = l.len() as int;
    let o = p.list_of(other(team));
    let m = o.len() as int;
    shape_formula(
        p,
        team,
        count_kind(p, l, n, R_ADVISOR),
        count_kind(p, l, n, R_BISHOP),
        count_kind(p, l, n, R_ROOK),
        count_kind(p, l, n, R_KNIGHT),
        count_kind(p, l, n, R_CANNON),
        over_sum(p, team, l, n),
        cannon_slot(p, l, n, 0) as int,
        cannon_slot(p, l, n, 1) as int,
        count_kind(p, o, m, R_ADVISOR),
        count_kind(p, o, m, R_BISHOP),
        over_sum(p, other(team), o, m),
        last_king(p, o, m) as int,
    )
}

/// The positional terms of `team`: mobility, open files, minus hanging
/// pieces, plus the shape bonus.
pub open spec fn positional(p: &Position, team: Team) -> int {
    let l = p.list_of(team);
    let n = l.len() as int;
    let o = p.list_of(other(team));
    let m = o.len() as int;
    mob_sum(p, team, l, n) + open_sum(p, l, n, pawn_bits(p, l, n), pawn_bits(p, o, m)) - threat_sum(
        p,
        team,
        l,
        n,
    ) + tally_shape(p, team)
}

/// Red's score: the incremental material and square values, red's
/// positional terms minus black's, and the tempo of the side to move.
pub open spec fn eval_total(p: &Position) -> int {
    p.eval_score() + positional(p, R) - positional(p, B) + (if p.side() == R {
        TEMPO as int
    } else {
        -TEMPO
    })
}

/// Tallies whose counting fields are those gathered from the pieces of
/// `team` and of the other side give the shape bonus of `team`.
proof fn lemma_shape_matches(p: &Position, team: Team, s: SideInfo, o: SideInfo)
    requires
        team == R || team == B,
        collected(p, team, p.list_of(team), p.list_of(team).len() as int, s.counts_only()),
        collected(p, other(team), p.list_of(other(team)), p.list_of(other(team)).len() as int, o.counts_only()),
    ensures
        shape_spec(s, o, p, team) == tally_shape(p, team),
{
}

/// The static score of `p` for the side to move (red's score times the
/// side), cut to 16 bits.
#[verifier::spinoff_prover]
#[verifier::rlimit(80)]
pub fn evaluate(p: &Position) -> (r: VL)
    requires
        p.wf(),
    ensures
        r == (eval_total(p) * p.side()) as i16,
{
    let ghost lr = p.list_of(R);
    let ghost lb = p.list_of(B);
    let mut red = SideInfo::collect_side(p, R);
    let mut black = SideInfo::collect_side(p, B);
    proof {
        lemma_counts_bounded(p, R, lr, lr.len() as int);
        lemma_counts_bounded(p, B, lb, lb.len() as int);
    }
    let ghost red0 = red;
    let ghost black0 = black;
    red.collect_positional(p, R, &black);
    black.collect_positional(p, B, &red);
    proof {
        assert(red.counts_only() == red0);
        assert(black.counts_only() == black0);
        lemma_shape_matches(p, R, red, black);
        lemma_shape_matches(p, B, black, red);
    }
    let sr = red.shape_bonus(&black, p, R);
    let sb = black.shape_bonus(&red, p, B);
    let ghost pr = positional(p, R);
    let ghost pb = positional(p, B);
    assert(red.mobility + red.open_file - red.threat + sr == pr);
    assert(black.mobility + black.open_file - black.threat + sb == pb);
    let mut vl: i32 = p.eval_value() as i32;
    vl += red.mobility - black.mobility;
    vl += red.open_file - black.open_file;
    vl -= red.threat - black.threat;
    vl += sr - sb;
    vl += if p.side_to_move() == R {
        TEMPO as i32
    } else {
        -TEMPO as i32
    };
    assert(vl == eval_total(p));
    (vl * p.side_to_move() as i32) as VL
}

proof fn lemma_square_same(p: &Position, q: &Position, team: Team, x: int)
    requires
        p.same_setup(q),
    ensures
        kind_at(p, x) == kind_at(q, x),
        mob_term(p, team, x) == mob_term(q, team, x),
        threat_term(p, team, x) == threat_term(q, team, x),
        forall|files: u32, ofiles: u32| #[trigger] open_term(p, x, files, ofiles) == open_term(q, x, files, ofiles),
{
    assert(attacks_spec(p, team, x) == attacks_spec(q, team, x));
    assert(attacks_spec(p, other(team), x) == attacks_spec(q, other(team), x));
    assert(knight_mob_spec(p, team, x) == knight_mob_spec(q, team, x));
    assert(rook_mob_spec(p, team, x) == rook_mob_spec(q, team, x));
    assert(cannon_mob_spec(p, team, x) == cannon_mob_spec(q, team, x));
}

proof fn lemma_sums_same(p: &Position, q: &Position, team: Team, l: Seq<u8>, k: int, files: u32, ofiles: u32)
    requires
        p.same_setup(q),
    ensures
        mob_sum(p, team, l, k) == mob_sum(q, team, l, k),
        open_sum(p, l, k, files, ofiles) == open_sum(q, l, k, files, ofiles),
        threat_sum(p, team, l, k) == threat_sum(q, team, l, k),
        over_sum(p, team, l, k) == over_sum(q, team, l, k),
        pawn_bits(p, l, k) == pawn_bits(q, l, k),
        last_king(p, l, k) == last_king(q, l, k),
        forall|kind: i8| #[trigger] count_kind(p, l, k, kind) == count_kind(q, l, k, kind),
        cannon_slot(p, l, k, 0) == cannon_slot(q, l, k, 0),
        cannon_slot(p, l, k, 1) == cannon_slot(q, l, k, 1),
    decreases k,
{
    if k > 0 {
        lemma_sums_same(p, q, team, l, k - 1, files, ofiles);
        lemma_square_same(p, q, team, l[k - 1] as int);
        assert(open_term(p, l[k - 1] as int, files, ofiles) == open_term(q, l[k - 1] as int, files, ofiles));
        assert(count_kind(p, l, k - 1, R_CANNON) == count_kind(q, l, k - 1, R_CANNON));
        assert forall|kind: i8| #[trigger] count_kind(p, l, k, kind) == count_kind(q, l, k, kind) by {
            assert(count_kind(p, l, k - 1, kind) == count_kind(q, l, k - 1, kind));
        }
    }
}

proof fn lemma_hollow_same(p: &Position, q: &Position, c: int, k: int)
    requires
        p.board() == q.board(),
    ensures
        hollow_spec(p, c, k) == hollow_spec(q, c, k),
{
    let lo = if c < k { c } else { k };
    let hi = if c < k { k } else { c };
    assert forall|j: int| #[trigger] p.piece(j) == q.piece(j) by {}
    if clear_between(p, lo, hi) {
        assert forall|j: int| 1 <= j && lo + 9 * j < hi implies #[trigger] q.piece(lo + 9 * j) == 0 by {
            assert(p.piece(lo + 9 * j) == 0);
        }
    }
    if clear_between(q, lo, hi) {
        assert forall|j: int| 1 <= j && lo + 9 * j < hi implies #[trigger] p.piece(lo + 9 * j) == 0 by {
            assert(q.piece(lo + 9 * j) == 0);
        }
    }
}

proof fn lemma_shape_same(p: &Position, q: &Position, team: Team)
    requires
        p.same_setup(q),
        team == R || team == B,
    ensures
        tally_shape(p, team) == tally_shape(q, team),
{
    let l = p.list_of(team);
    let n = l.len() as int;
    let o = p.list_of(other(team));
    let m = o.len() as int;
    lemma_sums_same(p, q, team, l, n, 0, 0);
    lemma_sums_same(p, q, other(team), o, m, 0, 0);
    let c0 = cannon_slot(p, l, n, 0) as int;
    let c1 = cannon_slot(p, l, n, 1) as int;
    let k = last_king(p, o, m) as int;
    lemma_hollow_same(p, q, c0, k);
    lemma_hollow_same(p, q, c1, k);
    assert(count_kind(p, l, n, R_ADVISOR) == count_kind(q, l, n, R_ADVISOR));
    assert(count_kind(p, l, n, R_BISHOP) == count_kind(q, l, n, R_BISHOP));
    assert(count_kind(p, l, n, R_ROOK) == count_kind(q, l, n, R_ROOK));
    assert(count_kind(p, l, n, R_KNIGHT) == count_kind(q, l, n, R_KNIGHT));
    assert(count_kind(p, l, n, R_CANNON) == count_kind(q, l, n, R_CANNON));
    assert(count_kind(p, o, m, R_ADVISOR) == count_kind(q, o, m, R_ADVISOR));
    assert(count_kind(p, o, m, R_BISHOP) == count_kind(q, o, m, R_BISHOP));
    assert(heart_penalty(p, team) == heart_penalty(q, team));
}

proof fn lemma_positional_same(p: &Position, q: &Position, team: Team)
    requires
        p.same_setup(q),
        team == R || team == B,
    ensures
        positional(p, team) == positional(q, team),
{
    let l = p.list_of(team);
    let n = l.len() as int;
    let o = p.list_of(other(team));
    let m = o.len() as int;
    lemma_sums_same(p, q, team, l, n, pawn_bits(p, l, n), pawn_bits(p, o, m));
    lemma_sums_same(p, q, other(team), o, m, 0, 0);
    lemma_shape_same(p, q, team);
}

/// Passing the turn changes only the tempo: for two positions with the
/// same board, lists, lines and evaluation and opposite sides to move, red's
/// scores differ by twice the tempo, so the scores for the side to move add
/// up to twice the tempo (16), where neither is cut to 16 bits.
pub proof fn lemma_evaluate_sides(p: &Position, q: &Position)
    requires
        p.wf(),
        q.wf(),
        p.same_setup(q),
        q.side() == -p.side(),
    ensures
        eval_total(p) * p.side() + eval_total(q) * q.side() == 2 * TEMPO,
        -32768 <= eval_total(p) * p.side() <= 32767 && -32768 <= eval_total(q) * q.side() <= 32767 ==> (
        eval_total(p) * p.side()) as i16 + (eval_total(q) * q.side()) as i16 == 2 * TEMPO,
{
    lemma_positional_same(p, q, R);
    lemma_positional_same(p, q, B);
    lemma_times_side(eval_total(p), p.side() as int);
    lemma_times_side(eval_total(q), q.side() as int);
}

/// Whether a knight on `k` reaches `sq` over an empty leg (the square next
/// to the knight towards `sq` along its longer step).  Offsets that go two
/// rows and one column need the column to exist; offsets that go one row
/// and two columns are taken for `sq` on columns 2 to 6, where the file
/// tests of the attack scan and the board agree.
pub open spec fn knight_reach(p: &Position, sq: int, k: int) -> bool {
    let f = sq % 9;
    ||| k == sq - 19 && f >= 1 && p.piece(sq - 10) == 0
    ||| k == sq - 17 && f <= 7 && p.piece(sq - 8) == 0
    ||| k == sq + 17 && f >= 1 && p.piece(sq + 8) == 0
    ||| k == sq + 19 && f <= 7 && p.piece(sq + 10) == 0
    ||| k == sq - 11 && 2 <= f <= 6 && p.piece(sq - 10) == 0
    ||| k == sq + 11 && 2 <= f <= 6 && p.piece(sq + 10) == 0
    ||| k == sq + 7 && 2 <= f <= 6 && p.piece(sq + 8) == 0
    ||| k == sq - 7 && 2 <= f <= 6 && p.piece(sq - 8) == 0
}

/// A knight attacks the squares it reaches: when a knight of side `by`
/// stands on `k` and reaches `sq` over an empty leg, side `by` attacks `sq`.
pub proof fn lemma_knight_attacks(p: &Position, by: Team, sq: int, k: int)
    requires
        0 <= sq < 90,
        0 <= k < 90,
        p.piece(k) * by == R_KNIGHT,
        knight_reach(p, sq, k),
    ensures
        attacks_spec(p, by, sq),
{
}

/// A piece attacked by an enemy knight and not defended is penalised:
/// for a piece of `team` other than its king on `pos`, reached by a knight
/// of the other side over an empty leg, and not attacked by its own side,
/// the hanging-piece term is the penalty of its kind.
pub proof fn lemma_knight_hangs(p: &Position, team: Team, pos: int, k: int)
    requires
        team == R || team == B,
        0 <= pos < 90,
        0 <= k < 90,
        p.piece(pos) * team > 0,
        kind_at(p, pos) != R_KING,
        p.piece(k) * other(team) == R_KNIGHT,
        knight_reach(p, pos, k),
        !attacks_spec(p, team, pos),
    ensures
        threat_term(p, team, pos) == HANG_PEN[kind_at(p, pos) as int] as int,
{
    lemma_knight_attacks(p, other(team), pos, k);
}

/// Rooks and pawns attack as they move: a rook of side `by` with nothing
/// between it and `sq` on their row or column attacks `sq`; a pawn of side
/// `by` attacks the square ahead of it and, across the river, the squares
/// beside it on its row.
pub proof fn lemma_line_and_pawn_attacks(p: &Position, by: Team, sq: int)
    requires
        p.wf(),
        by == R || by == B,
        0 <= sq < 90,
    ensures
        forall|c: int| p.piece(c) * by == R_ROOK && #[trigger] clear_line(p, c, sq) ==> attacks_spec(p, by, sq),
        p.piece(sq + 9 * by) * by == R_PAWN ==> attacks_spec(p, by, sq),
        crossed_spec(by, sq) && 1 <= sq % 9 && p.piece(sq - 1) * by == R_PAWN ==> attacks_spec(p, by, sq),
        crossed_spec(by, sq) && 1 <= sq % 9 <= 7 && p.piece(sq + 1) * by == R_PAWN ==> attacks_spec(p, by, sq),
{
    assert forall|c: int| p.piece(c) * by == R_ROOK && #[trigger] clear_line(p, c, sq) implies attacks_spec(p, by, sq) by {
        assert(clear_line(p, sq, c)) by {
            assert forall|y: int| crate::position::on_line_between(sq, c, y) implies #[trigger] p.piece(y) == 0 by {
                assert(crate::position::on_line_between(c, sq, y));
            }
        }
        assert(p.piece(c) != 0);
        lemma_rook_point(p, sq, c);
        let pts = rook_points(p, sq);
        let k = choose|k: int| 0 <= k < pts.len() && pts[k] == c as u8;
        assert(pts[k] as int == c);
    }
}

/// Advisors, bishops and kings attack as they move: an advisor of side
/// `by` diagonally next to `sq`, a bishop of side `by` two squares
/// diagonally away with the square between empty, and a king of side `by`
/// next to `sq` on its row or column all make side `by` attack `sq`.
pub proof fn lemma_near_attacks(p: &Position, by: Team, sq: int)
    requires
        0 <= sq < 90,
    ensures
        ({
            let f = sq % 9;
            let adv = (f >= 1 && (p.piece(sq - 10) * by == R_ADVISOR || p.piece(sq + 8) * by == R_ADVISOR)) || (f
                <= 7 && (p.piece(sq - 8) * by == R_ADVISOR || p.piece(sq + 10) * by == R_ADVISOR));
            let bis = (f >= 2 && ((p.piece(sq - 10) == 0 && p.piece(sq - 20) * by == R_BISHOP) || (p.piece(sq + 8)
                == 0 && p.piece(sq + 16) * by == R_BISHOP))) || (f <= 6 && ((p.piece(sq - 8) == 0 && p.piece(sq
                - 16) * by == R_BISHOP) || (p.piece(sq + 10) == 0 && p.piece(sq + 20) * by == R_BISHOP)));
            let king = (f >= 1 && p.piece(sq - 1) * by == R_KING) || (f <= 7 && p.piece(sq + 1) * by == R_KING) || p.piece(
                sq - 9,
            ) * by == R_KING || p.piece(sq + 9) * by == R_KING;
            adv || bis || king ==> attacks_spec(p, by, sq)
        }),
{
    crate::position::lemma_piece_w8(p, sq - 10);
    crate::position::lemma_piece_w8(p, sq - 8);
    crate::position::lemma_piece_w8(p, sq - 20);
    crate::position::lemma_piece_w8(p, sq - 16);
    crate::position::lemma_piece_w8(p, sq - 9);
}

} // verus!
