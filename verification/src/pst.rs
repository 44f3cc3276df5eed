//! Piece-square tables.

use vstd::prelude::*;
use crate::common::{Team, PType, Pos, VL, R, R_ADVISOR, R_BISHOP, R_PAWN, R_KNIGHT, R_ROOK, R_CANNON};

verus! {

pub const PST_ADVISOR: [VL; 90] = [
    0, 0, 0, 0, 0, 0, 0, 0, 0, 0, 0, 0, 0, 0, 0, 0, 0, 0, 0, 0, 0, 0, 0, 0, 0, 0, 0, 0, 0, 0, 0, 0,
    0, 0, 0, 0, 0, 0, 0, 0, 0, 0, 0, 0, 0, 0, 0, 0, 0, 0, 0, 0, 0, 0, 0, 0, 0, 0, 0, 0, 0, 0, 0, 0,
    0, 0, 120, 0, 120, 0, 0, 0, 0, 0, 0, 0, 125, 0, 0, 0, 0, 0, 0, 0, 120, 0, 120, 0, 0, 0,
];
pub const PST_BISHOP: [VL; 90] = [
    0, 0, 0, 0, 0, 0, 0, 0, 0, 0, 0, 0, 0, 0, 0, 0, 0, 0, 0, 0, 0, 0, 0, 0, 0, 0, 0, 0, 0, 0, 0, 0,
    0, 0, 0, 0, 0, 0, 0, 0, 0, 0, 0, 0, 0, 0, 0, 110, 0, 0, 0, 110, 0, 0, 0, 0, 0, 0, 0, 0, 0, 0,
    0, 125, 0, 0, 0, 130, 0, 0, 0, 125, 0, 0, 0, 0, 0, 0, 0, 0, 0, 0, 0, 120, 0, 0, 0, 120, 0, 0,
];
pub const PST_PAWN: [VL; 90] = [
    70, 70, 80, 120, 150, 120, 80, 70, 70, 80, 80, 90, 130, 160, 130, 90, 80, 80, 70, 75, 85, 120,
    150, 120, 85, 75, 70, 60, 65, 75, 90, 100, 90, 75, 65, 60, 55, 60, 70, 80, 90, 80, 70, 60, 55,
    35, 35, 40, 45, 50, 45, 40, 35, 35, 30, 30, 35, 40, 45, 40, 35, 30, 30, 0, 0, 0, 0, 0, 0, 0, 0,
    0, 0, 0, 0, 0, 0, 0, 0, 0, 0, 0, 0, 0, 0, 0, 0, 0, 0, 0,
];
pub const PST_KNIGHT: [VL; 90] = [
    250, 255, 260, 265, 260, 265, 260, 255, 250, 255, 265, 275, 280, 275, 280, 275, 265, 255, 260,
    275, 285, 290, 285, 290, 285, 275, 260, 265, 280, 295, 300, 295, 300, 295, 280, 265, 265, 285,
    300, 305, 300, 305, 300, 285, 265, 260, 285, 295, 305, 300, 305, 295, 285, 260, 255, 280, 290,
    300, 295, 300, 290, 280, 255, 250, 270, 285, 290, 285, 290, 285, 270, 250, 245, 265, 275, 285,
    275, 285, 275, 265, 245, 240, 260, 270, 280, 270, 280, 270, 260, 240,
];
pub const PST_ROOK: [VL; 90] = [
    610, 620, 620, 630, 640, 630, 620, 620, 610, 615, 625, 625, 635, 645, 635, 625, 625, 615, 610,
    620, 620, 630, 640, 630, 620, 620, 610, 615, 625, 625, 635, 645, 635, 625, 625, 615, 605, 615,
    615, 625, 635, 625, 615, 615, 605, 600, 610, 610, 620, 630, 620, 610, 610, 600, 600, 610, 610,
    620, 630, 620, 610, 610, 600, 595, 605, 605, 615, 625, 615, 605, 605, 595, 595, 605, 605, 615,
    620, 615, 605, 605, 595, 590, 600, 600, 610, 615, 610, 600, 600, 590,
];
pub const PST_CANNON: [VL; 90] = [
    300, 300, 305, 310, 315, 310, 305, 300, 300, 300, 300, 305, 310, 315, 310, 305, 300, 300, 295,
    295, 300, 305, 315, 305, 300, 295, 295, 295, 295, 300, 305, 310, 305, 300, 295, 295, 290, 290,
    295, 300, 310, 300, 295, 290, 290, 290, 290, 295, 300, 310, 300, 295, 290, 290, 290, 295, 295,
    300, 310, 300, 295, 295, 290, 290, 295, 295, 300, 315, 300, 295, 295, 290, 285, 290, 290, 295,
    300, 295, 290, 290, 285, 285, 290, 290, 295, 295, 295, 290, 290, 285,
];
/// The piece-square value of a piece of kind `abs_type` (2 to 7) for side
/// `team` on square `pos`, read from black's side mirrored for black; 0 for
/// any other kind.
pub open spec fn pst_spec(team: Team, abs_type: PType, pos: Pos) -> VL {
    let sq: int = if team == R { pos as int } else { 89 - pos };
    if abs_type == R_ADVISOR {
        PST_ADVISOR@[sq]
    } else if abs_type == R_BISHOP {
        PST_BISHOP@[sq]
    } else if abs_type == R_PAWN {
        PST_PAWN@[sq]
    } else if abs_type == R_KNIGHT {
        PST_KNIGHT@[sq]
    } else if abs_type == R_ROOK {
        PST_ROOK@[sq]
    } else if abs_type == R_CANNON {
        PST_CANNON@[sq]
    } else {
        0
    }
}

/// The piece-square value of a piece of kind `abs_type` for `team` on `pos`.
pub fn pst(team: Team, abs_type: PType, pos: Pos) -> (v: VL)
    requires
        team != R ==> pos <= 89,
        team == R && R_ADVISOR <= abs_type <= R_PAWN ==> pos < 90,
    ensures
        v == pst_spec(team, abs_type, pos),
{
    let sq = if team == R { pos } else { 89 - pos };
    match abs_type {
        R_ADVISOR => PST_ADVISOR[sq as usize],
        R_BISHOP => PST_BISHOP[sq as usize],
        R_PAWN => PST_PAWN[sq as usize],
        R_KNIGHT => PST_KNIGHT[sq as usize],
        R_ROOK => PST_ROOK[sq as usize],
        R_CANNON => PST_CANNON[sq as usize],
        _ => 0,
    }
}

/// Every table value lies between 0 and 645.
pub proof fn lemma_pst_bounded(team: Team, abs_type: PType, pos: Pos)
    requires
        pos < 90,
    ensures
        0 <= pst_spec(team, abs_type, pos) <= 645,
{
    let sq: int = if team == R { pos as int } else { 89 - pos };
    assert(0 <= sq < 90);
    assert(forall|i: int| 0 <= i < 90 ==> 0 <= #[trigger] PST_ADVISOR@[i] <= 645);
    assert(forall|i: int| 0 <= i < 90 ==> 0 <= #[trigger] PST_BISHOP@[i] <= 645);
    assert(forall|i: int| 0 <= i < 90 ==> 0 <= #[trigger] PST_PAWN@[i] <= 645);
    assert(forall|i: int| 0 <= i < 90 ==> 0 <= #[trigger] PST_KNIGHT@[i] <= 645);
    assert(forall|i: int| 0 <= i < 90 ==> 0 <= #[trigger] PST_ROOK@[i] <= 645);
    assert(forall|i: int| 0 <= i < 90 ==> 0 <= #[trigger] PST_CANNON@[i] <= 645);
}

} // verus!
