//! Basic types, constants and the `Move` type.

use vstd::prelude::*;
use vstd::string::*;

verus! {

pub type State = u8;

/// A square index: `row * 9 + column`, row 0 at the top (black's side).
pub type Pos = u8;

/// A piece code: positive for red, negative for black, 0 for empty.
pub type PType = i8;

pub type Pid = u8;

/// The side: `R` (1) or `B` (-1).
pub type Team = i8;

pub type Depth = u8;

pub type VL = i16;

pub type Hash = i64;

pub type PregenData = u8;

pub type HashFlag = i8;

pub type GenType = u8;

pub type SearchRet = (Move, VL);

pub type TrickRet = (bool, VL);

/// A board of 90 squares.
pub type Matrix = [PType; 90];

pub const INVALID_POS: Pos = 100;
pub const EXACT: HashFlag = 0;
pub const ALPHA: HashFlag = 1;
pub const BETA: HashFlag = 2;
pub const R_KING: PType = 1;
pub const R_ADVISOR: PType = 2;
pub const R_BISHOP: PType = 3;
pub const R_KNIGHT: PType = 4;
pub const R_ROOK: PType = 5;
pub const R_CANNON: PType = 6;
pub const R_PAWN: PType = 7;
pub const B_KING: PType = -1;
pub const B_ADVISOR: PType = -2;
pub const B_BISHOP: PType = -3;
pub const B_KNIGHT: PType = -4;
pub const B_ROOK: PType = -5;
pub const B_CANNON: PType = -6;
pub const B_PAWN: PType = -7;
pub const R: Team = 1;
pub const B: Team = -1;
pub const INF: VL = 30000;
pub const BAN: VL = 20000;
pub const INVALID_VL: VL = -31000;
pub const SIDE_KEY: Hash = 7655453740479314502;
pub const Q_MAX_DISTANCE: Depth = 8;
pub const FP_MARGIN: VL = 120;
pub const Q_CHECKING_DEPTH: Depth = 4;
pub const Q_DELTA_MARGIN: VL = 80;
pub const NULL_MOVE_R: Depth = 2;
pub const NULL_MOVE_MIN_DEPTH: Depth = 3;
pub const LMR_MIN_DEPTH: Depth = 3;
pub const LMR_MIN_MOVES: i32 = 3;
pub const LMR_BASE: Depth = 1;
pub const QUIET: GenType = 0;
pub const CAPTURE: GenType = 1;
pub const ALL: GenType = 2;
pub const NODE_PV: bool = false;
pub const NODE_CUT: bool = true;
pub const WEIGHTS: [VL; 8] = [0, 30, 2, 2, 4, 10, 5, 1];

/// A move from square `beg` to square `end`; `beg == end` is the null move.
#[derive(Clone, Copy, PartialEq, Eq, Structural, Debug)]
pub struct Move {
    pub beg: u8,
    pub end: u8,
}

impl Default for Move {
    fn default() -> (m: Move)
        ensures
            m.beg == 0 && m.end == 0,
    {
        Move { beg: 0, end: 0 }
    }
}

/// A move counts as present (true) when it is not the null move.
impl From<Move> for bool {
    fn from(m: Move) -> (b: bool) {
        m.beg != m.end
    }
}

impl vstd::std_specs::convert::FromSpecImpl<Move> for bool {
    open spec fn obeys_from_spec() -> bool {
        true
    }

    open spec fn from_spec(m: Move) -> bool {
        m.beg != m.end
    }
}

/// The square named by a file letter `f` (`a`..`i`) and a rank digit `r`
/// (`0`..`9`, rank 0 at the bottom).
pub open spec fn uci_square(f: u8, r: u8) -> int {
    (9 - (r - 48)) * 9 + (f - 97)
}

pub open spec fn is_file_char(c: u8) -> bool {
    97 <= c <= 105
}

pub open spec fn is_rank_char(c: u8) -> bool {
    48 <= c <= 57
}

/// The move that a four-character text names, or the null move (0, 0)
/// when the text is not one.
pub open spec fn parse_uci_spec(byte_len: nat, cs: Seq<char>) -> (u8, u8) {
    if byte_len != 4 {
        (0, 0)
    } else {
        let f0 = cs[0] as u8;
        let r0 = cs[1] as u8;
        let f1 = cs[2] as u8;
        let r1 = cs[3] as u8;
        if !is_file_char(f0) || !is_rank_char(r0) || !is_file_char(f1) || !is_rank_char(r1) {
            (0, 0)
        } else if uci_square(f0, r0) == uci_square(f1, r1) {
            (0, 0)
        } else {
            (uci_square(f0, r0) as u8, uci_square(f1, r1) as u8)
        }
    }
}

/// The file letter of a square.
pub open spec fn file_char(p: u8) -> char {
    ((p % 9) + 97) as char
}

/// The rank digit of a square (rank 0 at the bottom).
pub open spec fn rank_char(p: u8) -> char {
    (9 - p / 9 + 48) as char
}

/// Appends one character to a string.
#[verifier::external_body]
pub(crate) fn push_char(s: &mut String, c: char)
    ensures
        final(s)@ == old(s)@.push(c),
{
    s.push(c);
}

impl Move {
    pub fn new(beg: u8, end: u8) -> (m: Move)
        ensures
            m.beg == beg && m.end == end,
    {
        Move { beg, end }
    }

    /// Whether this is a move at all (not the null move).
    pub open spec fn present(self) -> bool {
        self.beg != self.end
    }

    /// Parses a move in coordinate notation such as `h2e2`.
    /// Text that does not name two different squares gives the null move (0, 0).
    pub fn from_ucimove(s: &str) -> (m: Move)
        requires
            s.len() == 4 ==> s@.len() >= 4,
        ensures
            (m.beg, m.end) == parse_uci_spec(s.len() as nat, s@),
    {
        if s.len() != 4 {
            return Self::new(0, 0);
        }
        let f0 = #[verifier::truncate] (s.get_char(0) as u8);
        let r0 = #[verifier::truncate] (s.get_char(1) as u8);
        let f1 = #[verifier::truncate] (s.get_char(2) as u8);
        let r1 = #[verifier::truncate] (s.get_char(3) as u8);
        if f0 < 97 || f0 > 105 || r0 < 48 || r0 > 57 || f1 < 97 || f1 > 105 || r1 < 48 || r1 > 57 {
            return Self::new(0, 0);
        }
        let beg = (9 - (r0 - 48)) * 9 + (f0 - 97);
        let end = (9 - (r1 - 48)) * 9 + (f1 - 97);
        if beg == end {
            return Self::new(0, 0);
        }
        Self::new(beg, end)
    }

    /// Writes the move in coordinate notation such as `h2e2`: four ASCII
    /// characters, so four bytes.
    pub fn to_ucimove(&self) -> (s: String)
        requires
            self.beg < 90,
            self.end < 90,
        ensures
            s@ == seq![file_char(self.beg), rank_char(self.beg), file_char(self.end), rank_char(self.end)],
            vstd::utf8::is_ascii_chars(s@),
            vstd::utf8::encode_utf8(s@).len() == 4,
    {
        let f0 = (self.beg % 9 + 97) as char;
        let r0 = (9 - self.beg / 9 + 48) as char;
        let f1 = (self.end % 9 + 97) as char;
        let r1 = (9 - self.end / 9 + 48) as char;
        let mut s = String::new();
        push_char(&mut s, f0);
        push_char(&mut s, r0);
        push_char(&mut s, f1);
        push_char(&mut s, r1);
        proof {
            assert(vstd::utf8::is_ascii_chars(s@));
            vstd::utf8::is_ascii_chars_encode_utf8(s@);
        }
        s
    }

    /// The move as a number, `beg * 100 + end`, computed in 8 bits.
    pub fn into_u32(self) -> (n: u32)
        requires
            self.beg * 100 + self.end <= 255,
        ensures
            n == self.beg * 100 + self.end,
    {
        (self.beg * 100 + self.end) as u32
    }
}

/// Writing a move in coordinate notation and reading it back gives the move:
/// for two different squares on the board, the text of `to_ucimove` is four
/// bytes long and parses back, by `from_ucimove`, to the same two squares.
pub proof fn lemma_uci_round_trip(beg: u8, end: u8)
    requires
        beg < 90,
        end < 90,
        beg != end,
    ensures
        vstd::utf8::encode_utf8(seq![file_char(beg), rank_char(beg), file_char(end), rank_char(end)]).len() == 4,
        parse_uci_spec(4, seq![file_char(beg), rank_char(beg), file_char(end), rank_char(end)]) == (beg, end),
{
    let cs = seq![file_char(beg), rank_char(beg), file_char(end), rank_char(end)];
    assert(vstd::utf8::is_ascii_chars(cs));
    vstd::utf8::is_ascii_chars_encode_utf8(cs);
    assert(cs[0] as u8 == beg % 9 + 97);
    assert(cs[1] as u8 == 9 - beg / 9 + 48);
    assert(cs[2] as u8 == end % 9 + 97);
    assert(cs[3] as u8 == 9 - end / 9 + 48);
    assert(uci_square(cs[0] as u8, cs[1] as u8) == beg);
    assert(uci_square(cs[2] as u8, cs[3] as u8) == end);
}

} // verus!
