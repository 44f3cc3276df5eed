//! Search settings and the test of whether passing a move is allowed.

use vstd::prelude::*;
use crate::common::{Depth, State};
use crate::position::Position;

verus! {

/// The settings and state of a search: pending stop requests, the deepest
/// iteration, the time budget in milliseconds, the distance from the root
/// and whether output follows the UCI protocol.
pub struct Search {
    pub stop: State,
    pub max_depth: Depth,
    pub duration: u32,
    pub distance: Depth,
    pub uci: bool,
}

impl Default for Search {
    fn default() -> (s: Search)
        ensures
            s.stop == 0,
            s.max_depth == 20,
            s.duration == 1000,
            s.distance == 0,
            !s.uci,
    {
        Search { stop: 0, max_depth: 20, duration: 1000, distance: 0, uci: false }
    }
}

/// Whether the side to move may pass: it has a piece.
pub fn null_ok(p: &Position) -> (r: bool)
    requires
        p.wf(),
    ensures
        r == (p.list_of(p.side()).len() > 0),
{
    p.get_pos_list().len() > 0
}

} // verus!
