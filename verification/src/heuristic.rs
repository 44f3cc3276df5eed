//! Move-ordering tables: the history table, the killer table and the
//! transposition table.

use vstd::prelude::*;
use crate::common::{Move, Team, Depth, VL, HashFlag, R, B, EXACT, ALPHA, BETA, INVALID_VL};

verus! {

broadcast use vstd::seq_lib::group_to_multiset_ensures;

/// History scores of moves, one table per side, indexed by `beg * 90 + end`.
pub struct HistoryTable {
    table_r: Vec<u32>,
    table_b: Vec<u32>,
}

/// The history score of move `m` in table `t`.
pub open spec fn hscore(t: Seq<u32>, m: Move) -> u32 {
    t[m.beg * 90 + m.end]
}

/// Whether `a` comes strictly before `b` when sorting by history: higher
/// score first, then lower start square, then lower end square.
pub open spec fn hist_before(t: Seq<u32>, a: Move, b: Move) -> bool {
    hscore(t, a) > hscore(t, b) || (hscore(t, a) == hscore(t, b) && (a.beg < b.beg || (a.beg == b.beg
        && a.end < b.end)))
}

/// Whether `s` is in history order.
pub open spec fn hist_sorted(t: Seq<u32>, s: Seq<Move>) -> bool {
    forall|i: int, j: int| 0 <= i < j < s.len() ==> !hist_before(t, #[trigger] s[j], #[trigger] s[i])
}

/// Whether every move of `s` has both squares on the board.
pub open spec fn moves_on_board(s: Seq<Move>) -> bool {
    forall|i: int| 0 <= i < s.len() ==> #[trigger] s[i].beg < 90 && s[i].end < 90
}

impl HistoryTable {
    /// The table of side `team` (red for `R`, black otherwise).
    pub closed spec fn table(&self, team: Team) -> Seq<u32> {
        if team == R {
            self.table_r@
        } else {
            self.table_b@
        }
    }

    pub open spec fn wf(&self) -> bool {
        self.table(R).len() == 8100 && self.table(B).len() == 8100
    }

    /// An all-zero history table.
    pub fn new() -> (h: HistoryTable)
        ensures
            h.wf(),
            forall|i: int| 0 <= i < 8100 ==> #[trigger] h.table(R)[i] == 0,
            forall|i: int| 0 <= i < 8100 ==> #[trigger] h.table(B)[i] == 0,
    {
        HistoryTable { table_r: vec![0u32; 8100], table_b: vec![0u32; 8100] }
    }

    /// Adds `depth * depth` (computed in 8 bits) to the score of `mv` for `team`.
    pub fn set(&mut self, mv: Move, team: Team, depth: Depth)
        requires
            old(self).wf(),
            mv.beg < 90,
            mv.end < 90,
            depth * depth <= 255,
            hscore(old(self).table(team), mv) + depth * depth <= u32::MAX,
        ensures
            final(self).wf(),
            final(self).table(team) == old(self).table(team).update(
                mv.beg * 90 + mv.end,
                (hscore(old(self).table(team), mv) + depth * depth) as u32,
            ),
            team != R ==> final(self).table(R) == old(self).table(R),
            team == R ==> final(self).table(B) == old(self).table(B),
    {
        let beg = mv.beg as usize;
        let end = mv.end as usize;
        let i = beg * 90 + end;
        if team == R {
            let v = self.table_r[i] + (depth * depth) as u32;
            self.table_r.set(i, v);
        } else {
            let v = self.table_b[i] + (depth * depth) as u32;
            self.table_b.set(i, v);
        }
    }
}

proof fn lemma_swap_multiset(s: Seq<Move>, i: int, j: int)
    requires
        0 <= i < s.len(),
        0 <= j < s.len(),
    ensures
        s.update(i, s[j]).update(j, s[i]).to_multiset() == s.to_multiset(),
{
    broadcast use vstd::seq_lib::to_multiset_update;
    broadcast use vstd::multiset::group_multiset_axioms;

    let s1 = s.update(i, s[j]);
    assert(s1[j] == if i == j { s[j] } else { s[j] });
    assert(s1.update(j, s[i]).to_multiset() =~= s.to_multiset());
}

/// Sorts `moves` by the history scores of `team` (see `hist_before`).
pub fn sort_by_history(h: &HistoryTable, moves: &mut Vec<Move>, team: Team)
    requires
        h.wf(),
        old(moves).len() >= 2 ==> moves_on_board(old(moves)@),
    ensures
        final(moves)@.to_multiset() == old(moves)@.to_multiset(),
        hist_sorted(h.table(team), final(moves)@),
{
    let t = if team == R { &h.table_r } else { &h.table_b };
    assert(t@ == h.table(team));
    let n = moves.len();
    if n < 2 {
        return;
    }
    let ghost tt = h.table(team);
    let mut i: usize = 1;
    while i < n
        invariant
            1 <= i <= n,
            n == moves.len(),
            t@ == tt,
            tt.len() == 8100,
            moves_on_board(moves@),
            moves@.to_multiset() == old(moves)@.to_multiset(),
            forall|a: int, b: int| 0 <= a < b < i ==> !hist_before(tt, #[trigger] moves@[b], #[trigger] moves@[a]),
        decreases n - i,
    {
        let mut j: usize = i;
        while j > 0
            invariant
                0 <= j <= i < n,
                n == moves.len(),
                t@ == tt,
                tt.len() == 8100,
                moves_on_board(moves@),
                moves@.to_multiset() == old(moves)@.to_multiset(),
                // the prefix before `j` and the part from `j` to `i` are sorted,
                // and the part after `j` comes after everything before `j`
                forall|a: int, b: int| 0 <= a < b < j ==> !hist_before(tt, #[trigger] moves@[b], #[trigger] moves@[a]),
                forall|a: int, b: int| j <= a < b <= i ==> !hist_before(tt, #[trigger] moves@[b], #[trigger] moves@[a]),
                forall|a: int, b: int| 0 <= a < j && j < b <= i ==> !hist_before(tt, #[trigger] moves@[b], #[trigger] moves@[a]),
            ensures
                n == moves.len(),
                moves_on_board(moves@),
                moves@.to_multiset() == old(moves)@.to_multiset(),
                forall|a: int, b: int| 0 <= a < b <= i ==> !hist_before(tt, #[trigger] moves@[b], #[trigger] moves@[a]),
            decreases j,
        {
            let a = moves[j - 1];
            let b = moves[j];
            let ha = t[a.beg as usize * 90 + a.end as usize];
            let hb = t[b.beg as usize * 90 + b.end as usize];
            let b_first = if ha != hb {
                hb > ha
            } else if a.beg != b.beg {
                b.beg < a.beg
            } else {
                b.end < a.end
            };
            if !b_first {
                break;
            }
            proof {
                lemma_swap_multiset(moves@, j - 1, j as int);
            }
            moves.set(j - 1, b);
            moves.set(j, a);
            j -= 1;
        }
        i += 1;
    }
}

/// The null move (0, 0).
pub open spec fn null_move() -> Move {
    Move { beg: 0, end: 0 }
}

/// Two killer moves for each depth below 128.
pub struct KillerTable(Vec<[Move; 2]>);

impl KillerTable {
    /// The killer slots of each depth.
    pub closed spec fn slots(&self) -> Seq<[Move; 2]> {
        self.0@
    }

    pub open spec fn wf(&self) -> bool {
        self.slots().len() == 128
    }

    /// `k1` is `k0` after recording `mv` at depth `d`: unchanged when `mv`
    /// is the first killer already, else `mv` first and the former first
    /// second.
    pub open spec fn set_result(k0: KillerTable, mv: Move, d: Depth, k1: KillerTable) -> bool {
        &&& k1.wf()
        &&& k0.slots()[d as int][0] == mv ==> k1.slots() == k0.slots()
        &&& k0.slots()[d as int][0] != mv ==> k1.slots() == k0.slots().update(d as int, [mv, k0.slots()[d as int][0]])
    }

    /// A table of null moves.
    pub fn new() -> (k: KillerTable)
        ensures
            k.wf(),
            forall|d: int| 0 <= d < 128 ==> (#[trigger] k.slots()[d])@ == seq![null_move(), null_move()],
            killers_distinct(k),
    {
        let mut v: Vec<[Move; 2]> = Vec::new();
        let mut d: usize = 0;
        while d < 128
            invariant
                d <= 128,
                v.len() == d,
                forall|x: int| 0 <= x < d ==> (#[trigger] v@[x])@ == seq![null_move(), null_move()],
            decreases 128 - d,
        {
            v.push([Move::default(), Move::default()]);
            d += 1;
        }
        KillerTable(v)
    }

    /// Records `mv` as the first killer of depth `d`, moving the former first
    /// to second place; nothing changes if `mv` is already first.
    pub fn set(&mut self, mv: Move, d: Depth)
        requires
            old(self).wf(),
            d < 128,
        ensures
            KillerTable::set_result(*old(self), mv, d, *final(self)),
    {
        let d = d as usize;
        let slot = self.0[d];
        if mv == slot[0] {
            return;
        }
        self.0.set(d, [mv, slot[0]]);
    }

    /// The two killers of depth `d`.
    pub fn get(&self, d: Depth) -> (r: [Move; 2])
        requires
            self.wf(),
            d < 128,
        ensures
            r == self.slots()[d as int],
    {
        self.0[d as usize]
    }
}

/// An entry of the transposition table.
#[derive(Clone, Copy)]
pub struct TTEntry {
    pub key: i64,
    pub flag: HashFlag,
    pub vl: VL,
    pub depth: Depth,
    pub mv: Move,
}

impl Default for TTEntry {
    fn default() -> (e: TTEntry)
        ensures
            e == empty_entry(),
    {
        TTEntry { key: 0, flag: 0, vl: 0, depth: 0, mv: Move::default() }
    }
}

/// The entry of an empty slot.
pub open spec fn empty_entry() -> TTEntry {
    TTEntry { key: 0, flag: 0, vl: 0, depth: 0, mv: Move { beg: 0, end: 0 } }
}

/// A transposition table of `2^size` entries, indexed by the low bits of the key.
pub struct TT {
    table: Vec<TTEntry>,
    size: u32,
    mask: u32,
}

/// The slot of `key` in a table with index mask `mask`.
pub open spec fn tt_index(key: i64, mask: u32) -> int {
    (key & (mask as i64)) as int
}

proof fn lemma_tt_index(key: i64, mask: u32)
    ensures
        0 <= tt_index(key, mask) <= mask,
{
    assert(0 <= (key & (mask as i64)) <= mask as i64) by (bit_vector);
}

impl TT {
    pub closed spec fn entries(&self) -> Seq<TTEntry> {
        self.table@
    }

    pub closed spec fn size_bits(&self) -> u32 {
        self.size
    }

    pub closed spec fn index_mask(&self) -> u32 {
        self.mask
    }

    pub open spec fn wf(&self) -> bool {
        &&& self.size_bits() < 32
        &&& self.index_mask() == (1u32 << self.size_bits()) - 1
        &&& self.entries().len() == self.index_mask() + 1
    }

    /// The entry that `key` maps to.
    pub open spec fn slot(&self, key: i64) -> TTEntry {
        self.entries()[tt_index(key, self.index_mask())]
    }

    /// Whether storing an entry for `key` keeps the slot as it is: it holds
    /// `key` (not 0) from a search deeper than `depth`.
    pub open spec fn keeps(&self, key: i64, depth: Depth) -> bool {
        self.slot(key).key != 0 && self.slot(key).key == key && depth < self.slot(key).depth
    }

    /// `t1` is `t0` after storing (`key`, `flag`, `depth`, `mv`, `vl`): the
    /// slot of `key` holds the new entry unless `t0` keeps it.
    pub open spec fn set_result(t0: TT, key: i64, flag: HashFlag, depth: Depth, mv: Move, vl: VL, t1: TT) -> bool {
        &&& t1.wf()
        &&& t1.size_bits() == t0.size_bits()
        &&& t1.index_mask() == t0.index_mask()
        &&& t1.entries() == t0.entries().update(
            tt_index(key, t0.index_mask()),
            if t0.keeps(key, depth) {
                t0.slot(key)
            } else {
                (TTEntry { key, flag, vl, depth, mv })
            },
        )
    }

    /// The value the table gives for `key` at `depth` in the window
    /// (`alpha`, `beta`): the stored value when the slot holds `key` from a
    /// search at least `depth` deep and its bound applies, else `INVALID_VL`.
    pub open spec fn vl_for(&self, key: i64, depth: Depth, alpha: VL, beta: VL) -> VL {
        let e = self.slot(key);
        if e.key != key || e.depth < depth {
            INVALID_VL
        } else if e.flag == EXACT {
            e.vl
        } else if e.flag == ALPHA && e.vl <= alpha {
            e.vl
        } else if e.flag == BETA && e.vl >= beta {
            e.vl
        } else {
            INVALID_VL
        }
    }

    /// The move the table gives for `key`: the stored one when the slot
    /// holds `key`, else the null move.
    pub open spec fn move_for(&self, key: i64) -> Move {
        if self.slot(key).key != key {
            null_move()
        } else {
            self.slot(key).mv
        }
    }

    /// A table of `2^size` empty entries.
    pub fn new(size: u32) -> (tt: TT)
        requires
            size < 32,
        ensures
            tt.wf(),
            tt.size_bits() == size,
            forall|i: int| 0 <= i < tt.entries().len() ==> #[trigger] tt.entries()[i] == empty_entry(),
    {
        let mut tt = TT { table: Vec::new(), size: 0, mask: 0 };
        tt.init(size);
        tt
    }

    /// Empties the table and gives it `2^size` entries.
    pub fn init(&mut self, size: u32)
        requires
            size < 32,
        ensures
            final(self).wf(),
            final(self).size_bits() == size,
            forall|i: int| 0 <= i < final(self).entries().len() ==> #[trigger] final(self).entries()[i] == empty_entry(),
    {
        self.table.clear();
        let n: usize = 1usize << size;
        assert((1usize << size) == ((1u32 << size) - 1) as usize + 1) by (bit_vector)
            requires
                size < 32,
        ;
        let mut i: usize = 0;
        while i < n
            invariant
                i <= n,
                self.table@.len() == i,
                forall|k: int| 0 <= k < i ==> #[trigger] self.table@[k] == empty_entry(),
            decreases n - i,
        {
            self.table.push(TTEntry::default());
            i += 1;
        }
        self.size = size;
        assert((1u32 << size) >= 1) by (bit_vector)
            requires
                size < 32,
        ;
        self.mask = (1 << size) - 1;
    }

    /// Stores an entry for `key`, unless the slot already holds `key` (not 0)
    /// from a deeper search.
    pub fn set(&mut self, key: i64, flag: HashFlag, depth: Depth, mv: Move, vl: VL)
        requires
            old(self).wf(),
        ensures
            TT::set_result(*old(self), key, flag, depth, mv, vl, *final(self)),
    {
        proof {
            lemma_tt_index(key, self.mask);
        }
        let i = (key & self.mask as i64) as usize;
        let e = self.table[i];
        if e.key == 0 {
            self.table.set(i, TTEntry { key, flag, vl, depth, mv });
        } else if e.key == key {
            if depth >= e.depth {
                self.table.set(i, TTEntry { key, flag, vl, depth, mv });
            } else {
                assert(self.table@ =~= old(self).table@.update(i as int, e));
            }
        } else {
            self.table.set(i, TTEntry { key, flag, vl, depth, mv });
        }
    }

    /// The stored value for `key` if it comes from a search at least `depth`
    /// deep and its bound applies to the window (`alpha`, `beta`), else
    /// `INVALID_VL`.
    pub fn get_vl(&self, key: i64, depth: Depth, alpha: VL, beta: VL) -> (r: VL)
        requires
            self.wf(),
        ensures
            r == self.vl_for(key, depth, alpha, beta),
    {
        proof {
            lemma_tt_index(key, self.mask);
        }
        let e = &self.table[(key & self.mask as i64) as usize];
        if e.key != key || e.depth < depth {
            INVALID_VL
        } else if e.flag == EXACT {
            e.vl
        } else if e.flag == ALPHA && e.vl <= alpha {
            e.vl
        } else if e.flag == BETA && e.vl >= beta {
            e.vl
        } else {
            INVALID_VL
        }
    }

    /// The stored move for `key`, or the null move (0, 0).
    pub fn get_move(&self, key: i64) -> (r: Move)
        requires
            self.wf(),
        ensures
            r == self.move_for(key),
    {
        proof {
            lemma_tt_index(key, self.mask);
        }
        let e = &self.table[(key & self.mask as i64) as usize];
        if e.key != key {
            Move::default()
        } else {
            e.mv
        }
    }
}

/// A stored entry is read back: after `set` stores (`key`, `flag`,
/// `depth`, `mv`, `vl`) into a slot that it does not keep, the table gives
/// `mv` for `key`, and `vl` at any depth up to `depth` when the entry is
/// exact or its bound applies to the window; any other key of that slot
/// reads as absent.
pub proof fn lemma_tt_read_after_write(
    t0: TT,
    key: i64,
    flag: HashFlag,
    depth: Depth,
    mv: Move,
    vl: VL,
    t1: TT,
    d: Depth,
    alpha: VL,
    beta: VL,
)
    requires
        t0.wf(),
        TT::set_result(t0, key, flag, depth, mv, vl, t1),
        !t0.keeps(key, depth),
    ensures
        t1.slot(key) == (TTEntry { key, flag, vl, depth, mv }),
        t1.move_for(key) == mv,
        t1.vl_for(key, d, alpha, beta) == (if d <= depth && (flag == EXACT || (flag == ALPHA && vl <= alpha) || (flag
            == BETA && vl >= beta)) {
            vl
        } else {
            INVALID_VL
        }),
        forall|k2: i64|
            k2 != key && tt_index(k2, t1.index_mask()) == tt_index(key, t1.index_mask()) ==> #[trigger] t1.move_for(k2)
                == null_move() && t1.vl_for(k2, d, alpha, beta) == INVALID_VL,
{
    lemma_tt_index(key, t0.index_mask());
}

/// For one key the deeper entry is kept: after two stores for the same key
/// (not 0), the first of which the table took, the table gives the move of
/// the second store if it came from a search at least as deep, else that of
/// the first.
pub proof fn lemma_tt_deeper_kept(
    t0: TT,
    key: i64,
    f1: HashFlag,
    d1: Depth,
    m1: Move,
    v1: VL,
    t1: TT,
    f2: HashFlag,
    d2: Depth,
    m2: Move,
    v2: VL,
    t2: TT,
)
    requires
        t0.wf(),
        key != 0,
        TT::set_result(t0, key, f1, d1, m1, v1, t1),
        !t0.keeps(key, d1),
        TT::set_result(t1, key, f2, d2, m2, v2, t2),
    ensures
        t2.move_for(key) == (if d2 >= d1 { m2 } else { m1 }),
{
    lemma_tt_index(key, t0.index_mask());
}

/// A store touches only the slot of its key, and a kept slot stays: after
/// `set` for `key`, every key of another slot reads as before, and so does
/// every key when the slot was kept.
pub proof fn lemma_tt_write_local(
    t0: TT,
    key: i64,
    flag: HashFlag,
    depth: Depth,
    mv: Move,
    vl: VL,
    t1: TT,
    other: i64,
)
    requires
        t0.wf(),
        TT::set_result(t0, key, flag, depth, mv, vl, t1),
        tt_index(other, t0.index_mask()) != tt_index(key, t0.index_mask()) || t0.keeps(key, depth),
    ensures
        t1.slot(other) == t0.slot(other),
{
    lemma_tt_index(key, t0.index_mask());
    lemma_tt_index(other, t0.index_mask());
}

/// A recorded killer comes first: after `set(mv, d)` the killers of `d` are
/// `mv` and the former first one (unless `mv` was first already), and the
/// other depths keep theirs.
pub proof fn lemma_killer_first(k0: KillerTable, mv: Move, d: Depth, k1: KillerTable, d2: int)
    requires
        k0.wf(),
        d < 128,
        KillerTable::set_result(k0, mv, d, k1),
        0 <= d2 < 128,
        d2 != d,
    ensures
        k1.slots()[d as int][0] == mv,
        k0.slots()[d as int][0] != mv ==> k1.slots()[d as int][1] == k0.slots()[d as int][0],
        k1.slots()[d2] == k0.slots()[d2],
{
}

/// Whether the two killers of each depth differ, or are both the null move.
pub open spec fn killers_distinct(k: KillerTable) -> bool {
    forall|d: int|
        0 <= d < k.slots().len() ==> #[trigger] k.slots()[d][0] != k.slots()[d][1] || (k.slots()[d][0]
            == null_move() && k.slots()[d][1] == null_move())
}

/// Recording a killer never makes the two killers of a depth the same
/// move: a fresh table has null killers, and `set` keeps the killers of
/// each depth different unless both are null.
pub proof fn lemma_killers_stay_distinct(k0: KillerTable, mv: Move, d: Depth, k1: KillerTable)
    requires
        k0.wf(),
        d < 128,
        killers_distinct(k0),
        KillerTable::set_result(k0, mv, d, k1),
    ensures
        killers_distinct(k1),
{
    assert forall|x: int| 0 <= x < k1.slots().len() implies #[trigger] k1.slots()[x][0] != k1.slots()[x][1] || (
    k1.slots()[x][0] == null_move() && k1.slots()[x][1] == null_move()) by {
        if x != d as int {
            assert(k1.slots()[x] == k0.slots()[x]);
        }
    }
}

} // verus!
