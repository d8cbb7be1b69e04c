//! Transposition table and move-ordering memory of the alpha-beta search.
use vstd::prelude::*;

verus! {

/// Plies the killer-move table can index.
pub const MAX_PLY: usize = 64;
/// Slots of the transposition table (a power of two).
pub const TT_SIZE: usize = 4194304;

/// How a stored score bounds the true value of its position.
#[derive(Clone, Copy, PartialEq, Eq, Debug, Structural)]
pub enum TTFlag {
    Exact,
    LowerBound,
    UpperBound,
}

/// One search result, keyed by the position's hash.
#[derive(Clone, Copy)]
pub struct TTEntry {
    pub hash: u64,
    pub score: i32,
    pub depth: u8,
    pub flag: TTFlag,
    pub best_move: Option<(u8, u8)>,
}

pub open spec fn flag_code(f: TTFlag) -> u64 {
    match f {
        TTFlag::Exact => 0,
        TTFlag::LowerBound => 1,
        TTFlag::UpperBound => 2,
    }
}

/// The 64-bit word an entry is stored as: score in bits 0-31, depth in
/// 32-39, flag in 40-41, best move in 42-46 and 47-51 with bit 52 set.
pub open spec fn packed(e: TTEntry) -> u64 {
    let base = ((e.score as u32) as u64) | ((e.depth as u64) << 32u64) | (flag_code(e.flag) << 40u64);
    match e.best_move {
        Some(m) => base | ((m.0 as u64) << 42u64) | ((m.1 as u64) << 47u64) | (1u64 << 52u64),
        None => base,
    }
}

/// The entry a stored word stands for.
pub open spec fn unpacked(hash: u64, data: u64) -> TTEntry {
    let code = (data >> 40u64) & 3u64;
    TTEntry {
        hash,
        score: (data as u32) as i32,
        depth: ((data >> 32u64) & 0xFFu64) as u8,
        flag: if code == 1 {
            TTFlag::LowerBound
        } else if code == 2 {
            TTFlag::UpperBound
        } else {
            TTFlag::Exact
        },
        best_move: if (data >> 52u64) & 1u64 != 0 {
            Some((((data >> 42u64) & 0x1Fu64) as u8, ((data >> 47u64) & 0x1Fu64) as u8))
        } else {
            None
        },
    }
}

/// The best move, if any, fits the five bits per coordinate it is stored in.
pub open spec fn storable(e: TTEntry) -> bool {
    match e.best_move {
        Some(m) => m.0 < 32 && m.1 < 32,
        None => true,
    }
}

/// Unpacking a packed entry gives the entry back.
pub proof fn lemma_unpack_pack(e: TTEntry)
    requires
        storable(e),
    ensures
        unpacked(e.hash, packed(e)) == e,
{
    let s = e.score;
    let d = e.depth;
    let f = flag_code(e.flag);
    assert(f <= 2);
    let base = ((s as u32) as u64) | ((d as u64) << 32u64) | (f << 40u64);
    assert((base as u32) as i32 == s && ((base >> 32u64) & 0xFFu64) as u8 == d && (base >> 40u64) & 3u64 == f
        && (base >> 52u64) & 1u64 == 0) by (bit_vector)
        requires
            base == ((s as u32) as u64) | ((d as u64) << 32u64) | (f << 40u64),
            f <= 2,
    ;
    match e.best_move {
        Some(m) => {
            let x = m.0;
            let y = m.1;
            let w = base | ((x as u64) << 42u64) | ((y as u64) << 47u64) | (1u64 << 52u64);
            assert((w as u32) as i32 == s && ((w >> 32u64) & 0xFFu64) as u8 == d && (w >> 40u64) & 3u64 == f && (w
                >> 52u64) & 1u64 == 1 && ((w >> 42u64) & 0x1Fu64) as u8 == x && ((w >> 47u64) & 0x1Fu64) as u8
                == y) by (bit_vector)
                requires
                    base == ((s as u32) as u64) | ((d as u64) << 32u64) | (f << 40u64),
                    w == base | ((x as u64) << 42u64) | ((y as u64) << 47u64) | (1u64 << 52u64),
                    f <= 2,
                    x < 32,
                    y < 32,
            ;
        },
        None => {},
    }
}

impl TTEntry {
    pub fn pack_data(&self) -> (data: u64)
        ensures
            data == packed(*self),
    {
        let mut data: u64 = (self.score as u32) as u64;
        data = data | ((self.depth as u64) << 32u64);
        let code: u64 = match self.flag {
            TTFlag::Exact => 0,
            TTFlag::LowerBound => 1,
            TTFlag::UpperBound => 2,
        };
        data = data | (code << 40u64);
        if let Some((x, y)) = self.best_move {
            data = data | ((x as u64) << 42u64);
            data = data | ((y as u64) << 47u64);
            data = data | (1u64 << 52u64);
        }
        data
    }

    pub fn unpack(hash: u64, data: u64) -> (e: TTEntry)
        ensures
            e == unpacked(hash, data),
    {
        let score = (data as u32) as i32;
        let depth = ((data >> 32u64) & 0xFFu64) as u8;
        let flag = match (data >> 40u64) & 3u64 {
            1 => TTFlag::LowerBound,
            2 => TTFlag::UpperBound,
            _ => TTFlag::Exact,
        };
        let has_best = ((data >> 52u64) & 1u64) != 0;
        let best_move = if has_best {
            Some((((data >> 42u64) & 0x1Fu64) as u8, ((data >> 47u64) & 0x1Fu64) as u8))
        } else {
            None
        };
        TTEntry { hash, score, depth, flag, best_move }
    }
}

/// Largest magnitude of a score the search produces.
pub const SCORE_BOUND: i32 = 1_000_000_000;

pub open spec fn score_ok(v: int) -> bool {
    -SCORE_BOUND <= v <= SCORE_BOUND
}

/// Slot of a hash.
pub open spec fn slot_of(hash: u64) -> int {
    (hash & 4194303u64) as int
}

/// What a probe of `hash` finds in the slots `slots`.
pub open spec fn lookup_slots(slots: Seq<(u64, u64)>, hash: u64) -> Option<TTEntry> {
    let slot = slots[slot_of(hash)];
    if slot.0 ^ slot.1 == hash {
        Some(unpacked(hash, slot.1))
    } else {
        None
    }
}

/// The slots after storing `e`.
pub open spec fn stored(slots: Seq<(u64, u64)>, e: TTEntry) -> Seq<(u64, u64)> {
    slots.update(slot_of(e.hash), (e.hash ^ packed(e), packed(e)))
}

/// Each slot holds the hash XOR the packed data, and the packed data: a
/// slot read back with a different hash does not match.
pub struct TranspositionTable {
    pub slots: Vec<(u64, u64)>,
}

impl TranspositionTable {
    /// The table has its full size and every stored score is in range.
    pub open spec fn wf(self) -> bool {
        &&& self.slots@.len() == TT_SIZE
        &&& forall|i: int| 0 <= i < TT_SIZE ==> #[trigger] score_ok(((self.slots@[i].1 as u32) as i32) as int)
    }

    /// What a probe of `hash` finds.
    pub open spec fn lookup(self, hash: u64) -> Option<TTEntry> {
        lookup_slots(self.slots@, hash)
    }

    pub fn new() -> (t: TranspositionTable)
        ensures
            t.wf(),
            forall|i: int| 0 <= i < TT_SIZE ==> #[trigger] t.slots@[i] == (0u64, 0u64),
    {
        let mut slots: Vec<(u64, u64)> = Vec::with_capacity(TT_SIZE);
        let mut i: usize = 0;
        while i < TT_SIZE
            invariant
                0 <= i <= TT_SIZE,
                slots@.len() == i,
                forall|j: int| 0 <= j < i ==> #[trigger] slots@[j] == (0u64, 0u64),
            decreases TT_SIZE - i,
        {
            slots.push((0, 0));
            i += 1;
        }
        let t = TranspositionTable { slots };
        assert forall|j: int| 0 <= j < TT_SIZE implies #[trigger] score_ok(((t.slots@[j].1 as u32) as i32) as int) by {
            assert(t.slots@[j] == (0u64, 0u64));
            assert(((0u64 as u32) as i32) == 0) by (bit_vector);
        }
        t
    }

    fn index(hash: u64) -> (i: usize)
        ensures
            i == slot_of(hash),
            i < TT_SIZE,
    {
        let masked = hash & 4194303u64;
        assert(masked <= 4194303u64) by (bit_vector)
            requires
                masked == hash & 4194303u64,
        ;
        masked as usize
    }

    /// The entry stored under `hash`, if the slot holds one for it.
    pub fn probe(&self, hash: u64) -> (r: Option<TTEntry>)
        requires
            self.wf(),
        ensures
            r == self.lookup(hash),
            r matches Some(e) ==> score_ok(e.score as int),
    {
        let index = Self::index(hash);
        let (stored_key, stored_data) = self.slots[index];
        let recovered_hash = stored_key ^ stored_data;
        if recovered_hash == hash {
            Some(TTEntry::unpack(hash, stored_data))
        } else {
            None
        }
    }

    /// Store `entry` in its slot.
    pub fn store(&mut self, entry: &TTEntry)
        requires
            old(self).wf(),
            score_ok(entry.score as int),
        ensures
            final(self).wf(),
            final(self).slots@ == old(self).slots@.update(
                slot_of(entry.hash),
                (entry.hash ^ packed(*entry), packed(*entry)),
            ),
    {
        let index = Self::index(entry.hash);
        let data = entry.pack_data();
        let ghost e = *entry;
        proof {
            let s = e.score;
            assert(((packed(e) as u32) as i32) == s) by {
                let d = e.depth;
                let f = flag_code(e.flag);
                let w = packed(e);
                assert(f <= 2);
                match e.best_move {
                    Some(m) => {
                        let x = m.0;
                        let y = m.1;
                        assert(((((((s as u32) as u64) | ((d as u64) << 32u64) | (f << 40u64)) | ((x as u64) << 42u64)
                            | ((y as u64) << 47u64) | (1u64 << 52u64)) as u32) as i32) == s) by (bit_vector);
                    },
                    None => {
                        assert((((((s as u32) as u64) | ((d as u64) << 32u64) | (f << 40u64)) as u32) as i32) == s)
                            by (bit_vector);
                    },
                }
            }
        }
        self.slots.set(index, (entry.hash ^ data, data));
        proof {
            assert forall|j: int| 0 <= j < TT_SIZE implies #[trigger] score_ok(((self.slots@[j].1 as u32) as i32) as int) by {
                if j != index {
                    assert(self.slots@[j] == old(self).slots@[j]);
                    assert(score_ok(((old(self).slots@[j].1 as u32) as i32) as int));
                }
            }
        }
    }
}

/// A probe right after storing an entry finds that entry.
pub proof fn lemma_probe_after_store(before: TranspositionTable, after: TranspositionTable, e: TTEntry)
    requires
        before.wf(),
        storable(e),
        after.slots@ == before.slots@.update(slot_of(e.hash), (e.hash ^ packed(e), packed(e))),
    ensures
        after.lookup(e.hash) == Some(e),
{
    let h = e.hash;
    let p = packed(e);
    assert((h ^ p) ^ p == h) by (bit_vector);
    assert(0 <= slot_of(h) < TT_SIZE) by {
        let m = h & 4194303u64;
        assert(m <= 4194303u64) by (bit_vector)
            requires
                m == h & 4194303u64,
        ;
    }
    lemma_unpack_pack(e);
}

/// `slot` holds the move `m`.
pub open spec fn holds(slot: Option<(u8, u8)>, m: (u8, u8)) -> bool {
    match slot {
        Some(k) => k.0 == m.0 && k.1 == m.1,
        None => false,
    }
}

/// The context after `mov` caused a cutoff at `ply`: it becomes the newest
/// killer there, pushing the previous newest back, unless it already is the
/// newest.
pub open spec fn killer_after(c: SearchContext, ply: int, mov: (u8, u8)) -> SearchContext {
    if 0 <= ply < 64 && !holds(c.killer_moves[ply][0], mov) {
        SearchContext {
            killer_moves: vstd::array::spec_array_update(
                c.killer_moves,
                ply,
                vstd::array::spec_array_update(
                    vstd::array::spec_array_update(c.killer_moves[ply], 0, Some(mov)),
                    1,
                    c.killer_moves[ply][0],
                ),
            ),
            history: c.history,
        }
    } else {
        c
    }
}

/// The history count of `mov` for a side after a cutoff `depth` plies from
/// the horizon, saturating at `i32::MAX`.
pub open spec fn credited(count: i32, depth: int) -> i32 {
    if count + depth * depth > i32::MAX {
        i32::MAX
    } else {
        (count + depth * depth) as i32
    }
}

/// The context after crediting `mov` for the side given by `is_black`.
pub open spec fn history_after(c: SearchContext, is_black: bool, mov: (u8, u8), depth: int) -> SearchContext {
    let p: int = if is_black {
        0
    } else {
        1
    };
    let row = c.history[p];
    let line = row[mov.0 as int];
    SearchContext {
        killer_moves: c.killer_moves,
        history: vstd::array::spec_array_update(
            c.history,
            p,
            vstd::array::spec_array_update(
                row,
                mov.0 as int,
                vstd::array::spec_array_update(line, mov.1 as int, credited(line[mov.1 as int], depth)),
            ),
        ),
    }
}

/// `d` is `c` with every history count halved.
pub open spec fn decay_of(c: SearchContext, d: SearchContext) -> bool {
    &&& d.killer_moves == c.killer_moves
    &&& forall|p: int, r: int, x: int|
        0 <= p < 2 && 0 <= r < 19 && 0 <= x < 19 ==> #[trigger] d.history[p][r][x] == c.history[p][r][x] / 2
}

/// The context with every history count halved.
pub open spec fn decayed(c: SearchContext) -> SearchContext {
    choose|d: SearchContext| decay_of(c, d)
}

/// `c` holds no killer move and no history.
pub open spec fn is_fresh(c: SearchContext) -> bool {
    &&& forall|ply: int, k: int| 0 <= ply < 64 && 0 <= k < 2 ==> #[trigger] c.killer_moves[ply][k] is None
    &&& forall|p: int, r: int, x: int| 0 <= p < 2 && 0 <= r < 19 && 0 <= x < 19 ==> #[trigger] c.history[p][r][x] == 0
}

/// The context of a new search.
pub open spec fn fresh_context() -> SearchContext {
    choose|c: SearchContext| is_fresh(c)
}

/// Contexts agreeing on every killer slot and history count are equal.
proof fn lemma_context_ext(a: SearchContext, b: SearchContext)
    requires
        forall|ply: int, k: int| 0 <= ply < 64 && 0 <= k < 2 ==> #[trigger] a.killer_moves[ply][k] == b.killer_moves[ply][k],
        forall|p: int, r: int, x: int|
            0 <= p < 2 && 0 <= r < 19 && 0 <= x < 19 ==> #[trigger] a.history[p][r][x] == b.history[p][r][x],
    ensures
        a == b,
{
    assert forall|ply: int| 0 <= ply < 64 implies #[trigger] a.killer_moves[ply] == b.killer_moves[ply] by {
        assert(a.killer_moves[ply] =~= b.killer_moves[ply]);
    }
    assert(a.killer_moves =~= b.killer_moves);
    assert forall|p: int| 0 <= p < 2 implies #[trigger] a.history[p] == b.history[p] by {
        assert forall|r: int| 0 <= r < 19 implies #[trigger] a.history[p][r] == b.history[p][r] by {
            assert(a.history[p][r] =~= b.history[p][r]);
        }
        assert(a.history[p] =~= b.history[p]);
    }
    assert(a.history =~= b.history);
}

/// Halving gives one context: the one `decayed` names.
pub proof fn lemma_decayed(c: SearchContext, d: SearchContext)
    requires
        decay_of(c, d),
    ensures
        d == decayed(c),
{
    let e = decayed(c);
    assert(decay_of(c, e));
    lemma_context_ext(d, e);
}

/// There is one fresh context.
pub proof fn lemma_fresh_context(c: SearchContext)
    requires
        is_fresh(c),
    ensures
        c == fresh_context(),
{
    let e = fresh_context();
    assert(is_fresh(e));
    lemma_context_ext(c, e);
}

/// Moves that recently caused cutoffs, per ply and per cell.
pub struct SearchContext {
    /// Two most recent cutoff moves per ply.
    pub killer_moves: [[Option<(u8, u8)>; 2]; 64],
    /// Depth-weighted cutoff counts, `[0 = Black, 1 = White][row][col]`,
    /// saturating at `i32::MAX`.
    pub history: [[[i32; 19]; 19]; 2],
}

impl SearchContext {
    /// History counts are never negative.
    pub open spec fn wf(self) -> bool {
        forall|p: int, r: int, c: int| 0 <= p < 2 && 0 <= r < 19 && 0 <= c < 19 ==> #[trigger] self.history[p][r][c] >= 0
    }

    pub fn new() -> (ctx: SearchContext)
        ensures
            ctx.wf(),
            forall|ply: int, k: int| 0 <= ply < 64 && 0 <= k < 2 ==> #[trigger] ctx.killer_moves[ply][k] is None,
            forall|p: int, r: int, c: int|
                0 <= p < 2 && 0 <= r < 19 && 0 <= c < 19 ==> #[trigger] ctx.history[p][r][c] == 0,
    {
        SearchContext { killer_moves: [[None; 2]; 64], history: [[[0i32; 19]; 19]; 2] }
    }

    /// Halve every history count.
    pub fn decay_history(&mut self)
        requires
            old(self).wf(),
        ensures
            final(self).wf(),
            final(self).killer_moves == old(self).killer_moves,
            forall|p: int, r: int, c: int|
                0 <= p < 2 && 0 <= r < 19 && 0 <= c < 19 ==> #[trigger] final(self).history[p][r][c] == old(
                    self,
                ).history[p][r][c] / 2,
    {
        let mut color: usize = 0;
        while color < 2
            invariant
                0 <= color <= 2,
                self.killer_moves == old(self).killer_moves,
                forall|p: int, r: int, c: int|
                    0 <= p < 2 && 0 <= r < 19 && 0 <= c < 19 ==> #[trigger] self.history[p][r][c] == if p < color {
                        old(self).history[p][r][c] / 2
                    } else {
                        old(self).history[p][r][c] as int
                    },
                old(self).wf(),
            decreases 2 - color,
        {
            let mut r: usize = 0;
            while r < 19
                invariant
                    0 <= color < 2,
                    0 <= r <= 19,
                    self.killer_moves == old(self).killer_moves,
                    forall|p: int, rr: int, c: int|
                        0 <= p < 2 && 0 <= rr < 19 && 0 <= c < 19 ==> #[trigger] self.history[p][rr][c] == if p < color
                            || (p == color && rr < r) {
                            old(self).history[p][rr][c] / 2
                        } else {
                            old(self).history[p][rr][c] as int
                        },
                    old(self).wf(),
                decreases 19 - r,
            {
                let mut c: usize = 0;
                while c < 19
                    invariant
                        0 <= color < 2,
                        0 <= r < 19,
                        0 <= c <= 19,
                        self.killer_moves == old(self).killer_moves,
                        forall|p: int, rr: int, cc: int|
                            0 <= p < 2 && 0 <= rr < 19 && 0 <= cc < 19 ==> #[trigger] self.history[p][rr][cc] == if p
                                < color || (p == color && rr < r) || (p == color && rr == r && cc < c) {
                                old(self).history[p][rr][cc] / 2
                            } else {
                                old(self).history[p][rr][cc] as int
                            },
                        old(self).wf(),
                    decreases 19 - c,
                {
                    let h = self.history[color][r][c];
                    assert(h >= 0);
                    self.history[color][r][c] = h / 2;
                    c += 1;
                }
                r += 1;
            }
            color += 1;
        }
    }

    /// Remember `mov` as the newest killer move at `ply`, pushing the
    /// previous newest one back, unless it already is the newest.
    pub fn update_killer(&mut self, ply: usize, mov: (u8, u8))
        ensures
            final(self).history == old(self).history,
            forall|p: int|
                0 <= p < 64 && p != ply ==> #[trigger] final(self).killer_moves[p] == old(self).killer_moves[p],
            (ply < 64 && !holds(old(self).killer_moves[ply as int][0], mov)) ==> (final(self).killer_moves[ply as int][0]
                == Some(mov) && final(self).killer_moves[ply as int][1] == old(self).killer_moves[ply as int][0]),
            !(ply < 64 && !holds(old(self).killer_moves[ply as int][0], mov)) ==> final(self).killer_moves == old(
                self,
            ).killer_moves,
            *final(self) == killer_after(*old(self), ply as int, mov),
    {
        if ply < MAX_PLY {
            let first = self.killer_moves[ply][0];
            let already = match first {
                Some(k) => k.0 == mov.0 && k.1 == mov.1,
                None => false,
            };
            if !already {
                self.killer_moves[ply][1] = first;
                self.killer_moves[ply][0] = Some(mov);
                proof {
                    let want = killer_after(*old(self), ply as int, mov);
                    assert(self.killer_moves[ply as int] =~= want.killer_moves[ply as int]);
                    assert(self.killer_moves =~= want.killer_moves);
                }
            }
        }
    }

    /// Credit `mov` with a cutoff `depth` plies from the horizon.
    pub fn update_history(&mut self, is_black: bool, mov: (u8, u8), depth: usize)
        requires
            old(self).wf(),
            mov.0 < 19,
            mov.1 < 19,
            depth <= 64,
        ensures
            final(self).wf(),
            final(self).killer_moves == old(self).killer_moves,
            forall|p: int, r: int, c: int|
                0 <= p < 2 && 0 <= r < 19 && 0 <= c < 19 ==> #[trigger] final(self).history[p][r][c] == if p == (if is_black {
                    0int
                } else {
                    1int
                }) && r == mov.0 && c == mov.1 {
                    if old(self).history[p][r][c] + depth * depth > i32::MAX {
                        i32::MAX as int
                    } else {
                        old(self).history[p][r][c] + depth * depth
                    }
                } else {
                    old(self).history[p][r][c] as int
                },
            *final(self) == history_after(*old(self), is_black, mov, depth as int),
    {
        let cidx: usize = if is_black { 0 } else { 1 };
        let r = mov.0 as usize;
        let c = mov.1 as usize;
        assert(depth * depth <= 4096) by (nonlinear_arith)
            requires
                depth <= 64,
        ;
        let bonus = (depth * depth) as i32;
        let h = self.history[cidx][r][c];
        assert(h >= 0);
        self.history[cidx][r][c] = if h > i32::MAX - bonus { i32::MAX } else { h + bonus };
        proof {
            let want = history_after(*old(self), is_black, mov, depth as int);
            assert(self.history[cidx as int][r as int] =~= want.history[cidx as int][r as int]);
            assert(self.history[cidx as int] =~= want.history[cidx as int]);
            assert(self.history =~= want.history);
        }
    }
}

} // verus!
