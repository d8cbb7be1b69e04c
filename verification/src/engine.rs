//! The search engine of the game board: principal-variation alpha-beta with
//! a sharded transposition table kept across turns, null-move probes,
//! killer and history ordering and late-move reductions, searched to its
//! full depth with no time limit.
use vstd::prelude::*;
use crate::constants::{MAX_VALUE, MIN_VALUE};
use crate::keys::lemma_xor_laws;
use crate::search_board::{on_board, stone_count, Cell, PatternCounts, PatternKind, SearchBoard, UndoInfo};
use crate::search_board::moves::{
    after_grid, move_delta,
    all_dir, all_dir_at, capture_in, captures_before, lemma_make_move_undo_ready, lemma_undo_restores_make,
    make_move_post, player_key, undo_post, undo_ready,
};
use crate::search_board::ordering::{candidates, counts_modest, order_key, radius_at};
use crate::search_board::rules::free_threes_made;
use crate::sorting::stably_sorted;
use crate::constants::SHALLOW_ORDER_DEPTH;
use crate::search_board::recognize::{full_counts, lemma_full_counts_within, lemma_local_counts_within, local_counts};
use crate::search_board::rules::{board_eval, winner_of};
use crate::search_state::table::TTFlag;
use crate::gomoku::Gomoku;

verus! {

/// Deepest iteration of the iterative deepening.
pub const MAX_DEPTH: usize = 9;
/// Plies the killer table can index.
pub const MAX_PLY: usize = 13;
/// Number of shards of the shared transposition table.
pub const TT_SHARDS: usize = 64;
/// Mask selecting a hash's shard.
pub const TT_SHARD_MASK: u64 = 63;
/// Each shard holds `2^TT_SIZE_BITS` slots.
pub const TT_SIZE_BITS: usize = 14;
/// A history count above this halves the whole history table.
pub const HISTORY_CEILING: u32 = 1048576;
/// Late-move reductions apply with at least this many plies left.
pub const LMR_MIN_DEPTH: usize = 3;
/// Late-move reductions apply from this move of the ordering on.
pub const LMR_MIN_MOVE: usize = 3;
/// From this move of the ordering on the reduction is two plies.
pub const LMR_DEEP_MOVE: usize = 6;
/// A null-move probe needs at least this many plies left.
pub const NULL_MOVE_MIN_DEPTH: usize = 3;
/// A null-move probe searches this many plies less.
pub const NULL_MOVE_REDUCTION: usize = 2;
/// From this ply on, the candidates of a node are cut down.
pub const CANDIDATE_CAP_DEPTH: usize = 3;
/// Candidates kept there, or the moves put in front of them if more.
pub const CANDIDATE_CAP: usize = 12;


// --- Transposition table ---------------------------------------------------

/// A search result stored under a position's hash.
#[derive(Clone, Copy)]
pub struct SbEntry {
    pub hash: u64,
    pub depth_remaining: usize,
    pub value: i32,
    pub flag: TTFlag,
    pub best_move: Option<(usize, usize)>,
}

/// The transposition table of the engine, kept across turns: `TT_SHARDS`
/// shards of `mask + 1` slots each, laid out one after the other. A hash
/// picks its shard by its low six bits and its slot within the shard by its
/// low bits under `mask`.
pub struct ShardedTT {
    pub slots: Vec<Option<SbEntry>>,
    pub mask: usize,
}

/// Two to the power `n`.
pub open spec fn two_to(n: nat) -> nat
    decreases n,
{
    if n == 0 {
        1
    } else {
        2 * two_to((n - 1) as nat)
    }
}

/// `2^b * 2^(20-b) == 2^20`, one step along.
proof fn lemma_two_to_split(b: nat)
    requires
        b < 20,
        two_to(b) * two_to((20 - b) as nat) == 1048576,
    ensures
        two_to(b + 1) * two_to((20 - (b + 1)) as nat) == 1048576,
        two_to(b + 1) <= 1048576,
{
    let r = (20 - (b + 1)) as nat;
    assert(two_to((20 - b) as nat) == 2 * two_to(r));
    assert(two_to(b + 1) == 2 * two_to(b));
    lemma_two_to_pos(r);
    assert(two_to(b) * (2 * two_to(r)) == (2 * two_to(b)) * two_to(r)) by (nonlinear_arith);
    assert(two_to(b + 1) <= two_to(b + 1) * two_to(r)) by (nonlinear_arith)
        requires
            two_to(r) >= 1,
    ;
}

proof fn lemma_two_to_pos(n: nat)
    ensures
        two_to(n) >= 1,
    decreases n,
{
    if n > 0 {
        lemma_two_to_pos((n - 1) as nat);
    }
}

/// Shard of a hash.
pub open spec fn shard_of(hash: u64) -> int {
    (hash & TT_SHARD_MASK) as int
}

/// Slot of a hash within its shard.
pub open spec fn slot_in(hash: u64, mask: usize) -> int {
    (hash & (mask as u64)) as int
}

impl ShardedTT {
    /// Every shard has `mask + 1` slots.
    pub open spec fn wf(self) -> bool {
        &&& self.mask < 1048576
        &&& self.slots@.len() == TT_SHARDS * (self.mask + 1)
    }

    /// Where `hash` is kept.
    pub open spec fn place(self, hash: u64) -> int {
        tt_place(self.mask, hash)
    }

    /// What a lookup of `hash` finds: the entry in its slot, if it was stored
    /// under that hash.
    pub open spec fn found(self, hash: u64) -> Option<SbEntry> {
        found_in(self.slots@, self.mask, hash)
    }

    /// A table with every slot empty, of `2^size_bits_per_shard` slots per
    /// shard.
    pub fn new(size_bits_per_shard: usize) -> (t: ShardedTT)
        requires
            size_bits_per_shard <= 20,
        ensures
            t.wf(),
            t.mask + 1 == two_to(size_bits_per_shard as nat),
            forall|i: int| 0 <= i < t.slots@.len() ==> #[trigger] t.slots@[i] is None,
    {
        let mut size: usize = 1;
        let mut b: usize = 0;
        assert(two_to(20) == 1048576) by {
            reveal_with_fuel(two_to, 21);
        }
        while b < size_bits_per_shard
            invariant
                0 <= b <= size_bits_per_shard <= 20,
                size == two_to(b as nat),
                size <= 1048576,
                size >= 1,
                two_to(b as nat) * two_to((20 - b) as nat) == 1048576,
            decreases size_bits_per_shard - b,
        {
            proof {
                lemma_two_to_split(b as nat);
            }
            size = size * 2;
            b += 1;
        }
        let total = TT_SHARDS * size;
        let slots = empty_slots(total);
        ShardedTT { slots, mask: size - 1 }
    }

    fn index(&self, hash: u64) -> (r: usize)
        requires
            self.wf(),
        ensures
            r == self.place(hash),
            r < self.slots@.len(),
    {
        let shard = hash & TT_SHARD_MASK;
        let m = self.mask as u64;
        let slot = hash & m;
        assert(shard <= 63) by (bit_vector)
            requires
                shard == hash & 63u64,
        ;
        assert(slot <= m) by (bit_vector)
            requires
                slot == hash & m,
        ;
        let size = self.mask + 1;
        assert(shard * size + slot < 64 * size) by (nonlinear_arith)
            requires
                shard <= 63,
                slot < size,
        ;
        shard as usize * size + slot as usize
    }

    /// The entry stored under `hash`, if its slot holds one for it.
    pub fn lookup(&self, hash: u64) -> (r: Option<SbEntry>)
        requires
            self.wf(),
        ensures
            r == self.found(hash),
    {
        let i = self.index(hash);
        match self.slots[i] {
            Some(e) => if e.hash == hash {
                Some(e)
            } else {
                None
            },
            None => None,
        }
    }

    /// Put `entry` in the slot of `hash`.
    pub fn store(&mut self, hash: u64, entry: SbEntry)
        requires
            old(self).wf(),
        ensures
            final(self).wf(),
            final(self).mask == old(self).mask,
            final(self).slots@ == old(self).slots@.update(old(self).place(hash), Some(entry)),
    {
        let i = self.index(hash);
        self.slots.set(i, Some(entry));
    }

    /// Drop every entry.
    pub fn clear(&mut self)
        requires
            old(self).wf(),
        ensures
            final(self).wf(),
            final(self).mask == old(self).mask,
            forall|i: int| 0 <= i < final(self).slots@.len() ==> #[trigger] final(self).slots@[i] is None,
    {
        let n = self.slots.len();
        self.slots = empty_slots(n);
    }
}

/// `n` empty slots.
fn empty_slots(n: usize) -> (v: Vec<Option<SbEntry>>)
    ensures
        v@.len() == n,
        forall|i: int| 0 <= i < n ==> #[trigger] v@[i] is None,
{
    let mut v: Vec<Option<SbEntry>> = Vec::new();
    let mut i: usize = 0;
    while i < n
        invariant
            0 <= i <= n,
            v@.len() == i,
            forall|j: int| 0 <= j < i ==> #[trigger] v@[j] is None,
        decreases n - i,
    {
        v.push(None);
        i += 1;
    }
    v
}

/// A hash's place lies in the table.
proof fn lemma_place_in_range(tt: ShardedTT, hash: u64)
    requires
        tt.wf(),
    ensures
        0 <= tt.place(hash) < tt.slots@.len(),
{
    let shard = hash & 63u64;
    let m = tt.mask as u64;
    let slot = hash & m;
    assert(shard <= 63) by (bit_vector)
        requires
            shard == hash & 63u64,
    ;
    assert(slot <= m) by (bit_vector)
        requires
            slot == hash & m,
    ;
    let size = tt.mask + 1;
    assert(shard * size + slot < 64 * size) by (nonlinear_arith)
        requires
            shard <= 63,
            slot < size,
    ;
}

/// A probe right after a store under the same hash finds the entry stored.
pub proof fn lemma_sharded_probe_after_store(before: ShardedTT, after: ShardedTT, hash: u64, e: SbEntry)
    requires
        before.wf(),
        e.hash == hash,
        after.mask == before.mask,
        after.slots@ == before.slots@.update(before.place(hash), Some(e)),
    ensures
        after.found(hash) == Some(e),
{
    let shard = hash & 63u64;
    let m = before.mask as u64;
    let slot = hash & m;
    assert(shard <= 63) by (bit_vector)
        requires
            shard == hash & 63u64,
    ;
    assert(slot <= m) by (bit_vector)
        requires
            slot == hash & m,
    ;
    let size = before.mask + 1;
    assert(shard * size + slot < 64 * size) by (nonlinear_arith)
        requires
            shard <= 63,
            slot < size,
    ;
}

/// Empty the transposition table, between games or before a search whose
/// cost should not depend on the one before it.
pub fn clear_transposition_table(tt: &mut ShardedTT)
    requires
        old(tt).wf(),
    ensures
        final(tt).wf(),
        final(tt).mask == old(tt).mask,
        forall|i: int| 0 <= i < final(tt).slots@.len() ==> #[trigger] final(tt).slots@[i] is None,
{
    tt.clear();
}

// --- Move ordering memory --------------------------------------------------

/// Killer moves per ply and depth-weighted cutoff counts per cell: used only
/// to decide in which order moves are tried.
pub struct MoveHeuristics {
    pub killers: [[Option<(usize, usize)>; 2]; 13],
    pub history: [u32; 361],
}

impl MoveHeuristics {
    pub fn new() -> (h: MoveHeuristics)
        ensures
            forall|p: int, k: int| 0 <= p < MAX_PLY && 0 <= k < 2 ==> #[trigger] h.killers[p][k] is None,
            forall|i: int| 0 <= i < 361 ==> #[trigger] h.history[i] == 0,
    {
        MoveHeuristics { killers: [[None; 2]; 13], history: [0; 361] }
    }

    /// The killers of `ply`; none beyond the table.
    pub fn killers_at(&self, ply: usize) -> (k: [Option<(usize, usize)>; 2])
        ensures
            ply < MAX_PLY ==> k == self.killers[ply as int],
            ply >= MAX_PLY ==> k[0] is None && k[1] is None,
    {
        if ply < MAX_PLY {
            self.killers[ply]
        } else {
            [None, None]
        }
    }

    /// Remember that `mv` caused a cutoff at `ply` with `depth_remaining`
    /// plies left: it becomes the newest killer of the ply (the previous
    /// newest moving to second place) unless it already is, and its history
    /// count grows by the square of the plies left, saturating; a count
    /// above the ceiling halves the whole table.
    pub fn record_cutoff(&mut self, ply: usize, mv: (usize, usize), depth_remaining: usize)
        requires
            mv.0 < 19,
            mv.1 < 19,
            depth_remaining <= 64,
        ensures
            forall|p: int| 0 <= p < MAX_PLY && p != ply ==> #[trigger] final(self).killers[p] == old(self).killers[p],
            (ply < MAX_PLY && old(self).killers[ply as int][0] != Some(mv)) ==> (final(self).killers[ply as int][0]
                == Some(mv) && final(self).killers[ply as int][1] == old(self).killers[ply as int][0]),
            !(ply < MAX_PLY && old(self).killers[ply as int][0] != Some(mv)) ==> final(self).killers == old(
                self,
            ).killers,
            ({
                let cell = mv.0 * 19 + mv.1;
                let bumped = if old(self).history[cell] + depth_remaining * depth_remaining > u32::MAX {
                    u32::MAX as int
                } else {
                    old(self).history[cell] + depth_remaining * depth_remaining
                };
                forall|i: int|
                    0 <= i < 361 ==> #[trigger] final(self).history[i] == {
                        let v = if i == cell {
                            bumped
                        } else {
                            old(self).history[i] as int
                        };
                        if bumped > HISTORY_CEILING {
                            v / 2
                        } else {
                            v
                        }
                    }
            }),
            cutoff_post(*old(self), ply as int, mv, depth_remaining as int, *final(self)),
    {
        if ply < MAX_PLY {
            let first = self.killers[ply][0];
            let same = match first {
                Some(k) => k.0 == mv.0 && k.1 == mv.1,
                None => false,
            };
            if !same {
                self.killers[ply][1] = first;
                self.killers[ply][0] = Some(mv);
            }
        }
        assert(depth_remaining * depth_remaining <= 4096) by (nonlinear_arith)
            requires
                depth_remaining <= 64,
        ;
        let bonus = (depth_remaining * depth_remaining) as u32;
        let cell = mv.0 * 19 + mv.1;
        let h = self.history[cell];
        let bumped = if h > u32::MAX - bonus {
            u32::MAX
        } else {
            h + bonus
        };
        self.history[cell] = bumped;
        if bumped > HISTORY_CEILING {
            let ghost before = self.history;
            let ghost kills = self.killers;
            let mut i: usize = 0;
            while i < 361
                invariant
                    0 <= i <= 361,
                    self.killers == kills,
                    forall|j: int| 0 <= j < 361 ==> #[trigger] self.history[j] == if j < i {
                        before[j] as int / 2
                    } else {
                        before[j] as int
                    },
                decreases 361 - i,
            {
                let v = self.history[i];
                self.history[i] = v / 2;
                i += 1;
            }
        }
    }
}

// --- Search statistics -----------------------------------------------------

/// Counters of a search and the principal variation of its last completed
/// iteration. Counters saturate at `u64::MAX`.
pub struct SearchStats {
    pub nodes_visited: u64,
    pub cutoffs: u64,
    pub total_children: u64,
    pub children_explored: u64,
    pub internal_nodes: u64,
    pub max_depth: usize,
    pub tt_hits: u64,
    pub pv: Vec<(usize, usize)>,
}

/// `a + b`, saturating at `u64::MAX`.
pub open spec fn sat_add(a: u64, b: u64) -> u64 {
    if a + b > u64::MAX {
        u64::MAX
    } else {
        (a + b) as u64
    }
}

pub fn add_count(a: u64, b: u64) -> (r: u64)
    ensures
        r == sat_add(a, b),
{
    if a > u64::MAX - b {
        u64::MAX
    } else {
        a + b
    }
}

impl SearchStats {
    pub fn new() -> (s: SearchStats)
        ensures
            s.nodes_visited == 0,
            s.cutoffs == 0,
            s.total_children == 0,
            s.children_explored == 0,
            s.internal_nodes == 0,
            s.max_depth == 0,
            s.tt_hits == 0,
            s.pv@.len() == 0,
    {
        SearchStats {
            nodes_visited: 0,
            cutoffs: 0,
            total_children: 0,
            children_explored: 0,
            internal_nodes: 0,
            max_depth: 0,
            tt_hits: 0,
            pv: Vec::new(),
        }
    }

    /// Add the counters of a child search; the depth and principal variation
    /// stay.
    pub fn merge(&mut self, other: &SearchStats)
        ensures
            final(self).nodes_visited == sat_add(old(self).nodes_visited, other.nodes_visited),
            final(self).cutoffs == sat_add(old(self).cutoffs, other.cutoffs),
            final(self).total_children == sat_add(old(self).total_children, other.total_children),
            final(self).children_explored == sat_add(old(self).children_explored, other.children_explored),
            final(self).internal_nodes == sat_add(old(self).internal_nodes, other.internal_nodes),
            final(self).tt_hits == sat_add(old(self).tt_hits, other.tt_hits),
            final(self).max_depth == old(self).max_depth,
            final(self).pv@ == old(self).pv@,
    {
        self.nodes_visited = add_count(self.nodes_visited, other.nodes_visited);
        self.cutoffs = add_count(self.cutoffs, other.cutoffs);
        self.total_children = add_count(self.total_children, other.total_children);
        self.children_explored = add_count(self.children_explored, other.children_explored);
        self.internal_nodes = add_count(self.internal_nodes, other.internal_nodes);
        self.tt_hits = add_count(self.tt_hits, other.tt_hits);
    }
}

// --- Terminal values -------------------------------------------------------

/// Value of a finished game `depth` plies below the root, Black's view: a
/// nearer win scores higher and a nearer loss lower; a draw is 0.
pub open spec fn state_value(w: Option<Cell>, depth: int) -> int {
    match w {
        Some(Cell::Black) => MAX_VALUE - depth,
        Some(Cell::White) => MIN_VALUE + depth,
        _ => 0,
    }
}

/// A finished game scores its distance from the root: a win nearer the root
/// scores further from zero, and within the search's depth no static
/// evaluation scores beyond a win.
pub proof fn lemma_win_distance(d1: int, d2: int, b: SearchBoard)
    requires
        0 <= d1 < d2 <= MAX_DEPTH,
    ensures
        state_value(Some(Cell::Black), d1) > state_value(Some(Cell::Black), d2) > 0,
        state_value(Some(Cell::White), d1) < state_value(Some(Cell::White), d2) < 0,
        state_value(Some(Cell::White), d2) <= board_eval(b) <= state_value(Some(Cell::Black), d2),
{
}

pub fn sb_state_value(board: &SearchBoard, depth: usize) -> (v: i32)
    requires
        depth <= 1000,
    ensures
        v == state_value(winner_of(*board), depth as int),
{
    match board.get_winner() {
        Some(Cell::Black) => MAX_VALUE - depth as i32,
        Some(Cell::White) => MIN_VALUE + depth as i32,
        _ => 0,
    }
}

// --- What the search keeps true of its board ------------------------------

/// Counts that drifted from a full rescan by at most `d` moves: a full scan
/// lies in `[0, 1444]` and a move without captures changes a count by at
/// most 68 (a capture rescans).
pub open spec fn drift_ok(pc: PatternCounts, d: int) -> bool {
    forall|k: PatternKind| -68 * d <= #[trigger] pc.count(k) <= 1444 + 68 * d
}

/// A board the search can work on `d` plies below a position whose counts
/// were a full rescan: colours set, capture and move counters with room,
/// the stone total right and the formation counts within their drift.
pub open spec fn engine_ok(b: SearchBoard, d: int) -> bool {
    &&& 0 <= d <= MAX_DEPTH + 1
    &&& b.current != Cell::Empty
    &&& b.opponent == b.current.other()
    &&& b.captures[1] <= 1000 + 4 * d
    &&& b.captures[2] <= 1000 + 4 * d
    &&& b.move_count <= 1_000_000 + d
    &&& b.total_stones == stone_count(b.grid())
    &&& drift_ok(b.black_patterns, d)
    &&& drift_ok(b.white_patterns, d)
}

proof fn lemma_minus_count(a: PatternCounts, b: PatternCounts, kk: PatternKind)
    requires
        i32::MIN <= a.count(kk) - b.count(kk) <= i32::MAX,
    ensures
        a.minus(b).count(kk) == a.count(kk) - b.count(kk),
{
}

proof fn lemma_shifted_count(held: PatternCounts, d: PatternCounts, kk: PatternKind)
    requires
        i32::MIN <= held.count(kk) + d.count(kk) <= i32::MAX,
    ensures
        held.shifted(d, 1).count(kk) == held.count(kk) + d.count(kk),
{
}

/// One move keeps the counts within one more move's drift.
proof fn lemma_drift_step(before: SearchBoard, r: int, c: int, after: SearchBoard, info: UndoInfo, d: int, black: bool)
    requires
        on_board(r, c),
        0 <= d <= 20,
        make_move_post(before, r, c, after, info),
        drift_ok(if black { before.black_patterns } else { before.white_patterns }, d),
    ensures
        drift_ok(if black { after.black_patterns } else { after.white_patterns }, d + 1),
{
    let g = before.grid();
    let g2 = after.grid();
    let held = if black { before.black_patterns } else { before.white_patterns };
    let now = if black { after.black_patterns } else { after.white_patterns };
    let delta = if black { info.delta_black } else { info.delta_white };
    let k = captures_before(g, r, c, before.current, before.opponent, 8);
    lemma_local_counts_within(g, black, r, c);
    lemma_local_counts_within(g2, black, r, c);
    lemma_full_counts_within(g2, black);
    assert forall|kk: PatternKind| -68 * (d + 1) <= #[trigger] now.count(kk) <= 1444 + 68 * (d + 1) by {
        assert(-68 * d <= held.count(kk) <= 1444 + 68 * d);
        if k == 0 {
            let lo = local_counts(g, black, r, c);
            let hi = local_counts(g2, black, r, c);
            assert(0 <= lo.count(kk) <= 68 && 0 <= hi.count(kk) <= 68);
            lemma_minus_count(hi, lo, kk);
            lemma_shifted_count(held, delta, kk);
        } else {
            let full = full_counts(g2, black);
            assert(0 <= full.count(kk) <= 1444);
            lemma_minus_count(full, held, kk);
            lemma_shifted_count(held, delta, kk);
        }
    }
}

/// Boards that agree on every cell and every field are equal.
proof fn lemma_board_ext(a: SearchBoard, b: SearchBoard)
    requires
        a.grid() == b.grid(),
        a.current == b.current,
        a.opponent == b.opponent,
        a.captures == b.captures,
        a.hash == b.hash,
        a.move_count == b.move_count,
        a.last_move == b.last_move,
        a.total_stones == b.total_stones,
        a.black_patterns == b.black_patterns,
        a.white_patterns == b.white_patterns,
    ensures
        a == b,
{
    assert forall|r: int| 0 <= r < 19 implies #[trigger] a.cells[r] == b.cells[r] by {
        assert forall|c: int| 0 <= c < 19 implies a.cells[r][c] == b.cells[r][c] by {
            assert(on_board(r, c));
            assert(a.grid()(r, c) == a.cells[r][c]);
            assert(b.grid()(r, c) == b.cells[r][c]);
            assert(a.grid()(r, c) == b.grid()(r, c));
        }
        assert(a.cells[r] =~= b.cells[r]);
    }
    assert(a.cells =~= b.cells);
}

impl SearchBoard {
    /// The formation counts of `player`.
    pub fn patterns_of(&self, player: Cell) -> (p: PatternCounts)
        ensures
            p == if player == Cell::Black {
                self.black_patterns
            } else {
                self.white_patterns
            },
    {
        if player == Cell::Black {
            self.black_patterns
        } else {
            self.white_patterns
        }
    }

    /// Pass: the other side moves next. Played twice it changes nothing.
    pub fn make_null_move(&mut self)
        ensures
            *final(self) == null_board(*old(self)),
    {
        let z = crate::search_board::moves::zobrist();
        let c = self.current;
        self.current = self.opponent;
        self.opponent = c;
        self.hash = self.hash ^ z.player;
    }

    /// How many pairs the side to move would capture by playing `(r, c)`.
    pub fn capture_count_at(&self, r: usize, c: usize) -> (n: usize)
        requires
            r < 19,
            c < 19,
            self.current != Cell::Empty,
            self.opponent == self.current.other(),
        ensures
            n == captures_before(self.grid(), r as int, c as int, self.current, self.opponent, 8),
            n <= 8,
    {
        let mut n: usize = 0;
        let mut d: usize = 0;
        while d < 8
            invariant
                0 <= d <= 8,
                r < 19,
                c < 19,
                self.current != Cell::Empty,
                self.opponent == self.current.other(),
                n == captures_before(self.grid(), r as int, c as int, self.current, self.opponent, d as int),
                n <= d,
            decreases 8 - d,
        {
            let (dr, dc) = all_dir_at(d);
            if self.can_capture_at(r, c, dr, dc, self.current) {
                n += 1;
            }
            d += 1;
        }
        n
    }

    /// No empty cell of the board would capture more than four pairs for the
    /// side to move.
    pub fn captures_all_small(&self) -> (ok: bool)
        requires
            self.current != Cell::Empty,
            self.opponent == self.current.other(),
        ensures
            ok == all_small(*self),
    {
        let mut r: usize = 0;
        while r < 19
            invariant
                0 <= r <= 19,
                self.current != Cell::Empty,
                self.opponent == self.current.other(),
                forall|x: int, y: int|
                    0 <= x < r && 0 <= y < 19 ==> #[trigger] captures_before(self.grid(), x, y, self.current, self.opponent, 8)
                        <= 4,
            decreases 19 - r,
        {
            let mut c: usize = 0;
            while c < 19
                invariant
                    0 <= r < 19,
                    0 <= c <= 19,
                    self.current != Cell::Empty,
                    self.opponent == self.current.other(),
                    forall|x: int, y: int|
                        (0 <= x < r && 0 <= y < 19) || (x == r && 0 <= y < c) ==> #[trigger] captures_before(
                            self.grid(),
                            x,
                            y,
                            self.current,
                            self.opponent,
                            8,
                        ) <= 4,
                decreases 19 - c,
            {
                if self.capture_count_at(r, c) > 4 {
                    assert(on_board(r as int, c as int));
                    return false;
                }
                c += 1;
            }
            r += 1;
        }
        true
    }
}

/// The child of a move from a board the search can work on is one too, a
/// ply further down.
proof fn lemma_child_ok(before: SearchBoard, r: int, c: int, mid: SearchBoard, info: UndoInfo, d: int)
    requires
        engine_ok(before, d),
        d + 1 <= MAX_DEPTH + 1,
        on_board(r, c),
        captures_before(before.grid(), r, c, before.current, before.opponent, 8) <= 4,
        make_move_post(before, r, c, mid, info),
        mid.total_stones == stone_count(mid.grid()),
    ensures
        engine_ok(mid, d + 1),
{
    lemma_drift_step(before, r, c, mid, info, d, true);
    lemma_drift_step(before, r, c, mid, info, d, false);
    assert(mid.captures[1] <= 1000 + 4 * (d + 1));
    assert(mid.captures[2] <= 1000 + 4 * (d + 1));
}

/// Counts within a few moves' drift are bounded and fit the evaluation and
/// the move ordering.
proof fn lemma_ok_bounds(b: SearchBoard, d: int)
    requires
        engine_ok(b, d),
    ensures
        b.counts_bounded(),
        counts_modest(b.black_patterns),
        counts_modest(b.white_patterns),
        b.black_patterns.scorable(),
        b.white_patterns.scorable(),
        b.captures[b.current.slot()] <= i32::MAX - 8,
        b.move_count < usize::MAX,
{
    assert forall|k: PatternKind| -3000 <= #[trigger] b.black_patterns.count(k) <= 3000 by {
        assert(-68 * d <= b.black_patterns.count(k) <= 1444 + 68 * d);
    }
    assert forall|k: PatternKind| -3000 <= #[trigger] b.white_patterns.count(k) <= 3000 by {
        assert(-68 * d <= b.white_patterns.count(k) <= 1444 + 68 * d);
    }
}

/// Taking back a move restores the board exactly.
proof fn lemma_child_restored(
    before: SearchBoard,
    r: int,
    c: int,
    mid: SearchBoard,
    info: UndoInfo,
    after: SearchBoard,
    d: int,
)
    requires
        engine_ok(before, d),
        on_board(r, c),
        before.grid()(r, c) == Cell::Empty,
        captures_before(before.grid(), r, c, before.current, before.opponent, 8) <= 4,
        make_move_post(before, r, c, mid, info),
        undo_post(mid, info, after),
    ensures
        after == before,
{
    lemma_ok_bounds(before, d);
    lemma_undo_restores_make(before, r, c, mid, info, after);
    lemma_board_ext(after, before);
}

/// The table of a search: well formed, every stored value within bounds.
pub open spec fn tt_ok(tt: ShardedTT) -> bool {
    &&& tt.wf()
    &&& forall|i: int|
        0 <= i < tt.slots@.len() ==> (#[trigger] tt.slots@[i] matches Some(e) ==> -200_000 <= e.value <= 200_000)
}

/// A search value: within the values the engine produces.
pub open spec fn value_ok(v: int) -> bool {
    -200_000 <= v <= 200_000
}

/// The position of the first `m` in `v` at or after `from`.
fn find_from(v: &Vec<(usize, usize)>, from: usize, m: (usize, usize)) -> (r: Option<usize>)
    requires
        from <= v.len(),
    ensures
        match r {
            Some(p) => from <= p < v.len() && v@[p as int] == m && forall|q: int|
                from <= q < p ==> #[trigger] v@[q] != m,
            None => forall|q: int| from <= q < v.len() ==> #[trigger] v@[q] != m,
        },
        match r {
            Some(p) => first_from(v@, from as int, m) == Some(p as int),
            None => first_from(v@, from as int, m) is None,
        },
{
    let mut i = from;
    while i < v.len()
        invariant
            from <= i <= v.len(),
            forall|q: int| from <= q < i ==> #[trigger] v@[q] != m,
            first_from(v@, from as int, m) == first_from(v@, i as int, m),
        decreases v.len() - i,
    {
        if v[i].0 == m.0 && v[i].1 == m.1 {
            return Some(i);
        }
        i += 1;
    }
    None
}

/// Exchange two entries.
fn swap_at(v: &mut Vec<(usize, usize)>, a: usize, b: usize)
    requires
        a < old(v).len(),
        b < old(v).len(),
    ensures
        final(v)@ == old(v)@.update(a as int, old(v)@[b as int]).update(b as int, old(v)@[a as int]),
{
    let x = v[a];
    let y = v[b];
    v.set(a, y);
    v.set(b, x);
}

/// `m` followed by `rest`.
fn prepend(m: (usize, usize), rest: Vec<(usize, usize)>) -> (v: Vec<(usize, usize)>)
    ensures
        v@ == seq![m] + rest@,
{
    let mut v: Vec<(usize, usize)> = Vec::new();
    v.push(m);
    let mut i: usize = 0;
    while i < rest.len()
        invariant
            0 <= i <= rest.len(),
            v@ == seq![m] + rest@.take(i as int),
        decreases rest.len() - i,
    {
        v.push(rest[i]);
        proof {
            assert(rest@.take(i + 1) =~= rest@.take(i as int).push(rest@[i as int]));
        }
        i += 1;
    }
    proof {
        assert(rest@.take(rest.len() as int) =~= rest@);
    }
    v
}

// --- The search ------------------------------------------------------------

/// What every search call keeps of its board, table and window.
pub open spec fn search_args(b: SearchBoard, tt: ShardedTT, alpha: i32, beta: i32, depth: int, max_depth: int) -> bool {
    &&& engine_ok(b, depth)
    &&& 0 <= depth <= max_depth <= MAX_DEPTH
    &&& tt_ok(tt)
    &&& -1_000_000 - depth <= alpha <= 1_000_000 + depth
    &&& -1_000_000 - depth <= beta <= 1_000_000 + depth
}

/// Every move of a line is a cell of the board.
pub open spec fn line_on_board(pv: Seq<(usize, usize)>) -> bool {
    forall|i: int| 0 <= i < pv.len() ==> #[trigger] pv[i].0 < 19 && pv[i].1 < 19
}

/// Storing a value within bounds keeps the table's values within bounds.
proof fn lemma_store_ok(before: ShardedTT, after: ShardedTT, hash: u64, e: SbEntry)
    requires
        tt_ok(before),
        value_ok(e.value as int),
        after.wf(),
        after.slots@ == before.slots@.update(before.place(hash), Some(e)),
    ensures
        tt_ok(after),
{
    let shard = hash & 63u64;
    let m = before.mask as u64;
    let slot = hash & m;
    assert(shard <= 63) by (bit_vector)
        requires
            shard == hash & 63u64,
    ;
    assert(slot <= m) by (bit_vector)
        requires
            slot == hash & m,
    ;
    let size = before.mask + 1;
    assert(shard * size + slot < 64 * size) by (nonlinear_arith)
        requires
            shard <= 63,
            slot < size,
    ;
    assert forall|i: int| 0 <= i < after.slots@.len() implies (#[trigger] after.slots@[i] matches Some(x) ==> -200_000
        <= x.value <= 200_000) by {
        if i != before.place(hash) {
            assert(after.slots@[i] == before.slots@[i]);
        }
    }
}

// --- What the search computes ----------------------------------------------

/// Where `hash` is kept in a table of shards of `mask + 1` slots.
pub open spec fn tt_place(mask: usize, hash: u64) -> int {
    shard_of(hash) * (mask + 1) + slot_in(hash, mask)
}

/// What a lookup of `hash` finds in the table contents `slots`.
pub open spec fn found_in(slots: Seq<Option<SbEntry>>, mask: usize, hash: u64) -> Option<SbEntry> {
    match slots[tt_place(mask, hash)] {
        Some(e) => if e.hash == hash {
            Some(e)
        } else {
            None
        },
        None => None,
    }
}

/// What a node's table entry does for the window `(alpha, beta)` with
/// `remaining` plies to search: the value that settles the node, if any,
/// and the window narrowed by a bound searched deep enough.
pub open spec fn probe(found: Option<SbEntry>, alpha: i32, beta: i32, remaining: int) -> (Option<i32>, i32, i32) {
    match found {
        Some(e) => if e.depth_remaining >= remaining {
            if e.flag == TTFlag::Exact {
                (Some(e.value), alpha, beta)
            } else {
                let a = if e.flag == TTFlag::LowerBound && e.value > alpha {
                    e.value
                } else {
                    alpha
                };
                let b = if e.flag == TTFlag::UpperBound && e.value < beta {
                    e.value
                } else {
                    beta
                };
                if a >= b {
                    (Some(e.value), a, b)
                } else {
                    (None, a, b)
                }
            }
        } else {
            (None, alpha, beta)
        },
        None => (None, alpha, beta),
    }
}

/// The board after a pass: the other side moves next.
pub open spec fn null_board(b: SearchBoard) -> SearchBoard {
    SearchBoard { current: b.opponent, opponent: b.current, hash: b.hash ^ player_key(), ..b }
}

/// The board after the side to move plays `(r, c)`.
pub open spec fn child_of(b: SearchBoard, r: int, c: int) -> SearchBoard {
    (choose|p: (SearchBoard, UndoInfo)| #[trigger] make_move_post(b, r, c, p.0, p.1)).0
}

/// The formation counts the side to move gains by playing `(r, c)`.
pub open spec fn move_gain(b: SearchBoard, r: int, c: int) -> PatternCounts {
    let g = b.grid();
    let k = captures_before(g, r, c, b.current, b.opponent, 8);
    let g2 = after_grid(g, r, c, b.current, b.opponent, 8);
    if b.current == Cell::Black {
        move_delta(g, g2, r, c, k, b.black_patterns, true)
    } else {
        move_delta(g, g2, r, c, k, b.white_patterns, false)
    }
}

/// The formation counts of `player`.
pub open spec fn counts_of(b: SearchBoard, player: Cell) -> PatternCounts {
    if player == Cell::Black {
        b.black_patterns
    } else {
        b.white_patterns
    }
}

/// No empty cell of the board captures more than four pairs for the side to
/// move.
pub open spec fn all_small(b: SearchBoard) -> bool {
    forall|x: int, y: int| on_board(x, y) ==> #[trigger] captures_before(b.grid(), x, y, b.current, b.opponent, 8) <= 4
}

/// The ordering keys of the candidates of a node at ply `depth`.
pub open spec fn order_keys(b: SearchBoard, depth: int) -> Seq<i32> {
    candidates(b, radius_at(depth)).map_values(|m: (usize, usize)| order_key(b, m, depth))
}

/// `s` is the ordered candidate list of a node at ply `depth`.
pub open spec fn cand_post(b: SearchBoard, depth: int, s: Seq<(usize, usize)>) -> bool {
    &&& b.total_stones == 0 ==> s == seq![(9usize, 9usize)]
    &&& b.total_stones != 0 ==> stably_sorted(s, candidates(b, radius_at(depth)), order_keys(b, depth))
}

/// The ordered candidate list of a node at ply `depth`.
pub open spec fn cand_list(b: SearchBoard, depth: int) -> Seq<(usize, usize)> {
    choose|s: Seq<(usize, usize)>| cand_post(b, depth, s)
}

/// The first position at or after `i` holding `m`.
pub open spec fn first_from(v: Seq<(usize, usize)>, i: int, m: (usize, usize)) -> Option<int>
    decreases v.len() - i,
{
    if i < 0 || i >= v.len() {
        None
    } else if v[i] == m {
        Some(i)
    } else {
        first_from(v, i + 1, m)
    }
}

/// Bring `m`, where it is listed at or after `front`, to position `front`.
pub open spec fn bring_front(v: Seq<(usize, usize)>, front: int, m: Option<(usize, usize)>) -> (Seq<(usize, usize)>, int) {
    match m {
        Some(mv) => match first_from(v, front, mv) {
            Some(p) => (v.update(front, v[p]).update(p, v[front]), front + 1),
            None => (v, front),
        },
        None => (v, front),
    }
}

/// Killer `k` of ply `ply`; none beyond the table.
pub open spec fn killer_at(h: MoveHeuristics, ply: int, k: int) -> Option<(usize, usize)> {
    if 0 <= ply < MAX_PLY {
        h.killers[ply][k]
    } else {
        None
    }
}

/// The moves of a node in the order they are searched: the table's move,
/// then the two killers, then the rest; capped deep in the tree.
pub open spec fn node_order(
    v: Seq<(usize, usize)>,
    tt_move: Option<(usize, usize)>,
    h: MoveHeuristics,
    depth: int,
) -> Seq<(usize, usize)> {
    let a = bring_front(v, 0, tt_move);
    let b = bring_front(a.0, a.1, killer_at(h, depth, 0));
    let c = bring_front(b.0, b.1, killer_at(h, depth, 1));
    if depth >= CANDIDATE_CAP_DEPTH {
        let keep = if c.1 > CANDIDATE_CAP {
            c.1
        } else {
            CANDIDATE_CAP as int
        };
        if keep < c.0.len() {
            c.0.take(keep)
        } else {
            c.0
        }
    } else {
        c.0
    }
}

/// The heuristics after `mv` caused a cutoff at `ply` with `remaining` plies
/// left: the newest killer of the ply, and the history count grown by the
/// square of the plies left, the table halved above the ceiling.
pub open spec fn cutoff_post(h: MoveHeuristics, ply: int, mv: (usize, usize), remaining: int, n: MoveHeuristics) -> bool {
    &&& forall|p: int| 0 <= p < MAX_PLY && p != ply ==> #[trigger] n.killers[p] == h.killers[p]
    &&& (0 <= ply < MAX_PLY && h.killers[ply][0] != Some(mv)) ==> (n.killers[ply][0] == Some(mv)
        && n.killers[ply][1] == h.killers[ply][0])
    &&& !(0 <= ply < MAX_PLY && h.killers[ply][0] != Some(mv)) ==> n.killers == h.killers
    &&& ({
        let cell = mv.0 * 19 + mv.1;
        let bumped = if h.history[cell] + remaining * remaining > u32::MAX {
            u32::MAX as int
        } else {
            h.history[cell] + remaining * remaining
        };
        forall|i: int|
            0 <= i < 361 ==> #[trigger] n.history[i] == {
                let v = if i == cell {
                    bumped
                } else {
                    h.history[i] as int
                };
                if bumped > HISTORY_CEILING {
                    v / 2
                } else {
                    v
                }
            }
    })
}

/// The heuristics after a cutoff.
pub open spec fn after_cutoff(h: MoveHeuristics, ply: int, mv: (usize, usize), remaining: int) -> MoveHeuristics {
    choose|n: MoveHeuristics| cutoff_post(h, ply, mv, remaining, n)
}

/// A move the search tries: an empty cell that makes no double three and
/// captures at most four pairs.
pub open spec fn sb_playable(b: SearchBoard, m: (usize, usize)) -> bool {
    &&& m.0 < 19
    &&& m.1 < 19
    &&& b.grid()(m.0 as int, m.1 as int) == Cell::Empty
    &&& free_threes_made(b.grid(), b.current, m.0 as int, m.1 as int, 4) < 2
    &&& captures_before(b.grid(), m.0 as int, m.1 as int, b.current, b.opponent, 8) <= 4
}

/// The worst value for the side to move, below every search value.
pub open spec fn worst_for(is_max: bool) -> i32 {
    if is_max {
        (MIN_VALUE - 1) as i32
    } else {
        (MAX_VALUE + 1) as i32
    }
}

/// The game is over: someone won or the board is full.
pub open spec fn finished(b: SearchBoard) -> bool {
    winner_of(b).is_some() || b.total_stones >= 361
}

/// The side to move faces a five or a four.
pub open spec fn under_threat_of(b: SearchBoard) -> bool {
    let t = counts_of(b, b.opponent);
    t.five_rows > 0 || t.open_fours > 0 || t.block_fours > 0
}

/// Either side holds a five or a four.
pub open spec fn tactical_of(b: SearchBoard) -> bool {
    let o = counts_of(b, b.current);
    under_threat_of(b) || o.five_rows > 0 || o.open_fours > 0 || o.block_fours > 0
}

/// The best move a table entry remembers.
pub open spec fn tt_move_of(found: Option<SbEntry>) -> Option<(usize, usize)> {
    match found {
        Some(e) => e.best_move,
        None => None,
    }
}

/// A pass is tried: allowed, away from fours, with enough plies left.
pub open spec fn tries_null(b: SearchBoard, allow_null: bool, remaining: int) -> bool {
    allow_null && !tactical_of(b) && remaining >= NULL_MOVE_MIN_DEPTH
}

/// The search after a pass, with a null window at the bound of the side to
/// move, two plies shallower.
pub open spec fn null_probe(
    b: SearchBoard,
    a1: i32,
    b1: i32,
    is_max: bool,
    depth: int,
    max_depth: int,
    slots: Seq<Option<SbEntry>>,
    mask: usize,
    h: MoveHeuristics,
) -> (i32, Seq<(usize, usize)>, Seq<Option<SbEntry>>, MoveHeuristics) {
    if is_max {
        node_value(null_board(b), (b1 - 1) as i32, b1, false, depth + 1, max_depth - NULL_MOVE_REDUCTION, slots, mask, h, false)
    } else {
        node_value(null_board(b), a1, (a1 + 1) as i32, true, depth + 1, max_depth - NULL_MOVE_REDUCTION, slots, mask, h, false)
    }
}

/// The pass holds the window for the side to move.
pub open spec fn null_cuts(v: i32, a1: i32, b1: i32, is_max: bool) -> bool {
    (is_max && v >= b1) || (!is_max && v <= a1)
}

/// The search of a node's moves in order.
pub open spec fn node_moves(
    b: SearchBoard,
    a1: i32,
    b1: i32,
    is_max: bool,
    depth: int,
    max_depth: int,
    slots: Seq<Option<SbEntry>>,
    mask: usize,
    h: MoveHeuristics,
    tt_move: Option<(usize, usize)>,
) -> (i32, Option<(usize, usize)>, Seq<(usize, usize)>, bool, i32, Seq<Option<SbEntry>>, MoveHeuristics) {
    moves_value(
        b, node_order(cand_list(b, depth), tt_move, h, depth), 0, a1, b1, worst_for(is_max), None, Seq::empty(),
        true, false, is_max, depth, max_depth, under_threat_of(b), slots, mask, h,
    )
}

/// A searched node's result: its value and line, the table with the result
/// stored, and the heuristics.
pub open spec fn node_stored(
    b: SearchBoard,
    alpha: i32,
    remaining: int,
    mask: usize,
    m: (i32, Option<(usize, usize)>, Seq<(usize, usize)>, bool, i32, Seq<Option<SbEntry>>, MoveHeuristics),
) -> (i32, Seq<(usize, usize)>, Seq<Option<SbEntry>>, MoveHeuristics) {
    if !m.3 {
        (board_eval(b) as i32, Seq::empty(), m.5, m.6)
    } else {
        let flag = if m.0 <= alpha {
            TTFlag::UpperBound
        } else if m.0 >= m.4 {
            TTFlag::LowerBound
        } else {
            TTFlag::Exact
        };
        let entry = SbEntry { hash: b.hash, depth_remaining: remaining as usize, value: m.0, flag, best_move: m.1 };
        (m.0, m.2, m.5.update(tt_place(mask, b.hash), Some(entry)), m.6)
    }
}

/// Plies a move at position `idx` is searched shallower: late quiet moves
/// away from fours, with enough plies left.
pub open spec fn reduction_of(b: SearchBoard, mv: (usize, usize), idx: int, remaining: int, under: bool) -> int {
    let gain = move_gain(b, mv.0 as int, mv.1 as int);
    let k = captures_before(b.grid(), mv.0 as int, mv.1 as int, b.current, b.opponent, 8);
    let tactical = 2 * k > 0 || gain.five_rows > 0 || gain.open_fours > 0 || gain.block_fours > 0;
    if remaining >= LMR_MIN_DEPTH && idx >= LMR_MIN_MOVE && !tactical && !under {
        if idx >= LMR_DEEP_MOVE {
            2
        } else {
            1
        }
    } else {
        0
    }
}

/// The depth a reduced search stops at.
pub open spec fn reduced_to(max_depth: int, remaining: int, reduction: int) -> int {
    max_depth - if reduction < remaining - 1 {
        reduction
    } else {
        remaining - 1
    }
}

/// The value, principal variation, table contents and heuristics after the
/// search of node `b` at ply `depth` to ply `max_depth` for the window
/// `(alpha, beta)`, from table contents `slots` and heuristics `h`.
#[verifier::opaque]
pub open spec fn node_value(
    b: SearchBoard,
    alpha: i32,
    beta: i32,
    is_max: bool,
    depth: int,
    max_depth: int,
    slots: Seq<Option<SbEntry>>,
    mask: usize,
    h: MoveHeuristics,
    allow_null: bool,
) -> (i32, Seq<(usize, usize)>, Seq<Option<SbEntry>>, MoveHeuristics)
    decreases max_depth - depth, 2int, 0int,
{
    if finished(b) {
        (state_value(winner_of(b), depth) as i32, Seq::empty(), slots, h)
    } else if depth >= max_depth {
        (board_eval(b) as i32, Seq::empty(), slots, h)
    } else {
        let remaining = max_depth - depth;
        let found = found_in(slots, mask, b.hash);
        let p = probe(found, alpha, beta, remaining);
        if p.0 is Some {
            (p.0->0, Seq::empty(), slots, h)
        } else {
            let a1 = p.1;
            let b1 = p.2;
            let tn = tries_null(b, allow_null, remaining);
            let nr = if tn {
                if is_max {
                    node_value(null_board(b), (b1 - 1) as i32, b1, false, depth + 1, max_depth - NULL_MOVE_REDUCTION, slots, mask, h, false)
                } else {
                    node_value(null_board(b), a1, (a1 + 1) as i32, true, depth + 1, max_depth - NULL_MOVE_REDUCTION, slots, mask, h, false)
                }
            } else {
                (0i32, Seq::empty(), slots, h)
            };
            if tn && null_cuts(nr.0, a1, b1, is_max) {
                (nr.0, Seq::empty(), nr.2, nr.3)
            } else if depth <= SHALLOW_ORDER_DEPTH && !all_small(b) {
                (board_eval(b) as i32, Seq::empty(), nr.2, nr.3)
            } else {
                let m = moves_value(
                    b, node_order(cand_list(b, depth), tt_move_of(found), nr.3, depth), 0, a1, b1, worst_for(is_max),
                    None, Seq::empty(), true, false, is_max, depth, max_depth, under_threat_of(b), nr.2, mask, nr.3,
                );
                node_stored(b, alpha, remaining, mask, m)
            }
        }
    }
}

/// The moves of a node from position `i` of `cands` on, each searched in
/// turn until the window closes: the best value, its move and line, whether
/// any move was searched, the final `beta`, the table contents and the
/// heuristics.
#[verifier::opaque]
pub open spec fn moves_value(
    b: SearchBoard,
    cands: Seq<(usize, usize)>,
    i: int,
    alpha: i32,
    beta: i32,
    best: i32,
    best_move: Option<(usize, usize)>,
    best_pv: Seq<(usize, usize)>,
    first: bool,
    searched: bool,
    is_max: bool,
    depth: int,
    max_depth: int,
    under: bool,
    slots: Seq<Option<SbEntry>>,
    mask: usize,
    h: MoveHeuristics,
) -> (i32, Option<(usize, usize)>, Seq<(usize, usize)>, bool, i32, Seq<Option<SbEntry>>, MoveHeuristics)
    decreases max_depth - depth, 1int, cands.len() - i,
{
    if i < 0 || i >= cands.len() || depth >= max_depth {
        (best, best_move, best_pv, searched, beta, slots, h)
    } else {
        let mv = cands[i];
        if sb_playable(b, mv) {
            let r = child_value(b, mv, i, first, is_max, alpha, beta, depth, max_depth, under, slots, mask, h);
            let improves = if is_max {
                r.0 > best
            } else {
                r.0 < best
            };
            let best2 = if improves {
                r.0
            } else {
                best
            };
            let bm2 = if improves {
                Some(mv)
            } else {
                best_move
            };
            let pv2 = if improves {
                seq![mv] + r.1
            } else {
                best_pv
            };
            let alpha2 = if is_max && best2 > alpha {
                best2
            } else {
                alpha
            };
            let beta2 = if !is_max && best2 < beta {
                best2
            } else {
                beta
            };
            if alpha2 >= beta2 {
                (best2, bm2, pv2, true, beta2, r.2, after_cutoff(r.3, depth, mv, max_depth - depth))
            } else {
                moves_value(
                    b, cands, i + 1, alpha2, beta2, best2, bm2, pv2, false, true, is_max, depth, max_depth, under,
                    r.2, mask, r.3,
                )
            }
        } else {
            moves_value(
                b, cands, i + 1, alpha, beta, best, best_move, best_pv, first, searched, is_max, depth, max_depth,
                under, slots, mask, h,
            )
        }
    }
}

/// The search of move `mv` at position `idx` of a node's order: the first
/// move with the full window; the others with a null window, a late quiet
/// one shallower, and again deeper or wider where that beats the window.
#[verifier::opaque]
pub open spec fn child_value(
    b: SearchBoard,
    mv: (usize, usize),
    idx: int,
    first: bool,
    is_max: bool,
    alpha: i32,
    beta: i32,
    depth: int,
    max_depth: int,
    under: bool,
    slots: Seq<Option<SbEntry>>,
    mask: usize,
    h: MoveHeuristics,
) -> (i32, Seq<(usize, usize)>, Seq<Option<SbEntry>>, MoveHeuristics)
    decreases max_depth - depth, 0int, 0int,
{
    if depth >= max_depth {
        (0i32, Seq::empty(), slots, h)
    } else {
        let nb = child_of(b, mv.0 as int, mv.1 as int);
        let remaining = max_depth - depth;
        let reduction = reduction_of(b, mv, idx, remaining, under);
        let reduced = reduced_to(max_depth, remaining, reduction);
        if first {
            node_value(nb, alpha, beta, !is_max, depth + 1, max_depth, slots, mask, h, true)
        } else if is_max {
            let r1 = node_value(nb, alpha, (alpha + 1) as i32, false, depth + 1, reduced, slots, mask, h, true);
            let r2 = if reduction > 0 && r1.0 > alpha {
                node_value(nb, alpha, (alpha + 1) as i32, false, depth + 1, max_depth, r1.2, mask, r1.3, true)
            } else {
                r1
            };
            if r2.0 > alpha && r2.0 < beta {
                node_value(nb, alpha, beta, false, depth + 1, max_depth, r2.2, mask, r2.3, true)
            } else {
                r2
            }
        } else {
            let r1 = node_value(nb, (beta - 1) as i32, beta, true, depth + 1, reduced, slots, mask, h, true);
            let r2 = if reduction > 0 && r1.0 < beta {
                node_value(nb, (beta - 1) as i32, beta, true, depth + 1, max_depth, r1.2, mask, r1.3, true)
            } else {
                r1
            };
            if r2.0 < beta && r2.0 > alpha {
                node_value(nb, alpha, beta, true, depth + 1, max_depth, r2.2, mask, r2.3, true)
            } else {
                r2
            }
        }
    }
}

/// A finished game scores its result at its ply.
proof fn lemma_node_finished(
    b: SearchBoard, alpha: i32, beta: i32, is_max: bool, depth: int, max_depth: int,
    slots: Seq<Option<SbEntry>>, mask: usize, h: MoveHeuristics, allow_null: bool,
)
    requires
        finished(b),
    ensures
        node_value(b, alpha, beta, is_max, depth, max_depth, slots, mask, h, allow_null) == (
        state_value(winner_of(b), depth) as i32, Seq::<(usize, usize)>::empty(), slots, h),
{
    reveal(node_value);
}

/// The horizon scores the static evaluation.
proof fn lemma_node_horizon(
    b: SearchBoard, alpha: i32, beta: i32, is_max: bool, depth: int, max_depth: int,
    slots: Seq<Option<SbEntry>>, mask: usize, h: MoveHeuristics, allow_null: bool,
)
    requires
        !finished(b),
        depth >= max_depth,
    ensures
        node_value(b, alpha, beta, is_max, depth, max_depth, slots, mask, h, allow_null) == (
        board_eval(b) as i32, Seq::<(usize, usize)>::empty(), slots, h),
{
    reveal(node_value);
}

/// A table entry that settles the node gives its value.
proof fn lemma_node_settled(
    b: SearchBoard, alpha: i32, beta: i32, is_max: bool, depth: int, max_depth: int,
    slots: Seq<Option<SbEntry>>, mask: usize, h: MoveHeuristics, allow_null: bool,
)
    requires
        !finished(b),
        depth < max_depth,
        probe(found_in(slots, mask, b.hash), alpha, beta, max_depth - depth).0 is Some,
    ensures
        node_value(b, alpha, beta, is_max, depth, max_depth, slots, mask, h, allow_null) == (
        probe(found_in(slots, mask, b.hash), alpha, beta, max_depth - depth).0->0, Seq::<(usize, usize)>::empty(),
        slots, h),
{
    reveal(node_value);
}

/// A pass that holds the window cuts the node off with its value.
proof fn lemma_node_null_cut(
    b: SearchBoard, alpha: i32, beta: i32, is_max: bool, depth: int, max_depth: int,
    slots: Seq<Option<SbEntry>>, mask: usize, h: MoveHeuristics, allow_null: bool,
    nr: (i32, Seq<(usize, usize)>, Seq<Option<SbEntry>>, MoveHeuristics),
)
    requires
        !finished(b),
        depth < max_depth,
        probe(found_in(slots, mask, b.hash), alpha, beta, max_depth - depth).0 is None,
        tries_null(b, allow_null, max_depth - depth),
        nr == null_probe(
            b,
            probe(found_in(slots, mask, b.hash), alpha, beta, max_depth - depth).1,
            probe(found_in(slots, mask, b.hash), alpha, beta, max_depth - depth).2,
            is_max, depth, max_depth, slots, mask, h,
        ),
        null_cuts(
            nr.0,
            probe(found_in(slots, mask, b.hash), alpha, beta, max_depth - depth).1,
            probe(found_in(slots, mask, b.hash), alpha, beta, max_depth - depth).2,
            is_max,
        ),
    ensures
        node_value(b, alpha, beta, is_max, depth, max_depth, slots, mask, h, allow_null) == (
        nr.0, Seq::<(usize, usize)>::empty(), nr.2, nr.3),
{
    reveal(node_value);
}

/// What a node comes to once the table and the pass leave it open: the
/// static evaluation where ordering would capture more than four pairs, else
/// the search of its moves, stored.
proof fn lemma_node_open(
    b: SearchBoard, alpha: i32, beta: i32, is_max: bool, depth: int, max_depth: int,
    slots: Seq<Option<SbEntry>>, mask: usize, h: MoveHeuristics, allow_null: bool,
    nr: (i32, Seq<(usize, usize)>, Seq<Option<SbEntry>>, MoveHeuristics),
)
    requires
        !finished(b),
        depth < max_depth,
        probe(found_in(slots, mask, b.hash), alpha, beta, max_depth - depth).0 is None,
        tries_null(b, allow_null, max_depth - depth) ==> nr == null_probe(
            b,
            probe(found_in(slots, mask, b.hash), alpha, beta, max_depth - depth).1,
            probe(found_in(slots, mask, b.hash), alpha, beta, max_depth - depth).2,
            is_max, depth, max_depth, slots, mask, h,
        ) && !null_cuts(
            nr.0,
            probe(found_in(slots, mask, b.hash), alpha, beta, max_depth - depth).1,
            probe(found_in(slots, mask, b.hash), alpha, beta, max_depth - depth).2,
            is_max,
        ),
        !tries_null(b, allow_null, max_depth - depth) ==> nr == (0i32, Seq::<(usize, usize)>::empty(), slots, h),
    ensures
        depth <= SHALLOW_ORDER_DEPTH && !all_small(b) ==> node_value(
            b, alpha, beta, is_max, depth, max_depth, slots, mask, h, allow_null,
        ) == (board_eval(b) as i32, Seq::<(usize, usize)>::empty(), nr.2, nr.3),
        !(depth <= SHALLOW_ORDER_DEPTH && !all_small(b)) ==> node_value(
            b, alpha, beta, is_max, depth, max_depth, slots, mask, h, allow_null,
        ) == node_stored(
            b,
            alpha,
            max_depth - depth,
            mask,
            node_moves(
                b,
                probe(found_in(slots, mask, b.hash), alpha, beta, max_depth - depth).1,
                probe(found_in(slots, mask, b.hash), alpha, beta, max_depth - depth).2,
                is_max, depth, max_depth, nr.2, mask, nr.3, tt_move_of(found_in(slots, mask, b.hash)),
            ),
        ),
{
    reveal_with_fuel(node_value, 2);
    reveal_with_fuel(moves_value, 2);
}

/// Past the last move, the loop's state is its result.
proof fn lemma_moves_end(
    b: SearchBoard, cands: Seq<(usize, usize)>, i: int, alpha: i32, beta: i32, best: i32,
    best_move: Option<(usize, usize)>, best_pv: Seq<(usize, usize)>, first: bool, searched: bool, is_max: bool,
    depth: int, max_depth: int, under: bool, slots: Seq<Option<SbEntry>>, mask: usize, h: MoveHeuristics,
)
    requires
        i >= cands.len(),
    ensures
        moves_value(b, cands, i, alpha, beta, best, best_move, best_pv, first, searched, is_max, depth, max_depth,
            under, slots, mask, h) == (best, best_move, best_pv, searched, beta, slots, h),
{
    reveal(moves_value);
}

/// A move the search does not try leaves the loop's state.
proof fn lemma_moves_skip(
    b: SearchBoard, cands: Seq<(usize, usize)>, i: int, alpha: i32, beta: i32, best: i32,
    best_move: Option<(usize, usize)>, best_pv: Seq<(usize, usize)>, first: bool, searched: bool, is_max: bool,
    depth: int, max_depth: int, under: bool, slots: Seq<Option<SbEntry>>, mask: usize, h: MoveHeuristics,
)
    requires
        0 <= i < cands.len(),
        depth < max_depth,
        !sb_playable(b, cands[i]),
    ensures
        moves_value(b, cands, i, alpha, beta, best, best_move, best_pv, first, searched, is_max, depth, max_depth,
            under, slots, mask, h) == moves_value(b, cands, i + 1, alpha, beta, best, best_move, best_pv, first,
            searched, is_max, depth, max_depth, under, slots, mask, h),
{
    reveal(moves_value);
}

/// A move the search tries: its value joins the best, and either closes the
/// window, recording the cutoff, or the loop goes on.
proof fn lemma_moves_step(
    b: SearchBoard, cands: Seq<(usize, usize)>, i: int, alpha: i32, beta: i32, best: i32,
    best_move: Option<(usize, usize)>, best_pv: Seq<(usize, usize)>, first: bool, searched: bool, is_max: bool,
    depth: int, max_depth: int, under: bool, slots: Seq<Option<SbEntry>>, mask: usize, h: MoveHeuristics,
    r: (i32, Seq<(usize, usize)>, Seq<Option<SbEntry>>, MoveHeuristics),
    best2: i32, bm2: Option<(usize, usize)>, pv2: Seq<(usize, usize)>, alpha2: i32, beta2: i32,
)
    requires
        0 <= i < cands.len(),
        depth < max_depth,
        sb_playable(b, cands[i]),
        r == child_value(b, cands[i], i, first, is_max, alpha, beta, depth, max_depth, under, slots, mask, h),
        (if is_max { r.0 > best } else { r.0 < best }) ==> best2 == r.0 && bm2 == Some(cands[i]) && pv2 == seq![
            cands[i],
        ] + r.1,
        !(if is_max { r.0 > best } else { r.0 < best }) ==> best2 == best && bm2 == best_move && pv2 == best_pv,
        alpha2 == if is_max && best2 > alpha { best2 } else { alpha },
        beta2 == if !is_max && best2 < beta { best2 } else { beta },
    ensures
        alpha2 >= beta2 ==> moves_value(b, cands, i, alpha, beta, best, best_move, best_pv, first, searched, is_max,
            depth, max_depth, under, slots, mask, h) == (best2, bm2, pv2, true, beta2, r.2, after_cutoff(
            r.3,
            depth,
            cands[i],
            max_depth - depth,
        )),
        alpha2 < beta2 ==> moves_value(b, cands, i, alpha, beta, best, best_move, best_pv, first, searched, is_max,
            depth, max_depth, under, slots, mask, h) == moves_value(b, cands, i + 1, alpha2, beta2, best2, bm2, pv2,
            false, true, is_max, depth, max_depth, under, r.2, mask, r.3),
{
    reveal_with_fuel(moves_value, 2);
    reveal_with_fuel(child_value, 2);
}

/// The first move of a node is searched with the full window.
proof fn lemma_child_first(
    b: SearchBoard, mv: (usize, usize), idx: int, is_max: bool, alpha: i32, beta: i32, depth: int,
    max_depth: int, under: bool, slots: Seq<Option<SbEntry>>, mask: usize, h: MoveHeuristics,
)
    requires
        depth < max_depth,
    ensures
        child_value(b, mv, idx, true, is_max, alpha, beta, depth, max_depth, under, slots, mask, h) == node_value(
            child_of(b, mv.0 as int, mv.1 as int), alpha, beta, !is_max, depth + 1, max_depth, slots, mask, h,
            true,
        ),
{
    reveal_with_fuel(child_value, 2);
    reveal_with_fuel(node_value, 2);
}

/// A later move: a null window, shallower where reduced, then deeper and
/// wider where it beats the window.
proof fn lemma_child_later(
    b: SearchBoard, mv: (usize, usize), idx: int, is_max: bool, alpha: i32, beta: i32, depth: int,
    max_depth: int, under: bool, slots: Seq<Option<SbEntry>>, mask: usize, h: MoveHeuristics,
    lo: i32, hi: i32,
    r1: (i32, Seq<(usize, usize)>, Seq<Option<SbEntry>>, MoveHeuristics),
    r2: (i32, Seq<(usize, usize)>, Seq<Option<SbEntry>>, MoveHeuristics),
)
    requires
        depth < max_depth,
        lo == (if is_max { alpha } else { (beta - 1) as i32 }),
        hi == (if is_max { (alpha + 1) as i32 } else { beta }),
        r1 == node_value(
            child_of(b, mv.0 as int, mv.1 as int), lo, hi, !is_max, depth + 1, reduced_to(
                max_depth,
                max_depth - depth,
                reduction_of(b, mv, idx, max_depth - depth, under),
            ), slots, mask, h, true,
        ),
        (reduction_of(b, mv, idx, max_depth - depth, under) > 0 && (if is_max { r1.0 > alpha } else { r1.0 < beta }))
            ==> r2 == node_value(
            child_of(b, mv.0 as int, mv.1 as int), lo, hi, !is_max, depth + 1, max_depth, r1.2, mask, r1.3, true,
        ),
        !(reduction_of(b, mv, idx, max_depth - depth, under) > 0 && (if is_max { r1.0 > alpha } else { r1.0 < beta }))
            ==> r2 == r1,
    ensures
        child_value(b, mv, idx, false, is_max, alpha, beta, depth, max_depth, under, slots, mask, h) == (if r2.0
            > alpha && r2.0 < beta {
            node_value(
                child_of(b, mv.0 as int, mv.1 as int), alpha, beta, !is_max, depth + 1, max_depth, r2.2, mask, r2.3,
                true,
            )
        } else {
            r2
        }),
{
    reveal_with_fuel(child_value, 2);
    reveal_with_fuel(node_value, 2);
}

/// A move gives one board: the one `child_of` names.
proof fn lemma_child_of(b: SearchBoard, r: int, c: int, n: SearchBoard, info: UndoInfo)
    requires
        make_move_post(b, r, c, n, info),
    ensures
        n == child_of(b, r, c),
{
    assert(make_move_post(b, r, c, (n, info).0, (n, info).1));
    let p = choose|p: (SearchBoard, UndoInfo)| #[trigger] make_move_post(b, r, c, p.0, p.1);
    assert(make_move_post(b, r, c, p.0, p.1));
    let m = p.0;
    assert(n.captures@ =~= m.captures@);
    assert(n.captures =~= m.captures);
    lemma_board_ext(n, m);
}

/// There is one ordered candidate list.
proof fn lemma_cand_list(b: SearchBoard, depth: int, s: Seq<(usize, usize)>)
    requires
        cand_post(b, depth, s),
    ensures
        s == cand_list(b, depth),
{
    let c = cand_list(b, depth);
    assert(cand_post(b, depth, c));
    if b.total_stones != 0 {
        let items = candidates(b, radius_at(depth));
        let keys = order_keys(b, depth);
        let o1 = choose|order: Seq<usize>| #[trigger] crate::sorting::arranged(s, items, keys, order);
        assert(crate::sorting::arranged(s, items, keys, o1));
        let o2 = choose|order: Seq<usize>| #[trigger] crate::sorting::arranged(c, items, keys, order);
        assert(crate::sorting::arranged(c, items, keys, o2));
        crate::sorting::lemma_stable_order_unique(o1, o2, keys);
    }
}

/// The heuristics after a cutoff are the ones `after_cutoff` names.
proof fn lemma_after_cutoff(h: MoveHeuristics, ply: int, mv: (usize, usize), remaining: int, n: MoveHeuristics)
    requires
        cutoff_post(h, ply, mv, remaining, n),
    ensures
        n == after_cutoff(h, ply, mv, remaining),
{
    let m = after_cutoff(h, ply, mv, remaining);
    assert(cutoff_post(h, ply, mv, remaining, m));
    assert forall|p: int| 0 <= p < MAX_PLY implies #[trigger] n.killers[p] == m.killers[p] by {
        if p == ply && h.killers[ply][0] != Some(mv) {
            assert(n.killers[p] =~= m.killers[p]);
        }
    }
    assert(n.killers =~= m.killers);
    assert forall|i: int| 0 <= i < 361 implies #[trigger] n.history[i] == m.history[i] by {}
    assert(n.history =~= m.history);
}

/// Principal-variation alpha-beta below `board` for the window
/// `(alpha, beta)`, from ply `depth` to ply `max_depth`, with no time limit.
/// Returns the value (Black's view; a win nearer the root scores further
/// from zero), the principal variation, and `false`: the search always
/// completes. Finished games score their result and the horizon the static
/// evaluation; a table entry searched deep enough answers or narrows the
/// window; away from fours a pass searched two plies shallower may cut the
/// node off; the table's move and the killers go first, deep nodes keep a
/// capped number of candidates, double threes are skipped, late quiet moves
/// are searched shallower and with a null window first, and the result is
/// stored in the table. `node_value` states all of it.
#[verifier::spinoff_prover]
#[verifier::rlimit(60)]
pub fn sb_alphabeta(
    board: &mut SearchBoard,
    alpha: i32,
    beta: i32,
    is_max_player: bool,
    depth: usize,
    max_depth: usize,
    stats: &mut SearchStats,
    tt: &mut ShardedTT,
    heur: &mut MoveHeuristics,
    allow_null: bool,
) -> (res: (i32, Vec<(usize, usize)>, bool))
    requires
        search_args(*old(board), *old(tt), alpha, beta, depth as int, max_depth as int),
    ensures
        final(stats).max_depth == old(stats).max_depth,
        *final(board) == *old(board),
        tt_ok(*final(tt)),
        final(tt).mask == old(tt).mask,
        value_ok(res.0 as int),
        line_on_board(res.1@),
        !res.2,
        (res.0, res.1@, final(tt).slots@, *final(heur)) == node_value(
            *old(board),
            alpha,
            beta,
            is_max_player,
            depth as int,
            max_depth as int,
            old(tt).slots@,
            old(tt).mask,
            *old(heur),
            allow_null,
        ),
    decreases max_depth - depth, 2int,
{
    let ghost b0 = *board;
    let ghost slots0 = tt.slots@;
    let ghost h0 = *heur;
    stats.nodes_visited = add_count(stats.nodes_visited, 1);
    proof {
        lemma_ok_bounds(*board, depth as int);
    }
    if board.is_terminal() {
        proof {
            lemma_node_finished(b0, alpha, beta, is_max_player, depth as int, max_depth as int, slots0, tt.mask, h0, allow_null);
        }
        return (sb_state_value(board, depth), Vec::new(), false);
    }
    if depth == max_depth {
        proof {
            lemma_node_horizon(b0, alpha, beta, is_max_player, depth as int, max_depth as int, slots0, tt.mask, h0, allow_null);
        }
        return (board.sb_heuristic_evaluation(), Vec::new(), false);
    }
    let ghost b_in = beta;
    let mut alpha = alpha;
    let mut beta = beta;
    let depth_remaining = max_depth - depth;
    let orig_alpha = alpha;
    let ghost found = found_in(slots0, tt.mask, b0.hash);
    let ghost p = probe(found, alpha, beta, depth_remaining as int);

    // Transposition table.
    let mut tt_best_move: Option<(usize, usize)> = None;
    if let Some(entry) = tt.lookup(board.hash) {
        proof {
            lemma_place_in_range(*tt, board.hash);
        }
        assert(tt.slots@[tt.place(board.hash)] == Some(entry));
        tt_best_move = entry.best_move;
        if entry.depth_remaining >= depth_remaining {
            stats.tt_hits = add_count(stats.tt_hits, 1);
            match entry.flag {
                TTFlag::Exact => {
                    proof {
                        lemma_node_settled(b0, orig_alpha, b_in, is_max_player, depth as int, max_depth as int, slots0, tt.mask, h0, allow_null);
                    }
                    return (entry.value, Vec::new(), false);
                },
                TTFlag::LowerBound => {
                    if entry.value > alpha {
                        alpha = entry.value;
                    }
                },
                TTFlag::UpperBound => {
                    if entry.value < beta {
                        beta = entry.value;
                    }
                },
            }
            if alpha >= beta {
                proof {
                    lemma_node_settled(b0, orig_alpha, b_in, is_max_player, depth as int, max_depth as int, slots0, tt.mask, h0, allow_null);
                }
                return (entry.value, Vec::new(), false);
            }
        }
    }
    assert(p.0 is None && p.1 == alpha && p.2 == beta);

    // Facing a four every move is forced, so nothing is reduced.
    let threats = board.patterns_of(board.opponent);
    let under_threat = threats.five_rows > 0 || threats.open_fours > 0 || threats.block_fours > 0;
    let own = board.patterns_of(board.current);
    let tactical_position = under_threat || own.five_rows > 0 || own.open_fours > 0 || own.block_fours > 0;

    // Null move: hand the turn over and see whether the position still
    // holds the window.
    let ghost mut nr: (i32, Seq<(usize, usize)>, Seq<Option<SbEntry>>, MoveHeuristics) = (
    0i32, Seq::empty(), slots0, h0);
    assert(tactical_position == tactical_of(b0));
    assert(under_threat == under_threat_of(b0));
    if allow_null && !tactical_position && depth_remaining >= NULL_MOVE_MIN_DEPTH {
        let probe_depth = max_depth - NULL_MOVE_REDUCTION;
        board.make_null_move();
        assert(*board == null_board(b0));
        let (null_val, null_pv, _) = if is_max_player {
            sb_alphabeta(board, beta - 1, beta, false, depth + 1, probe_depth, stats, tt, heur, false)
        } else {
            sb_alphabeta(board, alpha, alpha + 1, true, depth + 1, probe_depth, stats, tt, heur, false)
        };
        proof {
            nr = (null_val, null_pv@, tt.slots@, *heur);
        }
        assert(nr == null_probe(b0, alpha, beta, is_max_player, depth as int, max_depth as int, slots0, tt.mask, h0));
        board.make_null_move();
        proof {
            lemma_xor_laws(b0.hash, player_key(), player_key());
        }
        assert(*board == b0);
        if is_max_player && null_val >= beta {
            proof {
                lemma_node_null_cut(b0, orig_alpha, b_in, is_max_player, depth as int, max_depth as int, slots0, tt.mask, h0, allow_null, nr);
            }
            return (null_val, Vec::new(), false);
        }
        if !is_max_player && null_val <= alpha {
            proof {
                lemma_node_null_cut(b0, orig_alpha, b_in, is_max_player, depth as int, max_depth as int, slots0, tt.mask, h0, allow_null, nr);
            }
            return (null_val, Vec::new(), false);
        }
    }
    let ghost h1 = *heur;
    assert(nr.2 == tt.slots@ && nr.3 == h1);
    proof {
        lemma_node_open(b0, orig_alpha, b_in, is_max_player, depth as int, max_depth as int, slots0, tt.mask, h0, allow_null, nr);
    }

    if depth <= crate::constants::SHALLOW_ORDER_DEPTH && !board.captures_all_small() {
        // Ordering would play a move capturing more than four pairs at once.
        return (board.sb_heuristic_evaluation(), Vec::new(), false);
    }
    let mut candidates = board.get_candidate_moves(depth);
    proof {
        lemma_cand_list(b0, depth as int, candidates@);
    }
    stats.internal_nodes = add_count(stats.internal_nodes, 1);
    stats.total_children = add_count(stats.total_children, candidates.len() as u64);

    // The table's move first, then this ply's killers.
    let ghost c0 = candidates@;
    let mut front: usize = 0;
    if let Some(tt_move) = tt_best_move {
        if let Some(pos) = find_from(&candidates, 0, tt_move) {
            swap_at(&mut candidates, front, pos);
            front += 1;
        }
    }
    assert((candidates@, front as int) == bring_front(c0, 0, tt_best_move));
    let ghost c1 = candidates@;
    let ghost f1 = front as int;
    let killers = heur.killers_at(depth);
    if let Some(killer) = killers[0] {
        if let Some(pos) = find_from(&candidates, front, killer) {
            swap_at(&mut candidates, front, pos);
            front += 1;
        }
    }
    assert((candidates@, front as int) == bring_front(c1, f1, killer_at(h1, depth as int, 0)));
    let ghost c2 = candidates@;
    let ghost f2 = front as int;
    if let Some(killer) = killers[1] {
        if let Some(pos) = find_from(&candidates, front, killer) {
            swap_at(&mut candidates, front, pos);
            front += 1;
        }
    }
    assert((candidates@, front as int) == bring_front(c2, f2, killer_at(h1, depth as int, 1)));
    if depth >= CANDIDATE_CAP_DEPTH {
        let keep = if front > CANDIDATE_CAP {
            front
        } else {
            CANDIDATE_CAP
        };
        candidates.truncate(keep);
    }
    assert(candidates@ == node_order(cand_list(b0, depth as int), tt_best_move, h1, depth as int));
    assert(tt_best_move == tt_move_of(found));

    let (best_value, best_move_here, best_pv, searched_any, final_beta) = sb_search_moves(
        board,
        &candidates,
        alpha,
        beta,
        is_max_player,
        depth,
        max_depth,
        under_threat,
        stats,
        tt,
        heur,
    );
    if !searched_any {
        return (board.sb_heuristic_evaluation(), Vec::new(), false);
    }
    let flag = if best_value <= orig_alpha {
        TTFlag::UpperBound
    } else if best_value >= final_beta {
        TTFlag::LowerBound
    } else {
        TTFlag::Exact
    };
    let entry = SbEntry {
        hash: board.hash,
        depth_remaining,
        value: best_value,
        flag,
        best_move: best_move_here,
    };
    let ghost before = *tt;
    tt.store(board.hash, entry);
    proof {
        lemma_store_ok(before, *tt, board.hash, entry);
    }
    (best_value, best_pv, false)
}

/// The moves of a node in order, each searched in turn until the window
/// closes. Returns the best value, its move and line, whether any move was
/// searched, and the final `beta`.
fn sb_search_moves(
    board: &mut SearchBoard,
    candidates: &Vec<(usize, usize)>,
    alpha: i32,
    beta: i32,
    is_max_player: bool,
    depth: usize,
    max_depth: usize,
    under_threat: bool,
    stats: &mut SearchStats,
    tt: &mut ShardedTT,
    heur: &mut MoveHeuristics,
) -> (res: (i32, Option<(usize, usize)>, Vec<(usize, usize)>, bool, i32))
    requires
        search_args(*old(board), *old(tt), alpha, beta, depth as int, max_depth as int),
        depth < max_depth,
    ensures
        final(stats).max_depth == old(stats).max_depth,
        *final(board) == *old(board),
        tt_ok(*final(tt)),
        final(tt).mask == old(tt).mask,
        value_ok(res.0 as int),
        res.1 matches Some(m) ==> m.0 < 19 && m.1 < 19,
        line_on_board(res.2@),
        (res.0, res.1, res.2@, res.3, res.4, final(tt).slots@, *final(heur)) == moves_value(
            *old(board),
            candidates@,
            0,
            alpha,
            beta,
            worst_for(is_max_player),
            None,
            Seq::empty(),
            true,
            false,
            is_max_player,
            depth as int,
            max_depth as int,
            under_threat,
            old(tt).slots@,
            old(tt).mask,
            *old(heur),
        ),
    decreases max_depth - depth, 1int,
{
    let ghost b0 = *board;
    let ghost whole = moves_value(
        b0, candidates@, 0, alpha, beta, worst_for(is_max_player), None, Seq::empty(), true, false,
        is_max_player, depth as int, max_depth as int, under_threat, tt.slots@, tt.mask, *heur,
    );
    let depth_remaining = max_depth - depth;
    let mut lo = alpha;
    let mut hi = beta;
    let mut best_value: i32 = if is_max_player {
        MIN_VALUE - 1
    } else {
        MAX_VALUE + 1
    };
    let mut best_move_here: Option<(usize, usize)> = None;
    let mut best_pv: Vec<(usize, usize)> = Vec::new();
    let mut first = true;
    let mut searched_any = false;
    let mut move_index: usize = 0;
    while move_index < candidates.len()
        invariant
            *board == b0,
            b0 == *old(board),
            search_args(b0, *tt, lo, hi, depth as int, max_depth as int),
            depth < max_depth,
            depth_remaining == max_depth - depth,
            tt.mask == old(tt).mask,
            stats.max_depth == old(stats).max_depth,
            value_ok(best_value as int) || best_value == worst_for(is_max_player),
            best_move_here matches Some(m) ==> m.0 < 19 && m.1 < 19,
            line_on_board(best_pv@),
            searched_any ==> value_ok(best_value as int),
            move_index <= candidates.len(),
            whole == moves_value(
                *old(board), candidates@, 0, alpha, beta, worst_for(is_max_player), None, Seq::empty(), true,
                false, is_max_player, depth as int, max_depth as int, under_threat, old(tt).slots@, old(tt).mask,
                *old(heur),
            ),
            whole == moves_value(
                b0, candidates@, move_index as int, lo, hi, best_value, best_move_here, best_pv@, first,
                searched_any, is_max_player, depth as int, max_depth as int, under_threat, tt.slots@, tt.mask,
                *heur,
            ),
        decreases candidates.len() - move_index,
    {
        let ghost a0 = lo;
        let ghost be0 = hi;
        let ghost bv0 = best_value;
        let ghost bm0 = best_move_here;
        let ghost bp0 = best_pv@;
        let ghost f0 = first;
        let ghost s0 = searched_any;
        let ghost sl0 = tt.slots@;
        let ghost h0 = *heur;
        let (move_r, move_c) = candidates[move_index];
        if move_r < 19 && move_c < 19 && board.cells[move_r][move_c] == Cell::Empty
            && !board.sb_is_double_three(move_r as i32, move_c as i32) && board.capture_count_at(move_r, move_c) <= 4 {
            assert(sb_playable(b0, (move_r, move_c)));
            stats.children_explored = add_count(stats.children_explored, 1);
            searched_any = true;
            let (child_val, child_pv) = sb_child(
                board,
                (move_r, move_c),
                move_index,
                first,
                is_max_player,
                lo,
                hi,
                depth,
                max_depth,
                under_threat,
                stats,
                tt,
                heur,
            );
            let ghost r = (child_val, child_pv@, tt.slots@, *heur);
            first = false;
            if is_max_player {
                if child_val > best_value {
                    best_value = child_val;
                    best_move_here = Some((move_r, move_c));
                    best_pv = prepend((move_r, move_c), child_pv);
                }
                if best_value > lo {
                    lo = best_value;
                }
            } else {
                if child_val < best_value {
                    best_value = child_val;
                    best_move_here = Some((move_r, move_c));
                    best_pv = prepend((move_r, move_c), child_pv);
                }
                if best_value < hi {
                    hi = best_value;
                }
            }
            proof {
                lemma_moves_step(
                    b0, candidates@, move_index as int, a0, be0, bv0, bm0, bp0, f0, s0, is_max_player, depth as int,
                    max_depth as int, under_threat, sl0, tt.mask, h0, r, best_value, best_move_here, best_pv@, lo,
                    hi,
                );
            }
            if lo >= hi {
                stats.cutoffs = add_count(stats.cutoffs, 1);
                let ghost hb = *heur;
                heur.record_cutoff(depth, (move_r, move_c), depth_remaining);
                proof {
                    lemma_after_cutoff(hb, depth as int, (move_r, move_c), depth_remaining as int, *heur);
                }
                return (best_value, best_move_here, best_pv, searched_any, hi);
            }
        } else {
            assert(!sb_playable(b0, (move_r, move_c)));
            proof {
                lemma_moves_skip(
                    b0, candidates@, move_index as int, a0, be0, bv0, bm0, bp0, f0, s0, is_max_player, depth as int,
                    max_depth as int, under_threat, sl0, tt.mask, h0,
                );
            }
        }
        move_index += 1;
    }
    proof {
        lemma_moves_end(
            b0, candidates@, move_index as int, lo, hi, best_value, best_move_here, best_pv@, first, searched_any,
            is_max_player, depth as int, max_depth as int, under_threat, tt.slots@, tt.mask, *heur,
        );
    }
    (best_value, best_move_here, best_pv, searched_any, hi)
}

/// Play `mv`, the move at position `move_index` of the ordering, search it
/// (the first move with the full window; the others with a null window, a
/// late quiet one shallower, and again deeper or wider where that beats the
/// window), and take it back.
#[verifier::spinoff_prover]
#[verifier::rlimit(60)]
fn sb_child(
    board: &mut SearchBoard,
    mv: (usize, usize),
    move_index: usize,
    first: bool,
    is_max_player: bool,
    alpha: i32,
    beta: i32,
    depth: usize,
    max_depth: usize,
    under_threat: bool,
    stats: &mut SearchStats,
    tt: &mut ShardedTT,
    heur: &mut MoveHeuristics,
) -> (res: (i32, Vec<(usize, usize)>))
    requires
        search_args(*old(board), *old(tt), alpha, beta, depth as int, max_depth as int),
        depth < max_depth,
        mv.0 < 19,
        mv.1 < 19,
        old(board).grid()(mv.0 as int, mv.1 as int) == Cell::Empty,
        captures_before(old(board).grid(), mv.0 as int, mv.1 as int, old(board).current, old(board).opponent, 8) <= 4,
    ensures
        final(stats).max_depth == old(stats).max_depth,
        *final(board) == *old(board),
        tt_ok(*final(tt)),
        final(tt).mask == old(tt).mask,
        value_ok(res.0 as int),
        line_on_board(res.1@),
        (res.0, res.1@, final(tt).slots@, *final(heur)) == child_value(
            *old(board),
            mv,
            move_index as int,
            first,
            is_max_player,
            alpha,
            beta,
            depth as int,
            max_depth as int,
            under_threat,
            old(tt).slots@,
            old(tt).mask,
            *old(heur),
        ),
    decreases max_depth - depth, 0int,
{
    let ghost b0 = *board;
    proof {
        lemma_ok_bounds(b0, depth as int);
    }
    let depth_remaining = max_depth - depth;
    let mover = board.current;
    let undo = board.make_move(mv.0, mv.1);
    let ghost mid = *board;
    proof {
        lemma_child_ok(b0, mv.0 as int, mv.1 as int, mid, undo, depth as int);
        lemma_make_move_undo_ready(b0, mv.0 as int, mv.1 as int, mid, undo);
        lemma_child_of(b0, mv.0 as int, mv.1 as int, mid, undo);
    }
    let gain = if mover == Cell::Black {
        undo.delta_black
    } else {
        undo.delta_white
    };
    assert(gain == move_gain(b0, mv.0 as int, mv.1 as int));
    let ghost slots0 = tt.slots@;
    let ghost h0 = *heur;
    let is_tactical = undo.num_captured > 0 || gain.five_rows > 0 || gain.open_fours > 0 || gain.block_fours > 0;
    let reduction: usize = if depth_remaining >= LMR_MIN_DEPTH && move_index >= LMR_MIN_MOVE && !is_tactical
        && !under_threat {
        if move_index >= LMR_DEEP_MOVE {
            2
        } else {
            1
        }
    } else {
        0
    };
    let cut = if reduction < depth_remaining - 1 {
        reduction
    } else {
        depth_remaining - 1
    };
    let reduced_depth = max_depth - cut;
    assert(reduction as int == reduction_of(b0, mv, move_index as int, depth_remaining as int, under_threat));
    assert(reduced_depth as int == reduced_to(max_depth as int, depth_remaining as int, reduction as int));
    let r = if first {
        proof {
            lemma_child_first(b0, mv, move_index as int, is_max_player, alpha, beta, depth as int, max_depth as int, under_threat, slots0, tt.mask, h0);
        }
        sb_alphabeta(board, alpha, beta, !is_max_player, depth + 1, max_depth, stats, tt, heur, true)
    } else {
        let lo = if is_max_player { alpha } else { beta - 1 };
        let hi = if is_max_player { alpha + 1 } else { beta };
        let mut r = sb_alphabeta(board, lo, hi, !is_max_player, depth + 1, reduced_depth, stats, tt, heur, true);
        let ghost r1 = (r.0, r.1@, tt.slots@, *heur);
        if reduction > 0 && (if is_max_player { r.0 > alpha } else { r.0 < beta }) {
            r = sb_alphabeta(board, lo, hi, !is_max_player, depth + 1, max_depth, stats, tt, heur, true);
        }
        let ghost r2 = (r.0, r.1@, tt.slots@, *heur);
        proof {
            lemma_child_later(
                b0, mv, move_index as int, is_max_player, alpha, beta, depth as int, max_depth as int, under_threat,
                slots0, tt.mask, h0, lo, hi, r1, r2,
            );
        }
        if r.0 > alpha && r.0 < beta {
            r = sb_alphabeta(board, alpha, beta, !is_max_player, depth + 1, max_depth, stats, tt, heur, true);
        }
        r
    };
    board.undo_move(&undo);
    proof {
        lemma_child_restored(b0, mv.0 as int, mv.1 as int, mid, undo, *board, depth as int);
    }
    (r.0, r.1)
}

// --- What the root computes --------------------------------------------------

/// The heuristics of a fresh search: no killers, no history.
pub open spec fn fresh_heur_post(h: MoveHeuristics) -> bool {
    &&& forall|p: int, k: int| 0 <= p < MAX_PLY && 0 <= k < 2 ==> #[trigger] h.killers[p][k] is None
    &&& forall|i: int| 0 <= i < 361 ==> #[trigger] h.history[i] == 0
}

/// The heuristics of a fresh search.
pub open spec fn fresh_heur() -> MoveHeuristics {
    choose|h: MoveHeuristics| fresh_heur_post(h)
}

/// A root move that can be played: an empty cell capturing at most four
/// pairs.
pub open spec fn root_playable_spec(b: SearchBoard, m: (usize, usize)) -> bool {
    &&& m.0 < 19
    &&& m.1 < 19
    &&& b.grid()(m.0 as int, m.1 as int) == Cell::Empty
    &&& captures_before(b.grid(), m.0 as int, m.1 as int, b.current, b.opponent, 8) <= 4
}

/// A root move searched after the first: a null window at the bound of the
/// side to move, searched again with the full window `(pa, pb)` when it
/// lands inside it.
pub open spec fn root_child_value(
    b: SearchBoard,
    mv: (usize, usize),
    pa: i32,
    pb: i32,
    is_max: bool,
    depth: int,
    slots: Seq<Option<SbEntry>>,
    mask: usize,
    h: MoveHeuristics,
) -> (i32, Seq<(usize, usize)>, Seq<Option<SbEntry>>, MoveHeuristics) {
    let nb = child_of(b, mv.0 as int, mv.1 as int);
    let lo = if is_max {
        pa
    } else {
        (pb - 1) as i32
    };
    let hi = if is_max {
        (pa + 1) as i32
    } else {
        pb
    };
    let r1 = node_value(nb, lo, hi, !is_max, 1, depth, slots, mask, h, true);
    if r1.0 > pa && r1.0 < pb {
        node_value(nb, pa, pb, !is_max, 1, depth, r1.2, mask, r1.3, true)
    } else {
        r1
    }
}

/// The move of a root entry.
pub open spec fn move_of(e: (usize, usize, Option<i32>)) -> (usize, usize) {
    (e.0, e.1)
}

/// The results of the root moves at positions `1 .. i`, each searched with a
/// fresh set of heuristics against the window `(pa, pb)` (a move that cannot
/// be played gets `MIN_VALUE`), and the table after them.
pub open spec fn later_results(
    b: SearchBoard,
    moves: Seq<(usize, usize, Option<i32>)>,
    i: int,
    pa: i32,
    pb: i32,
    is_max: bool,
    depth: int,
    slots: Seq<Option<SbEntry>>,
    mask: usize,
) -> (Seq<(i32, Seq<(usize, usize)>)>, Seq<Option<SbEntry>>)
    decreases i,
{
    if i <= 1 {
        (Seq::empty(), slots)
    } else {
        let prev = later_results(b, moves, i - 1, pa, pb, is_max, depth, slots, mask);
        let m = move_of(moves[i - 1]);
        if root_playable_spec(b, m) {
            let r = root_child_value(b, m, pa, pb, is_max, depth, prev.1, mask, fresh_heur());
            (prev.0.push((r.0, r.1)), r.2)
        } else {
            (prev.0.push((MIN_VALUE, Seq::empty())), prev.1)
        }
    }
}

/// The first position at or after `q` holding the move `(r, c)`.
pub open spec fn first_coord(s: Seq<(usize, usize, Option<i32>)>, q: int, r: usize, c: usize) -> Option<int>
    decreases s.len() - q,
{
    if q < 0 || q >= s.len() {
        None
    } else if s[q].0 == r && s[q].1 == c {
        Some(q)
    } else {
        first_coord(s, q + 1, r, c)
    }
}

/// The list with the first entry of the move `(r, c)` given the value `v`.
pub open spec fn set_value(s: Seq<(usize, usize, Option<i32>)>, r: usize, c: usize, v: i32) -> Seq<(usize, usize, Option<i32>)> {
    match first_coord(s, 0, r, c) {
        Some(q) => s.update(q, (r, c, Some(v))),
        None => s,
    }
}

/// One step of the merge of root results: the result of the move at
/// position `j` joins the list and, where strictly better, the best.
pub open spec fn merge_step(
    b: SearchBoard,
    moves: Seq<(usize, usize, Option<i32>)>,
    results: Seq<(i32, Seq<(usize, usize)>)>,
    j: int,
    st: (i32, Option<(usize, usize, i32)>, Seq<(usize, usize)>, Seq<(usize, usize, Option<i32>)>),
    is_max: bool,
) -> (i32, Option<(usize, usize, i32)>, Seq<(usize, usize)>, Seq<(usize, usize, Option<i32>)>) {
    let m = move_of(moves[j]);
    if root_playable_spec(b, m) {
        let v = results[j - 1].0;
        let sc = set_value(st.3, m.0, m.1, v);
        if (is_max && v > st.0) || (!is_max && v < st.0) {
            (v, Some((m.0, m.1, v)), seq![m] + results[j - 1].1, sc)
        } else {
            (st.0, st.1, st.2, sc)
        }
    } else {
        st
    }
}

/// The merge of the root results of positions `1 .. j`, in order.
pub open spec fn merge_upto(
    b: SearchBoard,
    moves: Seq<(usize, usize, Option<i32>)>,
    results: Seq<(i32, Seq<(usize, usize)>)>,
    j: int,
    init: (i32, Option<(usize, usize, i32)>, Seq<(usize, usize)>, Seq<(usize, usize, Option<i32>)>),
    is_max: bool,
) -> (i32, Option<(usize, usize, i32)>, Seq<(usize, usize)>, Seq<(usize, usize, Option<i32>)>)
    decreases j,
{
    if j <= 1 {
        init
    } else {
        merge_step(b, moves, results, j - 1, merge_upto(b, moves, results, j - 1, init, is_max), is_max)
    }
}

/// A root list stably sorted best first for the side to move.
pub open spec fn sorted_of(s: Seq<(usize, usize, Option<i32>)>, is_max: bool) -> Seq<(usize, usize, Option<i32>)> {
    choose|o: Seq<(usize, usize, Option<i32>)>| stably_sorted(o, s, root_keys(s, is_max))
}

/// One iteration of the deepening at the root to `depth` plies: the best
/// move with its value, the principal variation, the scored root list
/// sorted best first, the table and the root heuristics.
pub open spec fn root_value(
    b: SearchBoard,
    moves: Seq<(usize, usize, Option<i32>)>,
    depth: int,
    slots: Seq<Option<SbEntry>>,
    mask: usize,
    h: MoveHeuristics,
) -> (Option<(usize, usize, i32)>, Seq<(usize, usize)>, Seq<(usize, usize, Option<i32>)>, Seq<Option<SbEntry>>, MoveHeuristics) {
    let is_max = b.current == Cell::Black;
    let m0 = move_of(moves[0]);
    let p0 = root_playable_spec(b, m0);
    let f = node_value(child_of(b, m0.0 as int, m0.1 as int), MIN_VALUE, MAX_VALUE, !is_max, 1, depth, slots, mask, h, true);
    let better = (is_max && f.0 > worst_for(is_max)) || (!is_max && f.0 < worst_for(is_max));
    let init: (i32, Option<(usize, usize, i32)>, Seq<(usize, usize)>, Seq<(usize, usize, Option<i32>)>) = if p0 {
        let sc = moves.update(0, (m0.0, m0.1, Some(f.0)));
        if better {
            (f.0, Some((m0.0, m0.1, f.0)), seq![m0] + f.1, sc)
        } else {
            (worst_for(is_max), None, Seq::empty(), sc)
        }
    } else {
        (worst_for(is_max), None, Seq::empty(), moves)
    };
    let slots1 = if p0 {
        f.2
    } else {
        slots
    };
    let h1 = if p0 {
        f.3
    } else {
        h
    };
    let pa = if p0 && is_max && better {
        f.0
    } else {
        MIN_VALUE
    };
    let pb = if p0 && !is_max && better {
        f.0
    } else {
        MAX_VALUE
    };
    if pa < pb && moves.len() > 1 {
        let lr = later_results(b, moves, moves.len() as int, pa, pb, is_max, depth, slots1, mask);
        let st = merge_upto(b, moves, lr.0, moves.len() as int, init, is_max);
        (st.1, st.2, sorted_of(st.3, is_max), lr.1, h1)
    } else {
        (init.1, init.2, sorted_of(init.3, is_max), slots1, h1)
    }
}

/// Iterative deepening at the root from ply `d` to ply `max_d`: the best
/// move of the last iteration, the root list, the table.
pub open spec fn deepen(
    b: SearchBoard,
    moves: Seq<(usize, usize, Option<i32>)>,
    d: int,
    max_d: int,
    slots: Seq<Option<SbEntry>>,
    mask: usize,
    h: MoveHeuristics,
    best: Option<(usize, usize, i32)>,
) -> (Option<(usize, usize, i32)>, Seq<(usize, usize, Option<i32>)>, Seq<Option<SbEntry>>)
    decreases max_d + 1 - d,
{
    if d > max_d || d < 1 || moves.len() == 0 {
        (best, moves, slots)
    } else {
        let it = root_value(b, moves, d, slots, mask, h);
        deepen(b, it.2, d + 1, max_d, it.3, mask, it.4, it.0)
    }
}

/// The search board of a game.
pub open spec fn board_post(g: Gomoku, b: SearchBoard) -> bool {
    &&& b.grid() == g.grid()
    &&& b.current == g.current_player.cell()
    &&& b.opponent == g.current_player.cell().other()
    &&& b.captures@ == seq![0i32, g.black_captures, g.white_captures]
    &&& b.hash == g.hash
    &&& b.move_count == g.move_count
    &&& b.last_move == crate::gomoku::last_move_of(g.current_move)
    &&& b.total_stones == stone_count(g.grid())
    &&& b.black_patterns == full_counts(g.grid(), true)
    &&& b.white_patterns == full_counts(g.grid(), false)
}

/// The search board of a game.
pub open spec fn board_of(g: Gomoku) -> SearchBoard {
    choose|b: SearchBoard| board_post(g, b)
}

/// The first `n` candidate moves on the board, unscored.
pub open spec fn unscored(s: Seq<(usize, usize)>, n: int) -> Seq<(usize, usize, Option<i32>)>
    decreases n,
{
    if n <= 0 {
        Seq::empty()
    } else {
        let p = unscored(s, n - 1);
        if s[n - 1].0 < 19 && s[n - 1].1 < 19 {
            p.push((s[n - 1].0, s[n - 1].1, None))
        } else {
            p
        }
    }
}

/// The root list a search starts from: the candidates of the root, unless a
/// cell would capture more than four pairs.
pub open spec fn root_moves_of(b: SearchBoard) -> Seq<(usize, usize, Option<i32>)> {
    if all_small(b) {
        unscored(cand_list(b, 0), cand_list(b, 0).len() as int)
    } else {
        Seq::empty()
    }
}

/// Deepest ply of a search from `b`: three in the first moves of a game.
pub open spec fn depth_limit(b: SearchBoard) -> int {
    if b.move_count < 4 {
        3
    } else {
        MAX_DEPTH as int
    }
}

/// What the engine returns for game `g` from table contents `slots`: the
/// best move with its value, the scored root list, and the table.
pub open spec fn engine_move(g: Gomoku, slots: Seq<Option<SbEntry>>, mask: usize) -> (
    Option<(usize, usize, i32)>,
    Seq<(usize, usize, Option<i32>)>,
    Seq<Option<SbEntry>>,
) {
    let b = board_of(g);
    deepen(b, root_moves_of(b), 1, depth_limit(b), slots, mask, fresh_heur(), None)
}

/// Iterative deepening of the position after a move: the value and line of
/// the last iteration, and the table.
pub open spec fn pv_deepen(
    nb: SearchBoard,
    is_max: bool,
    d: int,
    max_d: int,
    slots: Seq<Option<SbEntry>>,
    mask: usize,
    h: MoveHeuristics,
    value: i32,
    line: Seq<(usize, usize)>,
) -> (i32, Seq<(usize, usize)>, Seq<Option<SbEntry>>)
    decreases max_d + 1 - d,
{
    if d > max_d || d < 1 {
        (value, line, slots)
    } else {
        let r = node_value(nb, MIN_VALUE, MAX_VALUE, !is_max, 1, d, slots, mask, h, true);
        pv_deepen(nb, is_max, d + 1, max_d, r.2, mask, r.3, r.0, r.1)
    }
}

/// A fresh set of heuristics is the one `fresh_heur` names.
proof fn lemma_fresh_heur(h: MoveHeuristics)
    requires
        fresh_heur_post(h),
    ensures
        h == fresh_heur(),
{
    let m = fresh_heur();
    assert(fresh_heur_post(m));
    assert forall|p: int| 0 <= p < MAX_PLY implies #[trigger] h.killers[p] == m.killers[p] by {
        assert(h.killers[p] =~= m.killers[p]);
    }
    assert(h.killers =~= m.killers);
    assert(h.history =~= m.history);
}

/// There is one sorted root list.
proof fn lemma_sorted_of(s: Seq<(usize, usize, Option<i32>)>, is_max: bool, o: Seq<(usize, usize, Option<i32>)>)
    requires
        stably_sorted(o, s, root_keys(s, is_max)),
    ensures
        o == sorted_of(s, is_max),
{
    let c = sorted_of(s, is_max);
    assert(stably_sorted(c, s, root_keys(s, is_max)));
    let keys = root_keys(s, is_max);
    let o1 = choose|order: Seq<usize>| #[trigger] crate::sorting::arranged(o, s, keys, order);
    assert(crate::sorting::arranged(o, s, keys, o1));
    let o2 = choose|order: Seq<usize>| #[trigger] crate::sorting::arranged(c, s, keys, order);
    assert(crate::sorting::arranged(c, s, keys, o2));
    crate::sorting::lemma_stable_order_unique(o1, o2, keys);
}

/// A game has one search board.
proof fn lemma_board_of(g: Gomoku, b: SearchBoard)
    requires
        board_post(g, b),
    ensures
        b == board_of(g),
{
    let m = board_of(g);
    assert(board_post(g, m));
    assert(b.captures =~= m.captures);
    lemma_board_ext(b, m);
}

// --- The root ----------------------------------------------------------------

/// A root move searched after the first: with a null window at the bound
/// of the side to move, searched again with the full window when it lands
/// inside it. The move is taken back.
pub fn search_root_child(
    board: &mut SearchBoard,
    mv: (usize, usize),
    parent_alpha: i32,
    parent_beta: i32,
    is_max: bool,
    depth: usize,
    stats: &mut SearchStats,
    tt: &mut ShardedTT,
    heur: &mut MoveHeuristics,
) -> (res: (i32, Vec<(usize, usize)>, bool))
    requires
        engine_ok(*old(board), 0),
        1 <= depth <= MAX_DEPTH,
        tt_ok(*old(tt)),
        MIN_VALUE <= parent_alpha <= MAX_VALUE,
        MIN_VALUE <= parent_beta <= MAX_VALUE,
        mv.0 < 19,
        mv.1 < 19,
        old(board).grid()(mv.0 as int, mv.1 as int) == Cell::Empty,
        captures_before(old(board).grid(), mv.0 as int, mv.1 as int, old(board).current, old(board).opponent, 8) <= 4,
    ensures
        *final(board) == *old(board),
        tt_ok(*final(tt)),
        final(tt).mask == old(tt).mask,
        value_ok(res.0 as int),
        line_on_board(res.1@),
        !res.2,
        (res.0, res.1@, final(tt).slots@, *final(heur)) == root_child_value(
            *old(board),
            mv,
            parent_alpha,
            parent_beta,
            is_max,
            depth as int,
            old(tt).slots@,
            old(tt).mask,
            *old(heur),
        ),
{
    let ghost b0 = *board;
    proof {
        lemma_ok_bounds(b0, 0);
    }
    let undo = board.make_move(mv.0, mv.1);
    let ghost mid = *board;
    proof {
        lemma_child_ok(b0, mv.0 as int, mv.1 as int, mid, undo, 0);
        lemma_make_move_undo_ready(b0, mv.0 as int, mv.1 as int, mid, undo);
        lemma_child_of(b0, mv.0 as int, mv.1 as int, mid, undo);
    }
    let lo = if is_max { parent_alpha } else { parent_beta - 1 };
    let hi = if is_max { parent_alpha + 1 } else { parent_beta };
    let mut r = sb_alphabeta(board, lo, hi, !is_max, 1, depth, stats, tt, heur, true);
    if r.0 > parent_alpha && r.0 < parent_beta {
        r = sb_alphabeta(board, parent_alpha, parent_beta, !is_max, 1, depth, stats, tt, heur, true);
    }
    board.undo_move(&undo);
    proof {
        lemma_child_restored(b0, mv.0 as int, mv.1 as int, mid, undo, *board, 0);
    }
    r
}

/// Every root move listed is a cell of the board.
pub open spec fn moves_on_board(all: Seq<(usize, usize, Option<i32>)>) -> bool {
    forall|i: int| 0 <= i < all.len() ==> #[trigger] all[i].0 < 19 && all[i].1 < 19
}

/// Whether `(r, c)` can be played at the root: an empty cell capturing at
/// most four pairs.
fn root_playable(board: &SearchBoard, r: usize, c: usize) -> (ok: bool)
    requires
        engine_ok(*board, 0),
    ensures
        ok == root_playable_spec(*board, (r, c)),
{
    r < 19 && c < 19 && board.cells[r][c] == Cell::Empty && board.capture_count_at(r, c) <= 4
}

/// The two lists hold the same moves in the same order, whatever their
/// values.
pub open spec fn same_moves(a: Seq<(usize, usize, Option<i32>)>, b: Seq<(usize, usize, Option<i32>)>) -> bool {
    &&& a.len() == b.len()
    &&& forall|i: int| #![trigger a[i]] 0 <= i < a.len() ==> a[i].0 == b[i].0 && a[i].1 == b[i].1
}

/// Giving a move of a list a value keeps its moves.
proof fn lemma_same_moves_set(
    a: Seq<(usize, usize, Option<i32>)>,
    b: Seq<(usize, usize, Option<i32>)>,
    q: int,
    x: (usize, usize, Option<i32>),
)
    requires
        same_moves(a, b),
        0 <= q < a.len(),
        x.0 == a[q].0,
        x.1 == a[q].1,
    ensures
        same_moves(a.update(q, x), b),
{
    assert forall|i: int| #![trigger a.update(q, x)[i]] 0 <= i < a.len() implies a.update(q, x)[i].0 == b[i].0 && a.update(
        q,
        x,
    )[i].1 == b[i].1 by {
        assert(a[i].0 == b[i].0 && a[i].1 == b[i].1);
    }
}

/// The same moves as `before`, each with a value or none, stably sorted best
/// first for the side to move.
pub open spec fn resorted(
    before: Seq<(usize, usize, Option<i32>)>,
    after: Seq<(usize, usize, Option<i32>)>,
    is_max: bool,
) -> bool {
    exists|scored: Seq<(usize, usize, Option<i32>)>|
        #![trigger crate::sorting::stably_sorted(after, scored, root_keys(scored, is_max))]
        same_moves(scored, before) && crate::sorting::stably_sorted(after, scored, root_keys(scored, is_max))
}

/// The sort keys of a root list.
pub open spec fn root_keys(all: Seq<(usize, usize, Option<i32>)>, is_max: bool) -> Seq<i32> {
    all.map_values(|e: (usize, usize, Option<i32>)| root_key(e, is_max))
}

/// One iteration of the deepening at the root, to `depth` plies: the first
/// move searched with the full window, the others against the window it
/// leaves, their results merged in order. Each root move gets its value in
/// `all_moves`; the moves are then sorted best first for the side to move,
/// unscored moves last, ties in order. Returns the best move with its value
/// (the first strictly better one in the order searched), the principal
/// variation, and `false`: the iteration always completes. `root_value`
/// states all of it.
#[verifier::spinoff_prover]
#[verifier::rlimit(60)]
pub fn root_iteration(
    board: &mut SearchBoard,
    all_moves: &mut Vec<(usize, usize, Option<i32>)>,
    depth: usize,
    stats: &mut SearchStats,
    tt: &mut ShardedTT,
    root_heur: &mut MoveHeuristics,
) -> (r: (Option<(usize, usize, i32)>, Vec<(usize, usize)>, bool))
    requires
        engine_ok(*old(board), 0),
        1 <= depth <= MAX_DEPTH,
        tt_ok(*old(tt)),
        old(all_moves)@.len() >= 1,
        moves_on_board(old(all_moves)@),
        values_ok(old(all_moves)@),
    ensures
        final(stats).max_depth == old(stats).max_depth,
        values_ok(final(all_moves)@),
        *final(board) == *old(board),
        tt_ok(*final(tt)),
        final(tt).mask == old(tt).mask,
        final(all_moves)@.len() == old(all_moves)@.len(),
        moves_on_board(final(all_moves)@),
        !r.2,
        resorted(old(all_moves)@, final(all_moves)@, old(board).current == Cell::Black),
        ({
            let rv = root_value(*old(board), old(all_moves)@, depth as int, old(tt).slots@, old(tt).mask, *old(root_heur));
            &&& r.0 == rv.0
            &&& r.1@ == rv.1
            &&& final(all_moves)@ == rv.2
            &&& final(tt).slots@ == rv.3
            &&& *final(root_heur) == rv.4
        }),
        r.0 matches Some(b) ==> b.0 < 19 && b.1 < 19 && value_ok(b.2 as int),
        line_on_board(r.1@),
{
    let ghost b0 = *board;
    let ghost start = all_moves@;
    let ghost slots0 = tt.slots@;
    let ghost h0 = *root_heur;
    let is_max_player = board.current == Cell::Black;
    let mut alpha = MIN_VALUE;
    let mut beta = MAX_VALUE;
    let mut best_value: i32 = if is_max_player {
        MIN_VALUE - 1
    } else {
        MAX_VALUE + 1
    };
    let mut best_move: Option<(usize, usize, i32)> = None;
    let mut pv: Vec<(usize, usize)> = Vec::new();
    let mut scored = copy_entries(all_moves);
    assert(same_moves(scored@, start));

    // The first move, with the full window.
    let (r0, c0, _) = all_moves[0];
    let ghost mut f: (i32, Seq<(usize, usize)>, Seq<Option<SbEntry>>, MoveHeuristics) = (0i32, Seq::empty(), slots0, h0);
    if root_playable(board, r0, c0) {
        stats.children_explored = add_count(stats.children_explored, 1);
        let ghost bb = *board;
        proof {
            lemma_ok_bounds(bb, 0);
        }
        let undo = board.make_move(r0, c0);
        let ghost mid = *board;
        proof {
            lemma_child_ok(bb, r0 as int, c0 as int, mid, undo, 0);
            lemma_make_move_undo_ready(bb, r0 as int, c0 as int, mid, undo);
            lemma_child_of(bb, r0 as int, c0 as int, mid, undo);
        }
        let (value, child_pv, _) = sb_alphabeta(
            board,
            alpha,
            beta,
            !is_max_player,
            1,
            depth,
            stats,
            tt,
            root_heur,
            true,
        );
        board.undo_move(&undo);
        proof {
            lemma_child_restored(bb, r0 as int, c0 as int, mid, undo, *board, 0);
        }
        proof {
            f = (value, child_pv@, tt.slots@, *root_heur);
        }
        let ghost prev = scored@;
        scored.set(0, (r0, c0, Some(value)));
        proof {
            lemma_same_moves_set(prev, start, 0, (r0, c0, Some(value)));
        }
        if is_max_player && value > best_value {
            best_value = value;
            alpha = value;
            best_move = Some((r0, c0, value));
            pv = prepend((r0, c0), child_pv);
        } else if !is_max_player && value < best_value {
            best_value = value;
            beta = value;
            best_move = Some((r0, c0, value));
            pv = prepend((r0, c0), child_pv);
        }
    }

    assert(same_moves(scored@, start));
    let ghost init = (best_value, best_move, pv@, scored@);
    let ghost slots1 = tt.slots@;
    let ghost h1 = *root_heur;
    proof {
        let m0 = move_of(start[0]);
        assert(m0 == (r0, c0));
        let rv_f = node_value(child_of(b0, m0.0 as int, m0.1 as int), MIN_VALUE, MAX_VALUE, !is_max_player, 1, depth as int, slots0, tt.mask, h0, true);
        if root_playable_spec(b0, m0) {
            assert(f == rv_f);
        }
    }
    // The other moves, against the window the first one left.
    if alpha < beta && all_moves.len() > 1 {
        let parent_alpha = alpha;
        let parent_beta = beta;
        let n = all_moves.len();
        let mut results: Vec<(i32, Vec<(usize, usize)>)> = Vec::new();
        let ghost mut gres: Seq<(i32, Seq<(usize, usize)>)> = Seq::empty();
        let mut i: usize = 1;
        while i < n
            invariant
                1 <= i <= n,
                n == all_moves@.len(),
                all_moves@ == start,
                moves_on_board(start),
                values_ok(start),
                *board == b0,
                b0 == *old(board),
                engine_ok(b0, 0),
                1 <= depth <= MAX_DEPTH,
                tt_ok(*tt),
                tt.mask == old(tt).mask,
                stats.max_depth == old(stats).max_depth,
                MIN_VALUE <= parent_alpha <= MAX_VALUE,
                MIN_VALUE <= parent_beta <= MAX_VALUE,
                results@.len() == i - 1,
                scored@.len() == n,
                same_moves(scored@, start),
                gres.len() == results@.len(),
                forall|k: int| 0 <= k < gres.len() ==> #[trigger] gres[k].0 == results@[k].0 && gres[k].1
                    == results@[k].1@,
                (gres, tt.slots@) == later_results(b0, start, i as int, parent_alpha, parent_beta, is_max_player, depth as int, slots1, tt.mask),
                *root_heur == h1,
                scored@ == init.3,
                best_value == init.0,
                best_move == init.1,
                pv@ == init.2,
                forall|j: int| 0 <= j < results@.len() ==> value_ok(#[trigger] results@[j].0 as int) && line_on_board(
                    results@[j].1@,
                ),
            decreases n - i,
        {
            let (r, c, _) = all_moves[i];
            if root_playable(board, r, c) {
                let mut child_stats = SearchStats::new();
                let mut child_heur = MoveHeuristics::new();
                proof {
                    lemma_fresh_heur(child_heur);
                }
                let (v, child_pv, _) = search_root_child(
                    board,
                    (r, c),
                    parent_alpha,
                    parent_beta,
                    is_max_player,
                    depth,
                    &mut child_stats,
                    tt,
                    &mut child_heur,
                        );
                stats.children_explored = add_count(stats.children_explored, 1);
                stats.merge(&child_stats);
                let ghost cpv = child_pv@;
                results.push((v, child_pv));
                proof {
                    gres = gres.push((v, cpv));
                }
            } else {
                results.push((MIN_VALUE, Vec::new()));
                proof {
                    gres = gres.push((MIN_VALUE, Seq::empty()));
                }
            }
            assert(move_of(start[i as int]) == (r, c));
            i += 1;
        }
        // Merge in order.
        let mut j: usize = 1;
        while j < n
            invariant
                1 <= j <= n,
                n == all_moves@.len(),
                all_moves@ == start,
                moves_on_board(start),
                scored@.len() == n,
                moves_on_board(scored@),
                values_ok(scored@),
                *board == b0,
                engine_ok(b0, 0),
                results@.len() == n - 1,
                stats.max_depth == old(stats).max_depth,
                same_moves(scored@, start),
                gres.len() == results@.len(),
                forall|k: int| 0 <= k < gres.len() ==> #[trigger] gres[k].0 == results@[k].0 && gres[k].1
                    == results@[k].1@,
                (best_value, best_move, pv@, scored@) == merge_upto(b0, start, gres, j as int, init, is_max_player),
                forall|q: int| 0 <= q < results@.len() ==> value_ok(#[trigger] results@[q].0 as int) && line_on_board(
                    results@[q].1@,
                ),
                best_move matches Some(b) ==> b.0 < 19 && b.1 < 19 && value_ok(b.2 as int),
                line_on_board(pv@),
                value_ok(best_value as int) || best_value == MIN_VALUE - 1 || best_value == MAX_VALUE + 1,
            decreases n - j,
        {
            let (r, c, _) = all_moves[j];
            if root_playable(board, r, c) {
                let value = results[j - 1].0;
                let ghost sb = scored@;
                let mut q: usize = 0;
                while q < scored.len()
                    invariant_except_break
                        scored@ == sb,
                        first_coord(sb, 0, r, c) == first_coord(sb, q as int, r, c),
                    invariant
                        0 <= q <= scored@.len(),
                        scored@.len() == n,
                        moves_on_board(scored@),
                        values_ok(scored@),
                        value_ok(value as int),
                        start.len() == n,
                        same_moves(scored@, start),
                    ensures
                        scored@ == set_value(sb, r, c, value),
                    decreases scored@.len() - q,
                {
                    if scored[q].0 == r && scored[q].1 == c {
                        let ghost prev = scored@;
                        scored.set(q, (r, c, Some(value)));
                        proof {
                            lemma_same_moves_set(prev, start, q as int, (r, c, Some(value)));
                        }
                        break;
                    }
                    q += 1;
                }
                assert(r < 19 && c < 19);
                assert(move_of(start[j as int]) == (r, c));
                if is_max_player && value > best_value {
                    best_value = value;
                    if value > alpha {
                        alpha = value;
                    }
                    best_move = Some((r, c, value));
                    let child_pv = copy_line(&results[j - 1].1);
                    pv = prepend((r, c), child_pv);
                } else if !is_max_player && value < best_value {
                    best_value = value;
                    if value < beta {
                        beta = value;
                    }
                    best_move = Some((r, c, value));
                    let child_pv = copy_line(&results[j - 1].1);
                    pv = prepend((r, c), child_pv);
                }
            }
            j += 1;
        }
    }

    // Best first for the side to move; unscored moves last.
    let sorted = sort_root_moves(&scored, is_max_player);
    assert(crate::sorting::stably_sorted(sorted@, scored@, root_keys(scored@, is_max_player)));
    proof {
        lemma_sorted_of(scored@, is_max_player, sorted@);
    }
    *all_moves = sorted;
    (best_move, pv, false)
}

/// Every value of a root list is a search value.
pub open spec fn values_ok(all: Seq<(usize, usize, Option<i32>)>) -> bool {
    forall|i: int| 0 <= i < all.len() ==> (#[trigger] all[i].2 matches Some(v) ==> value_ok(v as int))
}

/// A copy of a root list.
fn copy_entries(v: &Vec<(usize, usize, Option<i32>)>) -> (c: Vec<(usize, usize, Option<i32>)>)
    ensures
        c@ == v@,
{
    let mut c: Vec<(usize, usize, Option<i32>)> = Vec::new();
    let mut i: usize = 0;
    while i < v.len()
        invariant
            0 <= i <= v.len(),
            c@ == v@.take(i as int),
        decreases v.len() - i,
    {
        c.push(v[i]);
        proof {
            assert(v@.take(i + 1) =~= v@.take(i as int).push(v@[i as int]));
        }
        i += 1;
    }
    proof {
        assert(v@.take(v.len() as int) =~= v@);
    }
    c
}

/// A copy of a line.
fn copy_line(v: &Vec<(usize, usize)>) -> (c: Vec<(usize, usize)>)
    ensures
        c@ == v@,
{
    let mut c: Vec<(usize, usize)> = Vec::new();
    let mut i: usize = 0;
    while i < v.len()
        invariant
            0 <= i <= v.len(),
            c@ == v@.take(i as int),
        decreases v.len() - i,
    {
        c.push(v[i]);
        proof {
            assert(v@.take(i + 1) =~= v@.take(i as int).push(v@[i as int]));
        }
        i += 1;
    }
    proof {
        assert(v@.take(v.len() as int) =~= v@);
    }
    c
}

/// Sort key of a root move: best first for the side to move, a move without
/// a value as if it scored the worst.
pub open spec fn root_key(e: (usize, usize, Option<i32>), is_max: bool) -> i32 {
    if is_max {
        (-(match e.2 {
            Some(v) => v as int,
            None => MIN_VALUE as int,
        })) as i32
    } else {
        match e.2 {
            Some(v) => v,
            None => MAX_VALUE,
        }
    }
}

/// The root moves stably sorted by `root_key`.
pub fn sort_root_moves(moves: &Vec<(usize, usize, Option<i32>)>, is_max: bool) -> (out: Vec<(usize, usize, Option<i32>)>)
    requires
        forall|i: int| 0 <= i < moves@.len() ==> (#[trigger] moves@[i].2 matches Some(v) ==> value_ok(v as int)),
    ensures
        crate::sorting::stably_sorted(out@, moves@, moves@.map_values(|e: (usize, usize, Option<i32>)| root_key(e, is_max))),
        out@.len() == moves@.len(),
        forall|x: (usize, usize, Option<i32>)| out@.contains(x) <==> moves@.contains(x),
{
    let mut keys: Vec<i32> = Vec::new();
    let mut i: usize = 0;
    while i < moves.len()
        invariant
            0 <= i <= moves.len(),
            forall|j: int| 0 <= j < moves@.len() ==> (#[trigger] moves@[j].2 matches Some(v) ==> value_ok(v as int)),
            keys@ == moves@.map_values(|e: (usize, usize, Option<i32>)| root_key(e, is_max)).take(i as int),
        decreases moves.len() - i,
    {
        let e = moves[i];
        let k: i32 = if is_max {
            match e.2 {
                Some(v) => -v,
                None => -MIN_VALUE,
            }
        } else {
            match e.2 {
                Some(v) => v,
                None => MAX_VALUE,
            }
        };
        keys.push(k);
        proof {
            assert(keys@ =~= moves@.map_values(|e: (usize, usize, Option<i32>)| root_key(e, is_max)).take(i + 1));
        }
        i += 1;
    }
    let ghost key_seq = moves@.map_values(|e: (usize, usize, Option<i32>)| root_key(e, is_max));
    assert(keys@ =~= key_seq);
    let order = crate::sorting::stable_order(&keys);
    let mut out: Vec<(usize, usize, Option<i32>)> = Vec::new();
    let mut j: usize = 0;
    while j < order.len()
        invariant
            0 <= j <= order.len(),
            crate::sorting::stable_order_of(order@, key_seq),
            key_seq.len() == moves@.len(),
            out@ == order@.take(j as int).map_values(|o: usize| moves@[o as int]),
        decreases order.len() - j,
    {
        proof {
            assert(order@[j as int] < key_seq.len());
        }
        out.push(moves[order[j]]);
        proof {
            assert(order@.take(j + 1).map_values(|o: usize| moves@[o as int]) =~= order@.take(j as int).map_values(
                |o: usize| moves@[o as int],
            ).push(moves@[order@[j as int] as int]));
        }
        j += 1;
    }
    proof {
        assert(order@.take(order@.len() as int) =~= order@);
        assert(crate::sorting::arranged(out@, moves@, key_seq, order@));
        crate::search_state::search::lemma_arranged_same(out@, moves@, key_seq, order@);
    }
    out
}

/// The root board of a game, if the engine can search it.
fn root_board(state: &Gomoku) -> (b: SearchBoard)
    requires
        state.wf(),
        state.black_captures <= 1000,
        state.white_captures <= 1000,
        state.move_count <= 1_000_000,
    ensures
        engine_ok(b, 0),
        b.grid() == state.grid(),
        b.current == state.current_player.cell(),
        b == board_of(*state),
{
    let b = SearchBoard::from_gomoku(state);
    proof {
        lemma_full_counts_within(state.grid(), true);
        lemma_full_counts_within(state.grid(), false);
        assert(b.captures[1] == state.black_captures);
        assert(b.captures[2] == state.white_captures);
        assert(drift_ok(b.black_patterns, 0));
        assert(drift_ok(b.white_patterns, 0));
        lemma_board_of(*state, b);
    }
    b
}

/// The engine's move for the side to move of `state`: iterative deepening
/// to three plies in the first moves of a game and to `MAX_DEPTH` after,
/// with no time limit, with the table `tt` kept across turns. Returns the
/// best move of the last iteration with its value, every root candidate
/// with its value (best first), and the search's statistics; `engine_move`
/// states the move, the list and the table left behind.
pub fn get_ai_move_with_stats(state: &Gomoku, tt: &mut ShardedTT) -> (r: (
    Option<(usize, usize, i32)>,
    Vec<(usize, usize, Option<i32>)>,
    SearchStats,
))
    requires
        state.wf(),
        state.black_captures <= 1000,
        state.white_captures <= 1000,
        state.move_count <= 1_000_000,
        tt_ok(*old(tt)),
    ensures
        tt_ok(*final(tt)),
        final(tt).mask == old(tt).mask,
        moves_on_board(r.1@),
        values_ok(r.1@),
        r.0 matches Some(b) ==> b.0 < 19 && b.1 < 19 && value_ok(b.2 as int),
        ({
            let e = engine_move(*state, old(tt).slots@, old(tt).mask);
            &&& r.0 == e.0
            &&& r.1@ == e.1
            &&& final(tt).slots@ == e.2
        }),
        r.1@.len() > 0 ==> r.2.max_depth == depth_limit(board_of(*state)),
{
    let mut board = root_board(state);
    let ghost b0 = board;
    let ghost slots0 = tt.slots@;
    let mut all_moves: Vec<(usize, usize, Option<i32>)> = Vec::new();
    proof {
        lemma_ok_bounds(board, 0);
    }
    if board.captures_all_small() {
        let candidates = board.get_candidate_moves(0);
        proof {
            lemma_cand_list(b0, 0, candidates@);
        }
        let mut i: usize = 0;
        while i < candidates.len()
            invariant
                0 <= i <= candidates.len(),
                moves_on_board(all_moves@),
                values_ok(all_moves@),
                all_moves@ == unscored(candidates@, i as int),
            decreases candidates.len() - i,
        {
            let (r, c) = candidates[i];
            if r < 19 && c < 19 {
                all_moves.push((r, c, None));
            }
            i += 1;
        }
    }
    assert(all_moves@ == root_moves_of(b0));
    let max_depth: usize = if board.move_count < 4 {
        3
    } else {
        MAX_DEPTH
    };
    let mut best_move: Option<(usize, usize, i32)> = None;
    let mut final_stats = SearchStats::new();
    let mut root_heur = MoveHeuristics::new();
    proof {
        lemma_fresh_heur(root_heur);
    }
    let ghost whole = deepen(b0, all_moves@, 1, max_depth as int, slots0, tt.mask, root_heur, None);
    let mut depth: usize = 1;
    while depth <= max_depth && all_moves.len() > 0
        invariant
            1 <= depth <= max_depth + 1,
            max_depth <= MAX_DEPTH,
            board == b0,
            engine_ok(b0, 0),
            tt_ok(*tt),
            tt.mask == old(tt).mask,
            moves_on_board(all_moves@),
            values_ok(all_moves@),
            best_move matches Some(b) ==> b.0 < 19 && b.1 < 19 && value_ok(b.2 as int),
            whole == deepen(b0, all_moves@, depth as int, max_depth as int, tt.slots@, tt.mask, root_heur, best_move),
            max_depth as int == depth_limit(b0),
            depth > 1 ==> final_stats.max_depth == depth - 1,
            depth == 1 ==> final_stats.max_depth == 0,
        decreases max_depth + 1 - depth,
    {
        let mut stats = SearchStats::new();
        stats.max_depth = depth;
        stats.internal_nodes = 1;
        stats.total_children = all_moves.len() as u64;
        let (iteration_best, iteration_pv, _) = root_iteration(
            &mut board,
            &mut all_moves,
            depth,
            &mut stats,
            tt,
            &mut root_heur,
        );
        stats.pv = iteration_pv;
        best_move = iteration_best;
        final_stats = stats;
        depth += 1;
    }
    (best_move, all_moves, final_stats)
}

/// The engine's move and the scored root candidates.
pub fn get_ai_move(state: &Gomoku, tt: &mut ShardedTT) -> (r: (
    Option<(usize, usize, i32)>,
    Vec<(usize, usize, Option<i32>)>,
))
    requires
        state.wf(),
        state.black_captures <= 1000,
        state.white_captures <= 1000,
        state.move_count <= 1_000_000,
        tt_ok(*old(tt)),
    ensures
        tt_ok(*final(tt)),
        final(tt).mask == old(tt).mask,
        moves_on_board(r.1@),
        values_ok(r.1@),
        r.0 matches Some(b) ==> b.0 < 19 && b.1 < 19 && value_ok(b.2 as int),
        ({
            let e = engine_move(*state, old(tt).slots@, old(tt).mask);
            &&& r.0 == e.0
            &&& r.1@ == e.1
            &&& final(tt).slots@ == e.2
        }),
{
    let (best, moves, _) = get_ai_move_with_stats(state, tt);
    (best, moves)
}

/// The scored root candidates, best first: the hints for the side to move.
pub fn get_hint(state: &Gomoku, tt: &mut ShardedTT) -> (moves: Vec<(usize, usize, Option<i32>)>)
    requires
        state.wf(),
        state.black_captures <= 1000,
        state.white_captures <= 1000,
        state.move_count <= 1_000_000,
        tt_ok(*old(tt)),
    ensures
        tt_ok(*final(tt)),
        final(tt).mask == old(tt).mask,
        moves_on_board(moves@),
        values_ok(moves@),
        moves@ == engine_move(*state, old(tt).slots@, old(tt).mask).1,
        final(tt).slots@ == engine_move(*state, old(tt).slots@, old(tt).mask).2,
{
    let (_, moves, _) = get_ai_move_with_stats(state, tt);
    moves
}

/// The principal variation after the side to move plays `(x, y)`, with its
/// value, by iterative deepening with no time limit: the move itself, then
/// the best replies. A move that would take more than four pairs at once is
/// not searched.
pub fn get_move_pv(state: &Gomoku, x: usize, y: usize, tt: &mut ShardedTT) -> (r: (Vec<(usize, usize)>, i32))
    requires
        state.wf(),
        state.black_captures <= 1000,
        state.white_captures <= 1000,
        state.move_count <= 1_000_000,
        x < 19,
        y < 19,
        state.stone(x as int, y as int) == crate::gomoku::Stone::Empty,
        tt_ok(*old(tt)),
    ensures
        tt_ok(*final(tt)),
        final(tt).mask == old(tt).mask,
        r.0@.len() >= 1,
        r.0@[0] == (x, y),
        line_on_board(r.0@),
        value_ok(r.1 as int),
        ({
            let b = board_of(*state);
            if captures_before(b.grid(), x as int, y as int, b.current, b.opponent, 8) > 4 {
                r.0@ == seq![(x, y)] && r.1 == 0 && final(tt).slots@ == old(tt).slots@
            } else {
                let e = pv_deepen(
                    child_of(b, x as int, y as int),
                    b.current == Cell::Black,
                    1,
                    depth_limit(b),
                    old(tt).slots@,
                    old(tt).mask,
                    fresh_heur(),
                    0,
                    Seq::empty(),
                );
                r.0@ == seq![(x, y)] + e.1 && r.1 == e.0 && final(tt).slots@ == e.2
            }
        }),
{
    let mut board = root_board(state);
    let ghost b0 = board;
    let ghost slots0 = tt.slots@;
    let is_max_player = board.current == Cell::Black;
    let max_depth: usize = if board.move_count < 4 {
        3
    } else {
        MAX_DEPTH
    };
    if board.capture_count_at(x, y) > 4 {
        // The move would take more than four pairs at once.
        let line = prepend((x, y), Vec::new());
        assert(line@ =~= seq![(x, y)]);
        return (line, 0);
    }
    proof {
        lemma_ok_bounds(b0, 0);
        assert(b0.grid()(x as int, y as int) == Cell::Empty);
    }
    let undo = board.make_move(x, y);
    let ghost mid = board;
    proof {
        lemma_child_ok(b0, x as int, y as int, mid, undo, 0);
        lemma_child_of(b0, x as int, y as int, mid, undo);
    }
    let mut final_pv: Vec<(usize, usize)> = Vec::new();
    let mut final_value: i32 = 0;
    let mut heur = MoveHeuristics::new();
    proof {
        lemma_fresh_heur(heur);
    }
    let ghost whole = pv_deepen(mid, is_max_player, 1, max_depth as int, slots0, tt.mask, heur, 0, Seq::empty());
    let mut depth: usize = 1;
    while depth <= max_depth
        invariant
            1 <= depth <= max_depth + 1,
            max_depth <= MAX_DEPTH,
            board == mid,
            engine_ok(mid, 1),
            tt_ok(*tt),
            tt.mask == old(tt).mask,
            line_on_board(final_pv@),
            value_ok(final_value as int),
            whole == pv_deepen(mid, is_max_player, depth as int, max_depth as int, tt.slots@, tt.mask, heur, final_value, final_pv@),
        decreases max_depth + 1 - depth,
    {
        let mut stats = SearchStats::new();
        stats.max_depth = depth;
        let (value, child_pv, _) = sb_alphabeta(
            &mut board,
            MIN_VALUE,
            MAX_VALUE,
            !is_max_player,
            1,
            depth,
            &mut stats,
            tt,
            &mut heur,
            true,
        );
        final_value = value;
        final_pv = child_pv;
        depth += 1;
    }
    (prepend((x, y), final_pv), final_value)
}

} // verus!
