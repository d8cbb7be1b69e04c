//! Alpha-beta search with a transposition table, null-move pruning, killer
//! and history ordering and late-move reductions, driven by iterative
//! deepening at the root.
use vstd::prelude::*;
use crate::search_board::{on_board, Cell, Grid};
use crate::search_board::moves::{all_dir, capture_in, captures_before};
use crate::search_state::{side_key, zobrist, SearchState, UndoInfo};
use crate::search_state::eval::heuristic;
use crate::search_state::play::{lemma_grid_cells, lemma_unmake_restores_make, made, unmade};
use crate::search_state::rules::{terminal, valid_move};
use crate::search_state::table::{
    decayed, fresh_context, history_after, killer_after, lemma_decayed, lemma_fresh_context, lemma_probe_after_store,
    lookup_slots, score_ok, storable, stored, SearchContext, TTEntry, TTFlag, TranspositionTable, MAX_PLY, TT_SIZE,
};
use crate::search_state::threats::{
    board_empty, brackets, captures_at, descending_key, is_move_candidate, ordered_candidates, scored_candidates,
    scored_upto,
};
use crate::sorting::{
    arranged, key_before, lemma_stable_order_unique, listed, stable_order, stable_order_of, stably_sorted,
};

verus! {

pub const MAX_VALUE: i32 = 100_000;
pub const MIN_VALUE: i32 = -100_000;
/// Deepest iteration of the iterative deepening.
pub const MAX_DEPTH: usize = 8;

/// `(r, c)` is an empty cell of the board of `s`.
pub open spec fn playable(s: SearchState, m: (u8, u8)) -> bool {
    &&& m.0 < 19
    &&& m.1 < 19
    &&& s.grid()(m.0 as int, m.1 as int) == Cell::Empty
}

/// Every candidate up to cell index `n` is a legal move of `s`.
proof fn lemma_scored_upto_valid(s: SearchState, rad: int, n: int)
    requires
        0 <= n <= 361,
    ensures
        forall|i: int|
            0 <= i < scored_upto(s, rad, n).len() ==> {
                let e = #[trigger] scored_upto(s, rad, n)[i];
                e.0 < 19 && e.1 < 19 && valid_move(s, e.0 as int, e.1 as int)
            },
    decreases n,
{
    if n > 0 {
        lemma_scored_upto_valid(s, rad, n - 1);
        let prev = scored_upto(s, rad, n - 1);
        let x = (n - 1) / 19;
        let y = (n - 1) % 19;
        assert((x as u8) as int == x && (y as u8) as int == y);
        let cur = scored_upto(s, rad, n);
        assert forall|i: int| 0 <= i < cur.len() implies {
            let e = #[trigger] cur[i];
            e.0 < 19 && e.1 < 19 && valid_move(s, e.0 as int, e.1 as int)
        } by {
            if i < prev.len() {
                assert(cur[i] == prev[i]);
            }
        }
    }
}

/// Every move of an ordered candidate list is an empty cell of the board.
pub proof fn lemma_candidates_playable(s: SearchState, rad: int, out: Seq<(u8, u8, i32)>)
    requires
        ordered_candidates(s, rad, out),
    ensures
        forall|i: int| 0 <= i < out.len() ==> #[trigger] playable(s, (out[i].0, out[i].1)),
{
    if board_empty(s) {
        assert(s.cells[180int] == Cell::Empty);
        assert(playable(s, (out[0].0, out[0].1)));
    } else {
        let items = scored_candidates(s, rad);
        let keys = items.map_values(|m: (u8, u8, i32)| descending_key(m));
        let order = choose|order: Seq<usize>| #[trigger] arranged(out, items, keys, order);
        assert(arranged(out, items, keys, order));
        lemma_scored_upto_valid(s, rad, 361);
        assert forall|i: int| 0 <= i < out.len() implies #[trigger] playable(s, (out[i].0, out[i].1)) by {
            let j = order[i] as int;
            assert(0 <= j < keys.len());
            assert(out[i] == items[j]);
        }
    }
}

/// The state after the side to move of `s` plays `(r, c)`.
pub open spec fn after_move(s: SearchState, r: int, c: int) -> SearchState {
    (choose|p: (SearchState, UndoInfo)| #[trigger] made(s, r, c, p.0, p.1)).0
}

/// A move gives one state: the one `after_move` names.
pub proof fn lemma_after_move(s: SearchState, r: int, c: int, n: SearchState, info: UndoInfo)
    requires
        made(s, r, c, n, info),
    ensures
        n == after_move(s, r, c),
{
    assert(made(s, r, c, (n, info).0, (n, info).1));
    let p = choose|p: (SearchState, UndoInfo)| #[trigger] made(s, r, c, p.0, p.1);
    assert(made(s, r, c, p.0, p.1));
    let m = p.0;
    assert forall|x: int, y: int| on_board(x, y) implies #[trigger] n.grid()(x, y) == m.grid()(x, y) by {
        assert(n.grid() == m.grid());
    }
    lemma_grid_cells(n, m);
    if s.is_black_turn {
        assert(n.black_captures == m.black_captures);
        assert(n.white_captures == m.white_captures);
    } else {
        assert(n.white_captures == m.white_captures);
        assert(n.black_captures == m.black_captures);
    }
}

/// The candidate list of a search with radius `rad`.
pub open spec fn cands_of(s: SearchState, rad: int) -> Seq<(u8, u8, i32)> {
    choose|out: Seq<(u8, u8, i32)>| ordered_candidates(s, rad, out)
}

/// There is one ordered candidate list.
pub proof fn lemma_cands_of(s: SearchState, rad: int, out: Seq<(u8, u8, i32)>)
    requires
        ordered_candidates(s, rad, out),
    ensures
        out == cands_of(s, rad),
{
    let c = cands_of(s, rad);
    assert(ordered_candidates(s, rad, c));
    if !board_empty(s) {
        let items = scored_candidates(s, rad);
        let keys = items.map_values(|m: (u8, u8, i32)| descending_key(m));
        let o1 = choose|order: Seq<usize>| #[trigger] arranged(out, items, keys, order);
        assert(arranged(out, items, keys, o1));
        let o2 = choose|order: Seq<usize>| #[trigger] arranged(c, items, keys, order);
        assert(arranged(c, items, keys, o2));
        lemma_stable_order_unique(o1, o2, keys);
    }
}

/// The moves of a scored candidate list.
pub open spec fn cand_moves(scored: Seq<(u8, u8, i32)>) -> Seq<(u8, u8)> {
    scored.map_values(|m: (u8, u8, i32)| (m.0, m.1))
}

/// The cells a candidate search with radius `rad` lists, in cell order.
pub open spec fn candidate_cells(s: SearchState, rad: int) -> Seq<(u8, u8)> {
    if board_empty(s) {
        seq![(9u8, 9u8)]
    } else {
        cand_moves(scored_candidates(s, rad))
    }
}

/// `a` holds the moves of `b`, each once, in some order.
pub open spec fn same_moves(a: Seq<(u8, u8)>, b: Seq<(u8, u8)>) -> bool {
    &&& a.len() == b.len()
    &&& a.no_duplicates()
    &&& b.no_duplicates()
    &&& forall|m: (u8, u8)| a.contains(m) <==> b.contains(m)
}

/// The candidates up to cell index `n` come in increasing cell order.
proof fn lemma_scored_upto_increasing(s: SearchState, rad: int, n: int)
    requires
        0 <= n <= 361,
    ensures
        forall|i: int|
            0 <= i < scored_upto(s, rad, n).len() ==> ({
                let e = #[trigger] scored_upto(s, rad, n)[i];
                e.0 < 19 && e.1 < 19 && e.0 * 19 + e.1 < n
            }),
        forall|i: int, j: int|
            0 <= i < j < scored_upto(s, rad, n).len() ==> #[trigger] scored_upto(s, rad, n)[i].0 * 19
                + scored_upto(s, rad, n)[i].1 < #[trigger] scored_upto(s, rad, n)[j].0 * 19 + scored_upto(
                s,
                rad,
                n,
            )[j].1,
    decreases n,
{
    if n > 0 {
        lemma_scored_upto_increasing(s, rad, n - 1);
        let prev = scored_upto(s, rad, n - 1);
        let cur = scored_upto(s, rad, n);
        let x = (n - 1) / 19;
        let y = (n - 1) % 19;
        assert(x * 19 + y == n - 1 && 0 <= x < 19 && 0 <= y < 19);
        assert((x as u8) as int == x && (y as u8) as int == y);
        assert forall|i: int| 0 <= i < cur.len() implies ({
            let e = #[trigger] cur[i];
            e.0 < 19 && e.1 < 19 && e.0 * 19 + e.1 < n
        }) by {
            if i < prev.len() {
                assert(cur[i] == prev[i]);
            }
        }
        assert forall|i: int, j: int| 0 <= i < j < cur.len() implies #[trigger] cur[i].0 * 19 + cur[i].1
            < #[trigger] cur[j].0 * 19 + cur[j].1 by {
            assert(cur[i] == prev[i]);
            if j < prev.len() {
                assert(cur[j] == prev[j]);
            }
        }
    }
}

/// A stable ordering lists every entry once: the arranged list holds the
/// same entries, and no entry twice where the input had none twice.
pub proof fn lemma_arranged_same<T>(out: Seq<T>, items: Seq<T>, keys: Seq<i32>, order: Seq<usize>)
    requires
        stable_order_of(order, keys),
        keys.len() == items.len(),
        out == order.map_values(|i: usize| items[i as int]),
    ensures
        out.len() == items.len(),
        forall|x: T| out.contains(x) <==> items.contains(x),
        items.no_duplicates() ==> out.no_duplicates(),
{
    let n = items.len() as int;
    assert forall|x: T| out.contains(x) implies items.contains(x) by {
        let j = choose|j: int| 0 <= j < out.len() && out[j] == x;
        assert(items[order[j] as int] == x);
    }
    assert forall|x: T| items.contains(x) implies out.contains(x) by {
        let t = choose|t: int| 0 <= t < n && items[t] == x;
        assert(listed(order, n, t));
        let j = choose|j: int| 0 <= j < n && #[trigger] order[j] == t;
        assert(out[j] == x);
    }
    if items.no_duplicates() {
        assert forall|a: int, b: int| 0 <= a < out.len() && 0 <= b < out.len() && a != b implies out[a] != out[b] by {
            if a < b {
                assert(key_before(keys, order[a] as int, order[b] as int));
            } else {
                assert(key_before(keys, order[b] as int, order[a] as int));
            }
            assert(order[a] != order[b]);
        }
    }
}

/// An ordered candidate list holds each candidate cell once.
proof fn lemma_candidates_same(s: SearchState, rad: int, out: Seq<(u8, u8, i32)>)
    requires
        ordered_candidates(s, rad, out),
    ensures
        same_moves(cand_moves(out), candidate_cells(s, rad)),
{
    if board_empty(s) {
        assert(cand_moves(out) =~= seq![(9u8, 9u8)]);
    } else {
        let items = scored_candidates(s, rad);
        let keys = items.map_values(|m: (u8, u8, i32)| descending_key(m));
        let order = choose|order: Seq<usize>| #[trigger] arranged(out, items, keys, order);
        assert(arranged(out, items, keys, order));
        let cells = cand_moves(items);
        lemma_scored_upto_increasing(s, rad, 361);
        assert forall|a: int, b: int| 0 <= a < cells.len() && 0 <= b < cells.len() && a != b implies cells[a]
            != cells[b] by {
            if a < b {
                assert(items[a].0 * 19 + items[a].1 < items[b].0 * 19 + items[b].1);
            } else {
                assert(items[b].0 * 19 + items[b].1 < items[a].0 * 19 + items[a].1);
            }
        }
        assert(cand_moves(out) =~= order.map_values(|i: usize| cells[i as int]));
        lemma_arranged_same(cand_moves(out), cells, keys, order);
    }
}

/// Where the previous order holds every candidate, no candidate is new.
proof fn lemma_fresh_none(prev: Seq<(u8, u8)>, cands: Seq<(u8, u8)>, n: int)
    requires
        0 <= n <= cands.len(),
        forall|i: int| 0 <= i < n ==> prev.contains(#[trigger] cands[i]),
    ensures
        fresh_moves(prev, cands, n) == Seq::<(u8, u8)>::empty(),
    decreases n,
{
    if n > 0 {
        lemma_fresh_none(prev, cands, n - 1);
    }
}

/// On the board, the pairs `player` would capture by playing a cell are the
/// pairs a move there captures.
pub proof fn lemma_captures_at_before(g: Grid, r: int, c: int, player: Cell, n: int)
    requires
        on_board(r, c),
        player != Cell::Empty,
        0 <= n <= 8,
    ensures
        captures_at(g, r, c, player, n) == captures_before(g, r, c, player, player.other(), n),
    decreases n,
{
    if n > 0 {
        lemma_captures_at_before(g, r, c, player, n - 1);
        let dr = all_dir(n - 1).0;
        let dc = all_dir(n - 1).1;
        assert(brackets(g, r, c, dr, dc, player) == capture_in(g, r, c, n - 1, player, player.other()));
    }
}

/// Number of `s` in `1..=k` with `s * s <= n`: the integer square root of
/// `n` once `k * k > n`.
pub open spec fn squares_upto(n: int, k: int) -> int
    decreases k,
{
    if k <= 0 {
        0
    } else {
        squares_upto(n, k - 1) + if k * k <= n {
            1int
        } else {
            0
        }
    }
}

/// Depth reduction of the move at `idx` in the move list with `rem` plies
/// left: `⌊√rem · √idx / 2⌋`, at least one and leaving at least one ply.
/// The square roots are taken in double precision, which puts `√3·√12` and
/// `√6·√6` just below 6; the last term accounts for those two products.
pub open spec fn lmr_reduction(rem: int, idx: int) -> int {
    let r = squares_upto(rem * idx, 11) / 2 - if (rem == 3 && idx == 12) || (rem == 6 && idx == 6) {
        1int
    } else {
        0
    };
    let at_least_one = if r < 1 {
        1
    } else {
        r
    };
    if at_least_one > rem - 1 {
        rem - 1
    } else {
        at_least_one
    }
}

/// The late-move reduction for the move at `move_idx` with `remaining`
/// plies left.
pub fn lmr(remaining: usize, move_idx: usize) -> (r: usize)
    requires
        3 <= remaining <= 8,
        2 <= move_idx <= 15,
    ensures
        r == lmr_reduction(remaining as int, move_idx as int),
        1 <= r < remaining,
{
    assert(remaining * move_idx <= 120) by (nonlinear_arith)
        requires
            remaining <= 8,
            move_idx <= 15,
    ;
    let n = remaining * move_idx;
    let mut root: usize = 0;
    let mut k: usize = 1;
    while k <= 11
        invariant
            1 <= k <= 12,
            n == remaining * move_idx,
            n <= 120,
            root == squares_upto(n as int, k - 1),
            root < k,
        decreases 12 - k,
    {
        assert(k * k <= 121) by (nonlinear_arith)
            requires
                k <= 11,
        ;
        if k * k <= n {
            root += 1;
        }
        k += 1;
    }
    let mut r = root / 2;
    if ((remaining == 3 && move_idx == 12) || (remaining == 6 && move_idx == 6)) && r > 0 {
        r = r - 1;
    }
    if r < 1 {
        r = 1;
    }
    if r > remaining - 1 {
        r = remaining - 1;
    }
    r
}

/// Every move of `moves` is an empty cell of the board of `s`.
pub open spec fn all_playable(s: SearchState, moves: Seq<(u8, u8)>) -> bool {
    forall|i: int| 0 <= i < moves.len() ==> #[trigger] playable(s, moves[i])
}

/// Moving one entry forward keeps the same entries.
proof fn lemma_bring_forward_members<T>(v: Seq<T>, from: int, to: int)
    requires
        0 <= to <= from < v.len(),
    ensures
        v.remove(from).insert(to, v[from]).len() == v.len(),
        forall|i: int| 0 <= i < v.len() ==> v.contains(#[trigger] v.remove(from).insert(to, v[from])[i]),
{
    let w = v.remove(from);
    let u = w.insert(to, v[from]);
    assert forall|i: int| 0 <= i < v.len() implies v.contains(#[trigger] u[i]) by {
        if i < to {
            assert(u[i] == w[i]);
            assert(w[i] == v[i]);
        } else if i == to {
            assert(u[i] == v[from]);
        } else {
            assert(u[i] == w[i - 1]);
            if i - 1 < from {
                assert(w[i - 1] == v[i - 1]);
            } else {
                assert(w[i - 1] == v[i]);
            }
        }
    }
}

/// Position of the first `m` in `moves` at or after `from`.
pub fn find_move(moves: &Vec<(u8, u8)>, from: usize, m: (u8, u8)) -> (r: Option<usize>)
    requires
        from <= moves.len(),
    ensures
        match r {
            Some(p) => from <= p < moves.len() && moves@[p as int] == m && forall|q: int|
                from <= q < p ==> #[trigger] moves@[q] != m,
            None => forall|q: int| from <= q < moves.len() ==> #[trigger] moves@[q] != m,
        },
{
    let mut i = from;
    while i < moves.len()
        invariant
            from <= i <= moves.len(),
            forall|q: int| from <= q < i ==> #[trigger] moves@[q] != m,
        decreases moves.len() - i,
    {
        let (r, c) = moves[i];
        if r == m.0 && c == m.1 {
            return Some(i);
        }
        i += 1;
    }
    None
}

/// Move the entry at `from` to position `to` in both lists, keeping the
/// order of the others.
pub fn bring_forward(moves: &mut Vec<(u8, u8)>, scores: &mut Vec<i32>, from: usize, to: usize)
    requires
        to <= from < old(moves).len(),
        old(moves).len() == old(scores).len(),
    ensures
        final(moves)@ == old(moves)@.remove(from as int).insert(to as int, old(moves)@[from as int]),
        final(scores)@ == old(scores)@.remove(from as int).insert(to as int, old(scores)@[from as int]),
        final(moves).len() == old(moves).len(),
        final(scores).len() == old(scores).len(),
{
    let m = moves.remove(from);
    let s = scores.remove(from);
    moves.insert(to, m);
    scores.insert(to, s);
}

/// The moves of a list paired with their ordering values.
pub open spec fn entries(moves: Seq<(u8, u8)>, scores: Seq<i32>) -> Seq<((u8, u8), i32)> {
    Seq::new(moves.len(), |i: int| (moves[i], scores[i]))
}

/// `p` is the first position at or after `at` whose move is `m`.
pub open spec fn first_from(s: Seq<((u8, u8), i32)>, at: int, m: (u8, u8), p: int) -> bool {
    &&& at <= p < s.len()
    &&& s[p].0 == m
    &&& forall|q: int| at <= q < p ==> #[trigger] s[q].0 != m
}

/// `m` occurs at or after position `at`.
pub open spec fn occurs_from(s: Seq<((u8, u8), i32)>, at: int, m: (u8, u8)) -> bool {
    exists|p: int| first_from(s, at, m, p)
}

/// The first entry for `m` at or after `at` moved to position `at`, the
/// others keeping their order; the list unchanged where `m` does not occur.
pub open spec fn promote(s: Seq<((u8, u8), i32)>, at: int, m: (u8, u8)) -> Seq<((u8, u8), i32)> {
    if occurs_from(s, at, m) {
        let p = choose|p: int| first_from(s, at, m, p);
        s.remove(p).insert(at, s[p])
    } else {
        s
    }
}

/// One killer slot applied at position `at`: the list and the next position.
pub open spec fn killer_step(
    s: Seq<((u8, u8), i32)>,
    at: int,
    killer: Option<(u8, u8)>,
) -> (Seq<((u8, u8), i32)>, int) {
    match killer {
        Some(k) => if occurs_from(s, at, k) {
            (promote(s, at, k), at + 1)
        } else {
            (s, at)
        },
        None => (s, at),
    }
}

/// The entries after ordering: the table move to the front, then the two
/// killers (where `use_killers`) right behind it, each taken from the part
/// of the list after the entries already placed.
pub open spec fn ordered_entries(
    s: Seq<((u8, u8), i32)>,
    tt_move: Option<(u8, u8)>,
    killers: [Option<(u8, u8)>; 2],
    use_killers: bool,
) -> Seq<((u8, u8), i32)> {
    let s1 = match tt_move {
        Some(b) => promote(s, 0, b),
        None => s,
    };
    if use_killers {
        let at = if s1.len() < 1 { s1.len() as int } else { 1 };
        killer_steps(s1, at, killers, 2).0
    } else {
        s1
    }
}

/// The first `k` killer slots applied from position `at` on.
pub open spec fn killer_steps(
    s: Seq<((u8, u8), i32)>,
    at: int,
    killers: [Option<(u8, u8)>; 2],
    k: int,
) -> (Seq<((u8, u8), i32)>, int)
    decreases k,
{
    if k <= 0 {
        (s, at)
    } else {
        let prev = killer_steps(s, at, killers, k - 1);
        killer_step(prev.0, prev.1, killers[k - 1])
    }
}

/// The first position found is the one `promote` takes.
proof fn lemma_promote_at(s: Seq<((u8, u8), i32)>, at: int, m: (u8, u8), p: int)
    requires
        first_from(s, at, m, p),
    ensures
        occurs_from(s, at, m),
        promote(s, at, m) == s.remove(p).insert(at, s[p]),
{
    assert(occurs_from(s, at, m));
    let c = choose|c: int| first_from(s, at, m, c);
    assert(first_from(s, at, m, c));
    if c < p {
        assert(s[c].0 != m);
    } else if p < c {
        assert(s[p].0 != m);
    }
    assert(c == p);
}

/// Moving one position in both lists moves the paired entry.
proof fn lemma_entries_bring(moves: Seq<(u8, u8)>, scores: Seq<i32>, from: int, to: int)
    requires
        moves.len() == scores.len(),
        0 <= to <= from < moves.len(),
    ensures
        entries(moves.remove(from).insert(to, moves[from]), scores.remove(from).insert(to, scores[from]))
            == entries(moves, scores).remove(from).insert(to, entries(moves, scores)[from]),
{
    let e = entries(moves, scores);
    let lhs = entries(moves.remove(from).insert(to, moves[from]), scores.remove(from).insert(to, scores[from]));
    let rhs = e.remove(from).insert(to, e[from]);
    assert(lhs.len() == rhs.len());
    assert forall|i: int| 0 <= i < lhs.len() implies lhs[i] == rhs[i] by {
        if i < to {
        } else if i == to {
        } else if i <= from {
        } else {
        }
    }
    assert(lhs =~= rhs);
}

/// Put the transposition-table move first and the killer moves of `ply`
/// right after it, each only if it is in the list; the rest keep their order.
pub fn order_moves(
    moves: &mut Vec<(u8, u8)>,
    scores: &mut Vec<i32>,
    tt_move: Option<(u8, u8)>,
    ctx: &SearchContext,
    ply: usize,
)
    requires
        old(moves).len() == old(scores).len(),
    ensures
        final(moves).len() == old(moves).len(),
        final(scores).len() == old(scores).len(),
        forall|i: int| 0 <= i < final(moves).len() ==> old(moves)@.contains(#[trigger] final(moves)@[i]),
        tt_move matches Some(m) ==> (old(moves)@.contains(m) ==> final(moves)@[0] == m),
        entries(final(moves)@, final(scores)@) == ordered_entries(
            entries(old(moves)@, old(scores)@),
            tt_move,
            ctx.killer_moves[ply as int],
            ply < MAX_PLY,
        ),
{
    let ghost start = moves@;
    let ghost mut first: Option<(u8, u8)> = None;
    let ghost e0 = entries(moves@, scores@);
    proof {
        assert forall|i: int| 0 <= i < moves.len() implies start.contains(#[trigger] moves@[i]) by {
            assert(start[i] == moves@[i]);
        }
    }
    if let Some(best) = tt_move {
        if let Some(pos) = find_move(moves, 0, best) {
            let ghost cur = moves@;
            proof {
                lemma_bring_forward_members(cur, pos as int, 0);
                assert(first_from(e0, 0, best, pos as int));
                lemma_promote_at(e0, 0, best, pos as int);
                lemma_entries_bring(moves@, scores@, pos as int, 0);
            }
            bring_forward(moves, scores, pos, 0);
            proof {
                first = Some(best);
                assert(moves@[0] == best);
                assert forall|i: int| 0 <= i < moves.len() implies start.contains(#[trigger] moves@[i]) by {
                    assert(cur.contains(moves@[i]));
                    let j = choose|j: int| 0 <= j < cur.len() && cur[j] == moves@[i];
                    assert(start.contains(cur[j]));
                }
            }
        } else {
            proof {
                assert forall|p: int| !first_from(e0, 0, best, p) by {
                    if 0 <= p < e0.len() {
                        assert(e0[p].0 == moves@[p]);
                    }
                }
            }
        }
    }
    let ghost s1 = entries(moves@, scores@);
    assert(s1 == match tt_move {
        Some(b) => promote(e0, 0, b),
        None => e0,
    });
    if ply < MAX_PLY {
        let mut insert_pos: usize = if moves.len() < 1 {
            moves.len()
        } else {
            1
        };
        let ghost at0 = insert_pos as int;
        let ghost killers = ctx.killer_moves[ply as int];
        let mut k: usize = 0;
        while k < 2
            invariant
                0 <= k <= 2,
                ply < 64,
                insert_pos <= moves.len(),
                moves.len() == old(moves).len(),
                scores.len() == old(scores).len(),
                old(moves).len() == old(scores).len(),
                start == old(moves)@,
                forall|i: int| 0 <= i < moves.len() ==> start.contains(#[trigger] moves@[i]),
                first matches Some(b) ==> moves.len() >= 1 && insert_pos >= 1 && moves@[0] == b,
                killers == ctx.killer_moves[ply as int],
                (entries(moves@, scores@), insert_pos as int) == killer_steps(s1, at0, killers, k as int),
            decreases 2 - k,
        {
            let ghost before = entries(moves@, scores@);
            assert(killer_steps(s1, at0, killers, k as int + 1) == killer_step(before, insert_pos as int, killers[k as int]));
            if let Some(km) = ctx.killer_moves[ply][k] {
                if let Some(pos) = find_move(moves, insert_pos, km) {
                    let ghost cur = moves@;
                    proof {
                        lemma_bring_forward_members(cur, pos as int, insert_pos as int);
                        assert(first_from(before, insert_pos as int, km, pos as int));
                        lemma_promote_at(before, insert_pos as int, km, pos as int);
                        lemma_entries_bring(moves@, scores@, pos as int, insert_pos as int);
                    }
                    bring_forward(moves, scores, pos, insert_pos);
                    proof {
                        if insert_pos >= 1 {
                            assert(moves@[0] == cur[0]);
                        }
                        assert forall|i: int| 0 <= i < moves.len() implies start.contains(#[trigger] moves@[i]) by {
                            assert(cur.contains(moves@[i]));
                            let j = choose|j: int| 0 <= j < cur.len() && cur[j] == moves@[i];
                            assert(start.contains(cur[j]));
                        }
                    }
                    insert_pos += 1;
                } else {
                    proof {
                        assert forall|p: int| !first_from(before, insert_pos as int, km, p) by {
                            if insert_pos <= p < before.len() {
                                assert(before[p].0 == moves@[p]);
                            }
                        }
                    }
                }
            }
            k += 1;
        }
    }
}

/// Moves searched at a node with `remaining` plies left.
pub open spec fn move_cap(tactical: bool, remaining: int) -> int {
    if tactical {
        if remaining <= 1 {
            7
        } else if remaining <= 3 {
            9
        } else if remaining <= 5 {
            11
        } else {
            15
        }
    } else {
        if remaining <= 1 {
            5
        } else if remaining <= 3 {
            7
        } else if remaining <= 5 {
            9
        } else {
            12
        }
    }
}

pub fn max_moves(tactical: bool, remaining: usize) -> (n: usize)
    ensures
        n == move_cap(tactical, remaining as int),
        n <= 15,
{
    if tactical {
        if remaining <= 1 {
            7
        } else if remaining <= 3 {
            9
        } else if remaining <= 5 {
            11
        } else {
            15
        }
    } else {
        if remaining <= 1 {
            5
        } else if remaining <= 3 {
            7
        } else if remaining <= 5 {
            9
        } else {
            12
        }
    }
}

/// The moves and ordering values of a scored candidate list, as two lists.
pub fn split_scored(scored: &Vec<(u8, u8, i32)>) -> (r: (Vec<(u8, u8)>, Vec<i32>))
    ensures
        r.0.len() == scored.len(),
        r.1.len() == scored.len(),
        forall|i: int|
            0 <= i < scored.len() ==> #[trigger] r.0@[i] == (scored@[i].0, scored@[i].1) && r.1@[i] == scored@[i].2,
{
    let mut moves: Vec<(u8, u8)> = Vec::new();
    let mut values: Vec<i32> = Vec::new();
    let mut i: usize = 0;
    while i < scored.len()
        invariant
            0 <= i <= scored.len(),
            moves.len() == i,
            values.len() == i,
            forall|j: int| 0 <= j < i ==> #[trigger] moves@[j] == (scored@[j].0, scored@[j].1) && values@[j] == scored@[j].2,
        decreases scored.len() - i,
    {
        let (r, c, v) = scored[i];
        moves.push((r, c));
        values.push(v);
        i += 1;
    }
    (moves, values)
}

/// The search can go `max_depth - depth` plies deeper from `s` without a
/// capture counter or the move counter overflowing.
/// The window after reading a table entry found for the position: a lower
/// bound raises `alpha`, an upper bound lowers `beta`, when the entry was
/// searched at least `remaining` plies deep.
pub open spec fn probed_window(found: Option<TTEntry>, alpha: int, beta: int, remaining: int) -> (int, int) {
    match found {
        Some(e) => if e.depth >= remaining {
            match e.flag {
                TTFlag::LowerBound => (if e.score > alpha { e.score as int } else { alpha }, beta),
                TTFlag::UpperBound => (alpha, if e.score < beta { e.score as int } else { beta }),
                TTFlag::Exact => (alpha, beta),
            }
        } else {
            (alpha, beta)
        },
        None => (alpha, beta),
    }
}

/// The score a table entry answers the search with outright: an exact
/// score, a bound outside the window, or a window the bound closes.
pub open spec fn table_answer(found: Option<TTEntry>, alpha: int, beta: int, remaining: int) -> Option<i32> {
    match found {
        Some(e) => if e.depth >= remaining {
            let w = probed_window(found, alpha, beta, remaining);
            match e.flag {
                TTFlag::Exact => Some(e.score),
                TTFlag::LowerBound => if e.score >= beta || w.0 >= w.1 { Some(e.score) } else { None },
                TTFlag::UpperBound => if e.score <= alpha || w.0 >= w.1 { Some(e.score) } else { None },
            }
        } else {
            None
        },
        None => None,
    }
}

/// The table holds an entry with this score, depth and flag.
pub open spec fn recorded(found: Option<TTEntry>, score: i32, depth: int, flag: TTFlag) -> bool {
    &&& found is Some
    &&& found->0.score == score
    &&& found->0.depth == depth
    &&& found->0.flag == flag
}

/// How a score found in the window `(alpha, beta)` bounds the position.
pub open spec fn bound_flag(score: int, alpha: int, beta: int) -> TTFlag {
    if score <= alpha {
        TTFlag::UpperBound
    } else if score >= beta {
        TTFlag::LowerBound
    } else {
        TTFlag::Exact
    }
}

pub open spec fn room_to_search(s: SearchState, depth: int, max_depth: int) -> bool {
    &&& 1 <= depth <= max_depth <= 8
    &&& s.black_captures + 4 * (max_depth - depth) <= 255
    &&& s.white_captures + 4 * (max_depth - depth) <= 255
    &&& s.move_count + (max_depth - depth) < 65535
}

/// The position with the other side to move, as after a pass.
pub open spec fn passed(s: SearchState) -> SearchState {
    SearchState { is_black_turn: !s.is_black_turn, zobrist_hash: s.zobrist_hash ^ side_key(), ..s }
}

/// A scored candidate list as move and ordering-value pairs.
pub open spec fn scored_entries(scored: Seq<(u8, u8, i32)>) -> Seq<((u8, u8), i32)> {
    Seq::new(scored.len(), |i: int| ((scored[i].0, scored[i].1), scored[i].2))
}

/// The state of the move loop of a search: the window, the best score, the
/// ply it was found at and its move, the table slots and the context.
pub open spec fn loop_start(
    alpha: i32,
    beta: i32,
    is_max: bool,
    max_depth: int,
    slots: Seq<(u64, u64)>,
    ctx: SearchContext,
) -> (i32, i32, i32, int, Option<(u8, u8)>, Seq<(u64, u64)>, SearchContext) {
    (alpha, beta, sentinel(is_max) as i32, max_depth, None, slots, ctx)
}

/// The value of the child `child` reached by the move at position `idx` of
/// the list, with a late move searched shallower first and searched again
/// at full depth where that improves the window.
pub open spec fn child_value(
    child: SearchState,
    idx: int,
    score: i32,
    is_max: bool,
    depth: int,
    max_depth: int,
    alpha: i32,
    beta: i32,
    slots: Seq<(u64, u64)>,
    ctx: SearchContext,
) -> (i32, int, Seq<(u64, u64)>, SearchContext)
    decreases max_depth - depth, 0int, 0int,
{
    let rem = max_depth - depth;
    if depth < 0 || depth >= max_depth {
        (0, 0, slots, ctx)
    } else if idx >= 2 && rem >= 3 && score < 800_000 {
        let red = lmr_reduction(rem, idx);
        let first = search_value(child, alpha, beta, !is_max, depth + 1, max_depth - red, slots, ctx);
        if (is_max && first.0 > alpha) || (!is_max && first.0 < beta) {
            search_value(child, alpha, beta, !is_max, depth + 1, max_depth, first.2, first.3)
        } else {
            first
        }
    } else {
        search_value(child, alpha, beta, !is_max, depth + 1, max_depth, slots, ctx)
    }
}

/// The move loop of a search of `s` from position `idx` of the ordered list
/// on: each move that captures at most four pairs is searched, the best
/// score kept (ties go to the shallower value) and the window narrowed; a
/// closed window stops the loop and credits the move in the context.
pub open spec fn search_loop(
    s: SearchState,
    list: Seq<((u8, u8), i32)>,
    idx: int,
    is_max: bool,
    depth: int,
    max_depth: int,
    st: (i32, i32, i32, int, Option<(u8, u8)>, Seq<(u64, u64)>, SearchContext),
) -> (i32, i32, i32, int, Option<(u8, u8)>, Seq<(u64, u64)>, SearchContext)
    decreases max_depth - depth, 1int, list.len() - idx,
{
    if idx < 0 || idx >= list.len() || depth < 0 || depth >= max_depth {
        st
    } else {
        let m = list[idx].0;
        if captures_at(s.grid(), m.0 as int, m.1 as int, s.to_move(), 8) > 4 {
            search_loop(s, list, idx + 1, is_max, depth, max_depth, st)
        } else {
            let child = after_move(s, m.0 as int, m.1 as int);
            let r = child_value(child, idx, list[idx].1, is_max, depth, max_depth, st.0, st.1, st.5, st.6);
            let improves = if is_max {
                r.0 > st.2 || (r.0 == st.2 && r.1 < st.3)
            } else {
                r.0 < st.2 || (r.0 == st.2 && r.1 < st.3)
            };
            let best = if improves {
                r.0
            } else {
                st.2
            };
            let best_depth = if improves {
                r.1
            } else {
                st.3
            };
            let best_move = if improves {
                Some(m)
            } else {
                st.4
            };
            let alpha = if is_max && best > st.0 {
                best
            } else {
                st.0
            };
            let beta = if !is_max && best < st.1 {
                best
            } else {
                st.1
            };
            if alpha >= beta {
                let credited = history_after(killer_after(r.3, depth, m), s.is_black_turn, m, max_depth - depth);
                (alpha, beta, best, best_depth, best_move, r.2, credited)
            } else {
                search_loop(s, list, idx + 1, is_max, depth, max_depth, (alpha, beta, best, best_depth, best_move, r.2, r.3))
            }
        }
    }
}

/// What the search of `s` for the window `(alpha, beta)` from ply `depth`
/// to ply `max_depth` returns and leaves behind: the value, the ply it was
/// found at, the table slots and the context. A finished game scores its
/// result and the horizon the static evaluation; a table entry deep enough
/// may answer outright or narrow the window; away from tactical positions a
/// pass searched three plies shallower may cut the node off; otherwise the
/// candidates, the table's move and the killers first and capped in number,
/// are searched in turn and the result is stored in the table.
pub open spec fn search_value(
    s: SearchState,
    alpha: i32,
    beta: i32,
    is_max: bool,
    depth: int,
    max_depth: int,
    slots: Seq<(u64, u64)>,
    ctx: SearchContext,
) -> (i32, int, Seq<(u64, u64)>, SearchContext)
    decreases max_depth - depth, 3int, 0int,
{
    if terminal(s) is Some {
        (terminal(s)->0, depth, slots, ctx)
    } else if depth < 0 || depth >= max_depth {
        (heuristic(s) as i32, depth, slots, ctx)
    } else {
        let found = lookup_slots(slots, s.zobrist_hash);
        let rem = max_depth - depth;
        match table_answer(found, alpha as int, beta as int, rem) {
            Some(v) => (v, depth, slots, ctx),
            None => {
                let w = probed_window(found, alpha as int, beta as int, rem);
                let tt_move = match found {
                    Some(e) => e.best_move,
                    None => None,
                };
                node_value(s, w.0 as i32, w.1 as i32, tt_move, is_max, depth, max_depth, slots, ctx)
            },
        }
    }
}

/// The search of a node of `s` past the table probe, for the window
/// `(a, b)`, with the table's move `tt_move` tried first: the pass, the
/// move loop and the table store.
pub open spec fn node_value(
    s: SearchState,
    a: i32,
    b: i32,
    tt_move: Option<(u8, u8)>,
    is_max: bool,
    depth: int,
    max_depth: int,
    slots: Seq<(u64, u64)>,
    ctx: SearchContext,
) -> (i32, int, Seq<(u64, u64)>, SearchContext)
    decreases max_depth - depth, 2int, 0int,
{
    if depth < 0 || depth >= max_depth {
        (0, 0, slots, ctx)
    } else {
        let rem = max_depth - depth;
        let scored = cands_of(s, if depth < 3 {
            3
        } else {
            2
        });
        let tactical = scored.len() > 0 && scored[0].2 >= 800_000;
        let try_pass = rem >= 3 && !tactical && s.caps_of(!s.is_black_turn) < 3;
        let pass = if try_pass {
            search_value(passed(s), a, b, !is_max, depth + 3, max_depth, slots, ctx)
        } else {
            (0, 0, slots, ctx)
        };
        if try_pass && is_max && pass.0 >= b {
            (b, depth, pass.2, pass.3)
        } else if try_pass && !is_max && pass.0 <= a {
            (a, depth, pass.2, pass.3)
        } else {
            let ordered = ordered_entries(scored_entries(scored), tt_move, pass.3.killer_moves[depth], depth < MAX_PLY);
            let cap = move_cap(tactical, rem);
            let list = if cap < ordered.len() {
                ordered.take(cap)
            } else {
                ordered
            };
            let fin = search_loop(s, list, 0, is_max, depth, max_depth, loop_start(a, b, is_max, max_depth, pass.2, pass.3));
            let e = TTEntry {
                hash: s.zobrist_hash,
                score: fin.2,
                depth: rem as u8,
                flag: bound_flag(fin.2 as int, a as int, b as int),
                best_move: fin.4,
            };
            (fin.2, fin.3, stored(fin.5, e), fin.6)
        }
    }
}

/// Alpha-beta value of `state` for the window `(alpha, beta)`, searched from
/// ply `depth` to ply `max_depth`, with the ply at which the value was found.
/// Finished games score their result and the horizon scores the static
/// evaluation; in between the search probes and fills the transposition
/// table, tries a null move away from tactical positions, orders the
/// table's move and the killer moves first, caps the number of moves by the
/// plies left, and searches late quiet moves with reduced depth first. A
/// move that would capture more than four pairs at once is not searched.
#[verifier::spinoff_prover]
#[verifier::rlimit(60)]
pub fn alphabeta(
    state: &mut SearchState,
    alpha: i32,
    beta: i32,
    is_max_player: bool,
    depth: usize,
    max_depth: usize,
    tt: &mut TranspositionTable,
    ctx: &mut SearchContext,
) -> (res: (i32, usize))
    requires
        room_to_search(*old(state), depth as int, max_depth as int),
        old(tt).wf(),
        old(ctx).wf(),
        score_ok(alpha as int),
        score_ok(beta as int),
    ensures
        *final(state) == *old(state),
        final(tt).wf(),
        final(ctx).wf(),
        score_ok(res.0 as int),
        depth <= res.1 <= max_depth,
        terminal(*old(state)) matches Some(v) ==> res == (v, depth),
        terminal(*old(state)) is None && depth == max_depth ==> res == (heuristic(*old(state)) as i32, depth),
        terminal(*old(state)) is None && depth < max_depth ==> ({
            let found = old(tt).lookup(old(state).zobrist_hash);
            let rem = max_depth - depth;
            let w = probed_window(found, alpha as int, beta as int, rem);
            match table_answer(found, alpha as int, beta as int, rem) {
                Some(v) => res == (v, depth) && *final(tt) == *old(tt) && *final(ctx) == *old(ctx),
                None => res.1 == depth || (res.1 > depth && recorded(
                    final(tt).lookup(old(state).zobrist_hash),
                    res.0,
                    rem,
                    bound_flag(res.0 as int, w.0, w.1),
                )),
            }
        }),
        ({
            let v = search_value(
                *old(state),
                alpha,
                beta,
                is_max_player,
                depth as int,
                max_depth as int,
                old(tt).slots@,
                *old(ctx),
            );
            &&& res.0 == v.0
            &&& res.1 == v.1
            &&& final(tt).slots@ == v.2
            &&& *final(ctx) == v.3
        }),
    decreases max_depth - depth, 3int,
{
    let ghost alpha0 = alpha;
    let ghost beta0 = beta;
    let mut alpha = alpha;
    let mut beta = beta;
    if let Some(val) = state.terminal_value() {
        return (val, depth);
    }
    if depth == max_depth {
        return (state.heuristic_eval(), depth);
    }
    let ghost s0 = *state;
    let hash = state.zobrist_hash;
    let remaining = max_depth - depth;
    let remaining_depth = remaining as u8;

    // Transposition table probe.
    let mut tt_best_move: Option<(u8, u8)> = None;
    if let Some(entry) = tt.probe(hash) {
        tt_best_move = entry.best_move;
        if entry.depth >= remaining_depth {
            match entry.flag {
                TTFlag::Exact => {
                    return (entry.score, depth);
                },
                TTFlag::LowerBound => {
                    if entry.score >= beta {
                        return (entry.score, depth);
                    }
                    if entry.score > alpha {
                        alpha = entry.score;
                    }
                },
                TTFlag::UpperBound => {
                    if entry.score <= alpha {
                        return (entry.score, depth);
                    }
                    if entry.score < beta {
                        beta = entry.score;
                    }
                },
            }
            if alpha >= beta {
                return (entry.score, depth);
            }
        }
    }
    let alpha_at_entry = alpha;
    let beta_at_entry = beta;
    assert((alpha_at_entry as int, beta_at_entry as int) == probed_window(
        tt.lookup(s0.zobrist_hash),
        alpha0 as int,
        beta0 as int,
        remaining as int,
    ));
    search_node(state, alpha, beta, tt_best_move, is_max_player, depth, max_depth, tt, ctx)
}

/// The search of a node past the table probe: the pass, the moves in order
/// and the table store.
#[verifier::spinoff_prover]
#[verifier::rlimit(80)]
fn search_node(
    state: &mut SearchState,
    alpha: i32,
    beta: i32,
    tt_best_move: Option<(u8, u8)>,
    is_max_player: bool,
    depth: usize,
    max_depth: usize,
    tt: &mut TranspositionTable,
    ctx: &mut SearchContext,
) -> (res: (i32, usize))
    requires
        room_to_search(*old(state), depth as int, max_depth as int),
        depth < max_depth,
        old(tt).wf(),
        old(ctx).wf(),
        score_ok(alpha as int),
        score_ok(beta as int),
    ensures
        *final(state) == *old(state),
        final(tt).wf(),
        final(ctx).wf(),
        score_ok(res.0 as int),
        depth <= res.1 <= max_depth,
        res.1 == depth || (res.1 > depth && recorded(
            final(tt).lookup(old(state).zobrist_hash),
            res.0,
            max_depth - depth,
            bound_flag(res.0 as int, alpha as int, beta as int),
        )),
        ({
            let v = node_value(
                *old(state),
                alpha,
                beta,
                tt_best_move,
                is_max_player,
                depth as int,
                max_depth as int,
                old(tt).slots@,
                *old(ctx),
            );
            &&& res.0 == v.0
            &&& res.1 == v.1
            &&& final(tt).slots@ == v.2
            &&& *final(ctx) == v.3
        }),
    decreases max_depth - depth, 2int,
{
    let ghost s0 = *state;
    let alpha_at_entry = alpha;
    let beta_at_entry = beta;
    let hash = state.zobrist_hash;
    let remaining = max_depth - depth;
    let remaining_depth = remaining as u8;

    // Candidate moves, at least radius 2 so that blocking moves are seen.
    let radius: usize = if depth < 3 {
        3
    } else {
        2
    };
    let scored_moves = state.get_candidate_moves_scored(radius);
    let ghost slots0 = tt.slots@;
    let ghost ctx0 = *ctx;
    let ghost scored = scored_moves@;
    proof {
        lemma_candidates_playable(s0, radius as int, scored_moves@);
        lemma_cands_of(s0, radius as int, scored_moves@);
    }
    let (mut moves, mut move_scores) = split_scored(&scored_moves);
    proof {
        assert forall|i: int| 0 <= i < moves.len() implies #[trigger] playable(s0, moves@[i]) by {
            assert(playable(s0, (scored_moves@[i].0, scored_moves@[i].1)));
        }
        assert(entries(moves@, move_scores@) =~= scored_entries(scored));
    }
    let max_score = if move_scores.len() > 0 {
        assert(moves@[0] == (scored[0].0, scored[0].1));
        move_scores[0]
    } else {
        0
    };
    let is_tactical = max_score >= 800_000;
    assert(is_tactical == (scored.len() > 0 && scored[0].2 >= 800_000));
    let ghost try_pass = remaining >= 3 && !is_tactical && s0.caps_of(!s0.is_black_turn) < 3;
    let ghost pass: (i32, int, Seq<(u64, u64)>, SearchContext) = (0, 0, slots0, ctx0);

    // Null move: let the opponent move twice away from tactical positions.
    if remaining >= 3 && !is_tactical && state.captures(!state.is_black_turn) < 3 {
        let z = zobrist();
        state.is_black_turn = !state.is_black_turn;
        state.zobrist_hash = state.zobrist_hash ^ z.side_to_move;
        assert(*state == passed(s0));
        let (null_val, null_depth) = alphabeta(state, alpha, beta, !is_max_player, depth + 3, max_depth, tt, ctx);
        proof {
            pass = (null_val, null_depth as int, tt.slots@, *ctx);
        }
        state.is_black_turn = !state.is_black_turn;
        state.zobrist_hash = state.zobrist_hash ^ z.side_to_move;
        proof {
            let h = s0.zobrist_hash;
            let k = side_key();
            assert((h ^ k) ^ k == h) by (bit_vector);
        }
        assert(*state == s0);
        if is_max_player && null_val >= beta {
            return (beta, depth);
        }
        if !is_max_player && null_val <= alpha {
            return (alpha, depth);
        }
    }
    assert(tt.slots@ == pass.2 && *ctx == pass.3);

    let ghost unordered = moves@;
    let ghost ctx_order = *ctx;
    order_moves(&mut moves, &mut move_scores, tt_best_move, ctx, depth);
    proof {
        assert forall|i: int| 0 <= i < moves.len() implies #[trigger] playable(s0, moves@[i]) by {
            assert(unordered.contains(moves@[i]));
            let j = choose|j: int| 0 <= j < unordered.len() && unordered[j] == moves@[i];
            assert(playable(s0, unordered[j]));
        }
    }
    let ghost ordered = entries(moves@, move_scores@);
    let cap = max_moves(is_tactical, remaining);
    moves.truncate(cap);
    move_scores.truncate(cap);
    assert(all_playable(s0, moves@));
    let ghost list = entries(moves@, move_scores@);
    proof {
        if cap < ordered.len() {
            assert(list =~= ordered.take(cap as int));
        } else {
            assert(list =~= ordered);
        }
    }

    let (_, _, best_score, best_depth, best_move_found) = search_moves(
        state,
        &moves,
        &move_scores,
        alpha,
        beta,
        is_max_player,
        depth,
        max_depth,
        tt,
        ctx,
    );

    let flag = if best_score <= alpha_at_entry {
        TTFlag::UpperBound
    } else if best_score >= beta_at_entry {
        TTFlag::LowerBound
    } else {
        TTFlag::Exact
    };
    let entry = TTEntry { hash, score: best_score, depth: remaining_depth, flag, best_move: best_move_found };
    let ghost before = *tt;
    tt.store(&entry);
    proof {
        lemma_probe_after_store(before, *tt, entry);
    }
    (best_score, best_depth)
}

/// Play `m`, the entry at position `idx` of the ordered moves with ordering
/// value `score`, search the reply and take the move back.
fn search_child(
    state: &mut SearchState,
    m: (u8, u8),
    idx: usize,
    score: i32,
    alpha: i32,
    beta: i32,
    is_max_player: bool,
    depth: usize,
    max_depth: usize,
    tt: &mut TranspositionTable,
    ctx: &mut SearchContext,
) -> (r: (i32, usize))
    requires
        room_to_search(*old(state), depth as int, max_depth as int),
        depth < max_depth,
        idx <= 15,
        playable(*old(state), m),
        captures_at(old(state).grid(), m.0 as int, m.1 as int, old(state).to_move(), 8) <= 4,
        old(tt).wf(),
        old(ctx).wf(),
        score_ok(alpha as int),
        score_ok(beta as int),
    ensures
        *final(state) == *old(state),
        final(tt).wf(),
        final(ctx).wf(),
        score_ok(r.0 as int),
        depth < r.1 <= max_depth,
        ({
            let v = child_value(
                after_move(*old(state), m.0 as int, m.1 as int),
                idx as int,
                score,
                is_max_player,
                depth as int,
                max_depth as int,
                alpha,
                beta,
                old(tt).slots@,
                *old(ctx),
            );
            &&& r.0 == v.0
            &&& r.1 == v.1
            &&& final(tt).slots@ == v.2
            &&& *final(ctx) == v.3
        }),
    decreases max_depth - depth, 0int,
{
    let ghost s0 = *state;
    let remaining = max_depth - depth;
    proof {
        lemma_captures_at_before(s0.grid(), m.0 as int, m.1 as int, s0.to_move(), 8);
    }
    let undo = state.make_move(m.0, m.1);
    let ghost mid = *state;
    proof {
        lemma_after_move(s0, m.0 as int, m.1 as int, mid, undo);
    }
    let r = if idx >= 2 && remaining >= 3 && score < 800_000 {
        let reduction = lmr(remaining, idx);
        let reduced_max = max_depth - reduction;
        let (v, d) = alphabeta(state, alpha, beta, !is_max_player, depth + 1, reduced_max, tt, ctx);
        // A reduced search that improves the window is repeated at full depth.
        if (is_max_player && v > alpha) || (!is_max_player && v < beta) {
            alphabeta(state, alpha, beta, !is_max_player, depth + 1, max_depth, tt, ctx)
        } else {
            (v, d)
        }
    } else {
        alphabeta(state, alpha, beta, !is_max_player, depth + 1, max_depth, tt, ctx)
    };
    state.unmake_move(undo);
    proof {
        lemma_unmake_restores_make(s0, m.0 as int, m.1 as int, mid, undo, *state);
    }
    r
}

/// Search the moves in order, keeping the best score and narrowing the
/// window, until the window closes; the move that closes it is credited in
/// the context. Returns the final window, the best score, the ply it was
/// found at and its move.
fn search_moves(
    state: &mut SearchState,
    moves: &Vec<(u8, u8)>,
    scores: &Vec<i32>,
    alpha: i32,
    beta: i32,
    is_max_player: bool,
    depth: usize,
    max_depth: usize,
    tt: &mut TranspositionTable,
    ctx: &mut SearchContext,
) -> (r: (i32, i32, i32, usize, Option<(u8, u8)>))
    requires
        room_to_search(*old(state), depth as int, max_depth as int),
        depth < max_depth,
        moves.len() == scores.len(),
        moves.len() <= 15,
        all_playable(*old(state), moves@),
        old(tt).wf(),
        old(ctx).wf(),
        score_ok(alpha as int),
        score_ok(beta as int),
    ensures
        *final(state) == *old(state),
        final(tt).wf(),
        final(ctx).wf(),
        score_ok(r.2 as int),
        depth < r.3 <= max_depth,
        r.4 matches Some(m) ==> m.0 < 19 && m.1 < 19,
        (r.0, r.1, r.2, r.3 as int, r.4, final(tt).slots@, *final(ctx)) == search_loop(
            *old(state),
            entries(moves@, scores@),
            0,
            is_max_player,
            depth as int,
            max_depth as int,
            loop_start(alpha, beta, is_max_player, max_depth as int, old(tt).slots@, *old(ctx)),
        ),
    decreases max_depth - depth, 1int,
{
    let ghost s0 = *state;
    let ghost list = entries(moves@, scores@);
    let remaining = max_depth - depth;
    let mut alpha = alpha;
    let mut beta = beta;
    let mut best_score: i32 = if is_max_player {
        MIN_VALUE - 1
    } else {
        MAX_VALUE + 1
    };
    let mut best_depth = max_depth;
    let mut best_move_found: Option<(u8, u8)> = None;
    let ghost total = search_loop(
        s0,
        list,
        0,
        is_max_player,
        depth as int,
        max_depth as int,
        loop_start(alpha, beta, is_max_player, max_depth as int, tt.slots@, *ctx),
    );
    let n = moves.len();
    let mut move_idx: usize = 0;
    let mut done = false;
    while move_idx < n && !done
        invariant
            0 <= move_idx <= n,
            n == moves.len(),
            n == scores.len(),
            n <= 15,
            list == entries(moves@, scores@),
            all_playable(s0, moves@),
            *state == s0,
            room_to_search(s0, depth as int, max_depth as int),
            depth < max_depth,
            remaining == max_depth - depth,
            tt.wf(),
            ctx.wf(),
            score_ok(alpha as int),
            score_ok(beta as int),
            score_ok(best_score as int),
            depth < best_depth <= max_depth,
            best_move_found matches Some(m) ==> m.0 < 19 && m.1 < 19,
            !done ==> search_loop(
                s0,
                list,
                move_idx as int,
                is_max_player,
                depth as int,
                max_depth as int,
                (alpha, beta, best_score, best_depth as int, best_move_found, tt.slots@, *ctx),
            ) == total,
            done ==> (alpha, beta, best_score, best_depth as int, best_move_found, tt.slots@, *ctx) == total,
        decreases n - move_idx,
    {
        let ghost cur = (alpha, beta, best_score, best_depth as int, best_move_found, tt.slots@, *ctx);
        let (move_r, move_c) = moves[move_idx];
        let move_score = scores[move_idx];
        assert(list[move_idx as int] == ((move_r, move_c), move_score));
        assert(playable(s0, moves@[move_idx as int]));
        let me = state.current_player();
        let k = state.count_captures_at(move_r as i32, move_c as i32, me);
        if k <= 4 {
            let (val, d) = search_child(
                state,
                (move_r, move_c),
                move_idx,
                move_score,
                alpha,
                beta,
                is_max_player,
                depth,
                max_depth,
                tt,
                ctx,
            );
            if is_max_player {
                if val > best_score || (val == best_score && d < best_depth) {
                    best_score = val;
                    best_depth = d;
                    best_move_found = Some((move_r, move_c));
                }
                if best_score > alpha {
                    alpha = best_score;
                }
            } else {
                if val < best_score || (val == best_score && d < best_depth) {
                    best_score = val;
                    best_depth = d;
                    best_move_found = Some((move_r, move_c));
                }
                if best_score < beta {
                    beta = best_score;
                }
            }
            if alpha >= beta {
                // Remember the move that caused the cutoff.
                ctx.update_killer(depth, (move_r, move_c));
                ctx.update_history(state.is_black_turn, (move_r, move_c), remaining);
                done = true;
            }
        }
        move_idx += 1;
    }
    (alpha, beta, best_score, best_depth, best_move_found)
}

/// The moves of the first `n` entries of `cands` that are not in `prev`, in
/// order.
pub open spec fn fresh_moves(prev: Seq<(u8, u8)>, cands: Seq<(u8, u8)>, n: int) -> Seq<(u8, u8)>
    decreases n,
{
    if n <= 0 {
        Seq::empty()
    } else {
        let rest = fresh_moves(prev, cands, n - 1);
        if prev.contains(cands[n - 1]) {
            rest
        } else {
            rest.push(cands[n - 1])
        }
    }
}

/// Moves tried at the root: the previous iteration's order followed by the
/// new candidates, or the candidates alone, at most thirty.
pub open spec fn root_moves(prev: Option<Seq<(u8, u8)>>, cands: Seq<(u8, u8)>) -> Seq<(u8, u8)> {
    let all = match prev {
        Some(p) => p + fresh_moves(p, cands, cands.len() as int),
        None => cands,
    };
    if all.len() > 30 {
        all.take(30)
    } else {
        all
    }
}

pub open spec fn prev_view(prev: Option<Vec<(u8, u8)>>) -> Option<Seq<(u8, u8)>> {
    match prev {
        Some(p) => Some(p@),
        None => None,
    }
}

/// The moves of a root result, in order.
pub open spec fn listing(all: Seq<(usize, usize, Option<i32>)>) -> Seq<(u8, u8)> {
    all.map_values(|e: (usize, usize, Option<i32>)| (e.0 as u8, e.1 as u8))
}

/// A previous order holding the first thirty candidates is kept as it is.
proof fn lemma_root_moves_keep(p: Seq<(u8, u8)>, c1: Seq<(u8, u8)>, c2: Seq<(u8, u8)>)
    requires
        same_moves(p, root_moves(None, c1)),
        forall|m: (u8, u8)| c2.contains(m) <==> c1.contains(m),
    ensures
        root_moves(Some(p), c2) == p,
{
    let f = fresh_moves(p, c2, c2.len() as int);
    if c1.len() > 30 {
        assert(p.len() == 30);
        if (p + f).len() > 30 {
            assert((p + f).take(30) =~= p);
        } else {
            assert(f.len() == 0);
            assert(p + f =~= p);
        }
    } else {
        assert forall|i: int| 0 <= i < c2.len() implies p.contains(#[trigger] c2[i]) by {
            assert(c2.contains(c2[i]));
            assert(c1.contains(c2[i]));
        }
        lemma_fresh_none(p, c2, c2.len() as int);
        assert(p + f =~= p);
    }
}

/// The first thirty entries of a list without repeats have no repeats.
proof fn lemma_first_moves_distinct(c: Seq<(u8, u8)>)
    requires
        c.no_duplicates(),
    ensures
        root_moves(None, c).no_duplicates(),
{
    let t = root_moves(None, c);
    assert forall|a: int, b: int| 0 <= a < t.len() && 0 <= b < t.len() && a != b implies t[a] != t[b] by {
        assert(t[a] == c[a] && t[b] == c[b]);
    }
}

proof fn lemma_fresh_playable(s: SearchState, prev: Seq<(u8, u8)>, cands: Seq<(u8, u8)>, n: int)
    requires
        all_playable(s, cands),
        0 <= n <= cands.len(),
    ensures
        all_playable(s, fresh_moves(prev, cands, n)),
    decreases n,
{
    if n > 0 {
        lemma_fresh_playable(s, prev, cands, n - 1);
        let rest = fresh_moves(prev, cands, n - 1);
        let cur = fresh_moves(prev, cands, n);
        assert(playable(s, cands[n - 1]));
        assert forall|i: int| 0 <= i < cur.len() implies #[trigger] playable(s, cur[i]) by {
            if i < rest.len() {
                assert(cur[i] == rest[i]);
            }
        }
    }
}

/// The root move order of `root_moves`.
pub fn root_move_order(prev: &Option<Vec<(u8, u8)>>, cands: Vec<(u8, u8)>) -> (r: Vec<(u8, u8)>)
    ensures
        r@ == root_moves(prev_view(*prev), cands@),
{
    let mut all: Vec<(u8, u8)> = match prev {
        Some(p) => {
            let mut moves: Vec<(u8, u8)> = Vec::new();
            let mut i: usize = 0;
            while i < p.len()
                invariant
                    0 <= i <= p.len(),
                    moves@ == p@.take(i as int),
                decreases p.len() - i,
            {
                moves.push(p[i]);
                proof {
                    assert(p@.take(i + 1) =~= p@.take(i as int).push(p@[i as int]));
                }
                i += 1;
            }
            proof {
                assert(p@.take(p.len() as int) =~= p@);
            }
            let mut j: usize = 0;
            while j < cands.len()
                invariant
                    0 <= j <= cands.len(),
                    moves@ == p@ + fresh_moves(p@, cands@, j as int),
                decreases cands.len() - j,
            {
                let m = cands[j];
                let known = find_move(p, 0, m);
                proof {
                    if known is None {
                        assert(!p@.contains(m));
                    } else {
                        assert(p@.contains(m));
                    }
                }
                if known.is_none() {
                    moves.push(m);
                    proof {
                        assert(moves@ =~= p@ + fresh_moves(p@, cands@, j + 1));
                    }
                }
                j += 1;
            }
            moves
        },
        None => cands,
    };
    if all.len() > 30 {
        all.truncate(30);
    }
    all
}

/// A value `v` is better than `w` for the player to move.
pub open spec fn better(is_max: bool, v: int, w: int) -> bool {
    if is_max {
        v > w
    } else {
        v < w
    }
}

/// The value no move has to beat to become the best.
pub open spec fn sentinel(is_max: bool) -> int {
    if is_max {
        MIN_VALUE - 1
    } else {
        MAX_VALUE + 1
    }
}

/// `best` is the first entry of `all` with the best value, if that value
/// beats the sentinel, and `None` when no value does.
pub open spec fn best_of(all: Seq<(usize, usize, Option<i32>)>, is_max: bool, best: Option<(usize, usize, i32)>) -> bool {
    match best {
        Some(b) => exists|i: int|
            0 <= i < all.len() && #[trigger] all[i] == (b.0, b.1, Some(b.2)) && better(is_max, b.2 as int, sentinel(is_max))
                && (forall|j: int| 0 <= j < i ==> (#[trigger] all[j].2 matches Some(w) ==> better(is_max, b.2 as int, w as int)))
                && (forall|j: int| i < j < all.len() ==> (#[trigger] all[j].2 matches Some(w) ==> !better(is_max, w as int, b.2 as int))),
        None => forall|j: int|
            0 <= j < all.len() ==> (#[trigger] all[j].2 matches Some(w) ==> !better(is_max, w as int, sentinel(is_max))),
    }
}

/// Every entry of a root result is an empty cell of the board of `s`.
pub open spec fn entries_playable(s: SearchState, all: Seq<(usize, usize, Option<i32>)>) -> bool {
    forall|i: int|
        0 <= i < all.len() ==> #[trigger] playable(s, (all[i].0 as u8, all[i].1 as u8)) && all[i].0 < 19 && all[i].1
            < 19
}

/// The search can go `max_depth` plies below `s`.
pub open spec fn room_at_root(s: SearchState, max_depth: int) -> bool {
    &&& 1 <= max_depth <= 8
    &&& s.black_captures + 4 * max_depth <= 255
    &&& s.white_captures + 4 * max_depth <= 255
    &&& s.move_count + max_depth < 65535
}

/// A root value with the ply it was found at taken off, so that nearer wins
/// and later losses score better.
pub open spec fn depth_adjusted(value: i32, d: int) -> i32 {
    if value > d {
        (value - d) as i32
    } else if value < -d {
        (value + d) as i32
    } else {
        value
    }
}

/// A root move searched: its adjusted value, or `None` when it would capture
/// more than four pairs, with the table slots and context left behind.
pub open spec fn root_move_value(
    s: SearchState,
    m: (u8, u8),
    alpha: i32,
    beta: i32,
    max_depth: int,
    slots: Seq<(u64, u64)>,
    ctx: SearchContext,
) -> (Option<i32>, Seq<(u64, u64)>, SearchContext) {
    if captures_at(s.grid(), m.0 as int, m.1 as int, s.to_move(), 8) > 4 {
        (None, slots, ctx)
    } else {
        let v = search_value(after_move(s, m.0 as int, m.1 as int), alpha, beta, !s.is_black_turn, 1, max_depth, slots, ctx);
        (Some(depth_adjusted(v.0, v.1)), v.2, v.3)
    }
}

/// The root loop from position `idx` of `order` on, for the side to move of
/// `s`: each move is searched with the current window, its value recorded,
/// the best value kept and the window narrowed until it closes.
pub open spec fn root_search(
    s: SearchState,
    order: Seq<(u8, u8)>,
    idx: int,
    max_depth: int,
    alpha: i32,
    beta: i32,
    best_value: int,
    values: Seq<Option<i32>>,
    slots: Seq<(u64, u64)>,
    ctx: SearchContext,
) -> (Seq<Option<i32>>, Seq<(u64, u64)>, SearchContext)
    decreases order.len() - idx,
{
    if idx < 0 || idx >= order.len() {
        (values, slots, ctx)
    } else {
        let r = root_move_value(s, order[idx], alpha, beta, max_depth, slots, ctx);
        match r.0 {
            None => root_search(s, order, idx + 1, max_depth, alpha, beta, best_value, values, r.1, r.2),
            Some(v) => {
                let vals = values.update(idx, Some(v));
                let is_max = s.is_black_turn;
                let improves = if is_max {
                    v > best_value
                } else {
                    v < best_value
                };
                let bv = if improves {
                    v as int
                } else {
                    best_value
                };
                let a = if is_max && improves && v > alpha {
                    v
                } else {
                    alpha
                };
                let b = if !is_max && improves && v < beta {
                    v
                } else {
                    beta
                };
                if a >= b {
                    (vals, r.1, r.2)
                } else {
                    root_search(s, order, idx + 1, max_depth, a, b, bv, vals, r.1, r.2)
                }
            },
        }
    }
}

/// One iteration at the root of `s` to `max_depth` plies after the order
/// `prev`: the moves tried with their values, the table slots and context.
pub open spec fn root_result(
    s: SearchState,
    max_depth: int,
    prev: Option<Seq<(u8, u8)>>,
    slots: Seq<(u64, u64)>,
    ctx: SearchContext,
) -> (Seq<(usize, usize, Option<i32>)>, Seq<(u64, u64)>, SearchContext) {
    let order = root_moves(prev, cand_moves(cands_of(s, 3)));
    let rs = root_search(
        s,
        order,
        0,
        max_depth,
        MIN_VALUE,
        MAX_VALUE,
        sentinel(s.is_black_turn),
        Seq::new(order.len(), |i: int| None::<i32>),
        slots,
        ctx,
    );
    (Seq::new(order.len(), |i: int| (order[i].0 as usize, order[i].1 as usize, rs.0[i])), rs.1, rs.2)
}

/// Play `(r, c)` at the root, search the reply to `max_depth` plies and
/// take the move back; the value, adjusted by the ply at which it was found,
/// or `None` when the move would capture more than four pairs and is not
/// searched.
pub fn search_root_move(
    ss: &mut SearchState,
    r: u8,
    c: u8,
    alpha: i32,
    beta: i32,
    max_depth: usize,
    tt: &mut TranspositionTable,
    ctx: &mut SearchContext,
) -> (v: Option<i32>)
    requires
        room_at_root(*old(ss), max_depth as int),
        playable(*old(ss), (r, c)),
        old(tt).wf(),
        old(ctx).wf(),
        score_ok(alpha as int),
        score_ok(beta as int),
    ensures
        *final(ss) == *old(ss),
        final(tt).wf(),
        final(ctx).wf(),
        v matches Some(x) ==> score_ok(x as int),
        v is None <==> captures_before(
            old(ss).grid(),
            r as int,
            c as int,
            old(ss).to_move(),
            old(ss).to_move().other(),
            8,
        ) > 4,
        (v, final(tt).slots@, *final(ctx)) == root_move_value(
            *old(ss),
            (r, c),
            alpha,
            beta,
            max_depth as int,
            old(tt).slots@,
            *old(ctx),
        ),
{
    let ghost s0 = *ss;
    let me = ss.current_player();
    let k = ss.count_captures_at(r as i32, c as i32, me);
    proof {
        lemma_captures_at_before(s0.grid(), r as int, c as int, me, 8);
    }
    if k > 4 {
        return None;
    }
    let is_max_player = ss.is_black_turn;
    let undo = ss.make_move(r, c);
    let ghost mid = *ss;
    proof {
        lemma_after_move(s0, r as int, c as int, mid, undo);
    }
    let (value, depth) = alphabeta(ss, alpha, beta, !is_max_player, 1, max_depth, tt, ctx);
    ss.unmake_move(undo);
    proof {
        lemma_unmake_restores_make(s0, r as int, c as int, mid, undo, *ss);
    }
    let d = depth as i32;
    if value > d {
        Some(value - d)
    } else if value < -d {
        Some(value + d)
    } else {
        Some(value)
    }
}

#[verifier::spinoff_prover]
#[verifier::rlimit(40)]
/// One iteration at the root: search each move of `root_moves` (previous
/// order first) to `max_depth` plies and return the best move with its value
/// and every move with the value it got, `None` for moves not searched.
pub fn get_ai_move_internal(
    ss: &mut SearchState,
    max_depth: usize,
    previous_ordering: &Option<Vec<(u8, u8)>>,
    tt: &mut TranspositionTable,
    ctx: &mut SearchContext,
) -> (r: (Option<(usize, usize, i32)>, Vec<(usize, usize, Option<i32>)>))
    requires
        room_at_root(*old(ss), max_depth as int),
        old(tt).wf(),
        old(ctx).wf(),
        previous_ordering matches Some(p) ==> all_playable(*old(ss), p@),
    ensures
        *final(ss) == *old(ss),
        final(tt).wf(),
        final(ctx).wf(),
        exists|scored: Seq<(u8, u8, i32)>|
            #[trigger] ordered_candidates(*old(ss), 3, scored) && {
                let order = root_moves(prev_view(*previous_ordering), cand_moves(scored));
                &&& r.1@.len() == order.len()
                &&& forall|i: int|
                    0 <= i < order.len() ==> #[trigger] r.1@[i].0 == order[i].0 as usize && r.1@[i].1
                        == order[i].1 as usize
            },
        r.1@.len() <= 30,
        entries_playable(*old(ss), r.1@),
        forall|i: int| 0 <= i < r.1@.len() ==> (#[trigger] r.1@[i].2 matches Some(v) ==> score_ok(v as int)),
        best_of(r.1@, old(ss).is_black_turn, r.0),
        (r.1@, final(tt).slots@, *final(ctx)) == root_result(
            *old(ss),
            max_depth as int,
            prev_view(*previous_ordering),
            old(tt).slots@,
            *old(ctx),
        ),
{
    let ghost s0 = *ss;
    let ghost slots0 = tt.slots@;
    let ghost ctx0 = *ctx;
    let is_max_player = ss.is_black_turn;
    let mut best_value: i32 = if is_max_player {
        MIN_VALUE - 1
    } else {
        MAX_VALUE + 1
    };
    let mut alpha = MIN_VALUE;
    let mut beta = MAX_VALUE;
    let mut best_move: Option<(usize, usize, i32)> = None;

    let candidate_moves = ss.get_candidate_moves(3);
    let ghost scored = choose|scored: Seq<(u8, u8, i32)>|
        #[trigger] ordered_candidates(s0, 3, scored) && candidate_moves@ == scored.map_values(
            |m: (u8, u8, i32)| (m.0, m.1),
        );
    proof {
        lemma_cands_of(s0, 3, scored);
        lemma_candidates_playable(s0, 3, scored);
        assert forall|i: int| 0 <= i < candidate_moves@.len() implies #[trigger] playable(s0, candidate_moves@[i]) by {
            assert(playable(s0, (scored[i].0, scored[i].1)));
        }
    }
    let ghost cands = candidate_moves@;
    let ordered_moves = root_move_order(previous_ordering, candidate_moves);
    proof {
        match previous_ordering {
            Some(p) => {
                lemma_fresh_playable(s0, p@, cands, cands.len() as int);
                let f = fresh_moves(p@, cands, cands.len() as int);
                let all = p@ + f;
                assert forall|i: int| 0 <= i < all.len() implies #[trigger] playable(s0, all[i]) by {
                    if i < p@.len() {
                        assert(all[i] == p@[i]);
                    } else {
                        assert(all[i] == f[i - p@.len()]);
                    }
                }
            },
            None => {},
        }
        assert(all_playable(s0, ordered_moves@));
    }

    let n = ordered_moves.len();
    let mut values: Vec<Option<i32>> = Vec::new();
    let mut i: usize = 0;
    while i < n
        invariant
            0 <= i <= n,
            n == ordered_moves@.len(),
            values@.len() == i,
            forall|j: int| 0 <= j < i ==> #[trigger] values@[j] is None,
        decreases n - i,
    {
        values.push(None);
        i += 1;
    }

    let ghost order = ordered_moves@;
    let ghost total = root_search(
        s0,
        order,
        0,
        max_depth as int,
        MIN_VALUE,
        MAX_VALUE,
        sentinel(is_max_player),
        Seq::new(order.len(), |i: int| None::<i32>),
        slots0,
        ctx0,
    );
    assert(values@ =~= Seq::new(order.len(), |i: int| None::<i32>));
    let mut idx: usize = 0;
    let ghost mut best_idx: int = 0;
    let mut stopped = false;
    while idx < n && !stopped
        invariant
            order == ordered_moves@,
            !stopped ==> root_search(
                s0,
                order,
                idx as int,
                max_depth as int,
                alpha,
                beta,
                best_value as int,
                values@,
                tt.slots@,
                *ctx,
            ) == total,
            stopped ==> (values@, tt.slots@, *ctx) == total,
            0 <= idx <= n,
            n == values@.len(),
            n == ordered_moves@.len(),
            n <= 30,
            all_playable(s0, ordered_moves@),
            forall|j: int| idx <= j < n ==> #[trigger] values@[j] is None,
            forall|j: int| 0 <= j < n ==> (#[trigger] values@[j] matches Some(v) ==> score_ok(v as int)),
            *ss == s0,
            is_max_player == s0.is_black_turn,
            room_at_root(s0, max_depth as int),
            tt.wf(),
            ctx.wf(),
            score_ok(alpha as int),
            score_ok(beta as int),
            best_value as int == match best_move {
                Some(b) => b.2 as int,
                None => sentinel(is_max_player),
            },
            best_move is None ==> forall|j: int|
                0 <= j < idx ==> (#[trigger] values@[j] matches Some(w) ==> !better(
                    is_max_player,
                    w as int,
                    sentinel(is_max_player),
                )),
            best_move matches Some(b) ==> {
                &&& 0 <= best_idx < idx
                &&& b.0 == ordered_moves@[best_idx].0 as usize
                &&& b.1 == ordered_moves@[best_idx].1 as usize
                &&& values@[best_idx] == Some(b.2)
                &&& better(is_max_player, b.2 as int, sentinel(is_max_player))
                &&& forall|j: int|
                    0 <= j < best_idx ==> (#[trigger] values@[j] matches Some(w) ==> better(
                        is_max_player,
                        b.2 as int,
                        w as int,
                    ))
                &&& forall|j: int|
                    best_idx < j < idx ==> (#[trigger] values@[j] matches Some(w) ==> !better(
                        is_max_player,
                        w as int,
                        b.2 as int,
                    ))
            },
        decreases n - idx,
    {
        let (mr, mc) = ordered_moves[idx];
        assert(playable(s0, ordered_moves@[idx as int]));
        let searched = search_root_move(ss, mr, mc, alpha, beta, max_depth, tt, ctx);
        let mut cutoff = false;
        if let Some(value) = searched {
            values.set(idx, Some(value));
            let er = mr as usize;
            let ec = mc as usize;
            if is_max_player && value > best_value {
                best_value = value;
                if best_value > alpha {
                    alpha = best_value;
                }
                best_move = Some((er, ec, value));
                proof {
                    best_idx = idx as int;
                }
            } else if !is_max_player && value < best_value {
                best_value = value;
                if best_value < beta {
                    beta = best_value;
                }
                best_move = Some((er, ec, value));
                proof {
                    best_idx = idx as int;
                }
            }
            if alpha >= beta {
                cutoff = true;
            }
        }
        idx += 1;
        stopped = cutoff;
    }

    let mut all_moves: Vec<(usize, usize, Option<i32>)> = Vec::new();
    let mut i: usize = 0;
    while i < n
        invariant
            0 <= i <= n,
            n == values@.len(),
            n == ordered_moves@.len(),
            all_moves@.len() == i,
            forall|j: int|
                0 <= j < i ==> #[trigger] all_moves@[j] == (
                    ordered_moves@[j].0 as usize,
                    ordered_moves@[j].1 as usize,
                    values@[j],
                ),
        decreases n - i,
    {
        let (r, c) = ordered_moves[i];
        all_moves.push((r as usize, c as usize, values[i]));
        i += 1;
    }
    proof {
        assert forall|j: int| 0 <= j < n implies #[trigger] playable(s0, (all_moves@[j].0 as u8, all_moves@[j].1 as u8))
            && all_moves@[j].0 < 19 && all_moves@[j].1 < 19 by {
            assert(playable(s0, ordered_moves@[j]));
            assert((all_moves@[j].0 as u8, all_moves@[j].1 as u8) == ordered_moves@[j]);
        }
        assert forall|j: int| 0 <= j < n implies (#[trigger] all_moves@[j].2 matches Some(v) ==> score_ok(v as int)) by {
            assert(all_moves@[j].2 == values@[j]);
        }
        match best_move {
            Some(b) => {
                assert(all_moves@[best_idx] == (b.0, b.1, Some(b.2)));
                assert forall|j: int| 0 <= j < best_idx implies (#[trigger] all_moves@[j].2 matches Some(w) ==> better(
                    is_max_player,
                    b.2 as int,
                    w as int,
                )) by {
                    assert(all_moves@[j].2 == values@[j]);
                }
                assert forall|j: int| best_idx < j < n implies (#[trigger] all_moves@[j].2 matches Some(w) ==> !better(
                    is_max_player,
                    w as int,
                    b.2 as int,
                )) by {
                    assert(all_moves@[j].2 == values@[j]);
                }
            },
            None => {
                assert forall|j: int| 0 <= j < n implies (#[trigger] all_moves@[j].2 matches Some(w) ==> !better(
                    is_max_player,
                    w as int,
                    sentinel(is_max_player),
                )) by {
                    assert(all_moves@[j].2 == values@[j]);
                }
            },
        }
    }
    assert(all_moves@ =~= root_result(s0, max_depth as int, prev_view(*previous_ordering), slots0, ctx0).0);
    (best_move, all_moves)
}

/// Sort key of a root entry for the next iteration: best value for the
/// player to move first, entries without a value last.
pub open spec fn reorder_key(is_max: bool, v: Option<i32>) -> i32 {
    let x = match v {
        Some(w) => w as int,
        None => sentinel(is_max),
    };
    (if is_max {
        -x
    } else {
        x
    }) as i32
}

/// The sort keys of the root entries.
pub open spec fn reorder_keys(all: Seq<(usize, usize, Option<i32>)>, is_max: bool) -> Seq<i32> {
    all.map_values(|e: (usize, usize, Option<i32>)| reorder_key(is_max, e.2))
}

/// The slots of a new transposition table.
pub open spec fn empty_slots() -> Seq<(u64, u64)> {
    Seq::new(TT_SIZE as nat, |i: int| (0u64, 0u64))
}

/// The root moves of `all` in the order of the next iteration.
pub open spec fn next_order_of(all: Seq<(usize, usize, Option<i32>)>, is_max: bool) -> Seq<(u8, u8)> {
    let order = choose|order: Seq<usize>| stable_order_of(order, reorder_keys(all, is_max));
    order.map_values(|i: usize| (all[i as int].0 as u8, all[i as int].1 as u8))
}

/// The iterations of the deepening from `it` to `max_depth` at the root of
/// `s`: each halves the history, searches the root after the previous
/// order and orders the moves for the next; the last result is the answer.
pub open spec fn deepening(
    s: SearchState,
    max_depth: int,
    it: int,
    prev: Option<Seq<(u8, u8)>>,
    last: Seq<(usize, usize, Option<i32>)>,
    slots: Seq<(u64, u64)>,
    ctx: SearchContext,
) -> Seq<(usize, usize, Option<i32>)>
    decreases max_depth + 1 - it,
{
    if it < 1 || it > max_depth {
        last
    } else {
        let rr = root_result(s, it, prev, slots, decayed(ctx));
        deepening(s, max_depth, it + 1, Some(next_order_of(rr.0, s.is_black_turn)), rr.0, rr.1, rr.2)
    }
}

/// The root moves ordered for the next iteration: by value, best for the
/// player to move first, entries without a value last, ties in list order.
pub fn next_ordering(all: &Vec<(usize, usize, Option<i32>)>, is_max: bool) -> (r: Vec<(u8, u8)>)
    requires
        forall|i: int| 0 <= i < all@.len() ==> (#[trigger] all@[i].2 matches Some(v) ==> score_ok(v as int)),
    ensures
        exists|order: Seq<usize>|
            stable_order_of(order, reorder_keys(all@, is_max)) && r@ == order.map_values(
                |i: usize| (all@[i as int].0 as u8, all@[i as int].1 as u8),
            ),
{
    let mut keys: Vec<i32> = Vec::new();
    let mut i: usize = 0;
    while i < all.len()
        invariant
            0 <= i <= all.len(),
            forall|j: int| 0 <= j < all@.len() ==> (#[trigger] all@[j].2 matches Some(v) ==> score_ok(v as int)),
            keys@ == reorder_keys(all@, is_max).take(i as int),
        decreases all.len() - i,
    {
        let v = all[i].2;
        let x: i32 = match v {
            Some(w) => w,
            None => if is_max {
                MIN_VALUE - 1
            } else {
                MAX_VALUE + 1
            },
        };
        proof {
            if v is Some {
                assert(score_ok(x as int));
            }
        }
        let key = if is_max {
            -x
        } else {
            x
        };
        keys.push(key);
        proof {
            assert(keys@ =~= reorder_keys(all@, is_max).take(i + 1));
        }
        i += 1;
    }
    proof {
        assert(keys@ =~= reorder_keys(all@, is_max));
    }
    let order = stable_order(&keys);
    let mut r: Vec<(u8, u8)> = Vec::new();
    let mut j: usize = 0;
    while j < order.len()
        invariant
            0 <= j <= order.len(),
            stable_order_of(order@, keys@),
            keys@.len() == all@.len(),
            r@ == order@.take(j as int).map_values(|i: usize| (all@[i as int].0 as u8, all@[i as int].1 as u8)),
        decreases order.len() - j,
    {
        let k = order[j];
        assert(k < all.len());
        let (er, ec, _) = all[k];
        r.push((er as u8, ec as u8));
        proof {
            assert(order@.take(j + 1) =~= order@.take(j as int).push(order@[j as int]));
            assert(r@ =~= order@.take(j + 1).map_values(|i: usize| (all@[i as int].0 as u8, all@[i as int].1 as u8)));
        }
        j += 1;
    }
    proof {
        assert(order@.take(order.len() as int) =~= order@);
    }
    r
}

/// Iterative deepening from one to `max_depth` plies on `ss` with the table
/// `tt`, each iteration trying the root moves in the order of the previous
/// one. Returns the last iteration's best move with its value and every root
/// move with the value it got (`None` when not searched).
pub fn main_thread_iterative_deepening(
    ss: SearchState,
    max_depth: usize,
    tt: &mut TranspositionTable,
) -> (r: (Option<(usize, usize, i32)>, Vec<(usize, usize, Option<i32>)>))
    requires
        room_at_root(ss, max_depth as int),
        old(tt).wf(),
    ensures
        final(tt).wf(),
        best_of(r.1@, ss.is_black_turn, r.0),
        r.1@.len() <= 30,
        entries_playable(ss, r.1@),
        exists|scored: Seq<(u8, u8, i32)>|
            #[trigger] ordered_candidates(ss, 3, scored) && same_moves(listing(r.1@), root_moves(None, cand_moves(scored))),
        r.1@ == deepening(ss, max_depth as int, 1, None, Seq::empty(), old(tt).slots@, fresh_context()),
{
    let ghost s0 = ss;
    let ghost mut first: Seq<(u8, u8, i32)> = Seq::empty();
    let mut ss = ss;
    let is_max_player = ss.is_black_turn;
    let mut ctx = SearchContext::new();
    proof {
        lemma_fresh_context(ctx);
    }
    let ghost total = deepening(s0, max_depth as int, 1, None, Seq::empty(), tt.slots@, ctx);
    let mut previous_ordering: Option<Vec<(u8, u8)>> = None;
    let mut last_result: (Option<(usize, usize, i32)>, Vec<(usize, usize, Option<i32>)>) = (None, Vec::new());
    let mut iterative_depth: usize = 1;
    while iterative_depth <= max_depth
        invariant
            1 <= iterative_depth <= max_depth + 1,
            ss == s0,
            room_at_root(s0, max_depth as int),
            is_max_player == s0.is_black_turn,
            tt.wf(),
            ctx.wf(),
            previous_ordering matches Some(p) ==> all_playable(ss, p@),
            best_of(last_result.1@, s0.is_black_turn, last_result.0),
            last_result.1@.len() <= 30,
            forall|i: int|
                0 <= i < last_result.1@.len() ==> #[trigger] playable(
                    s0,
                    (last_result.1@[i].0 as u8, last_result.1@[i].1 as u8),
                ) && last_result.1@[i].0 < 19 && last_result.1@[i].1 < 19,
            iterative_depth == 1 <==> previous_ordering is None,
            iterative_depth > 1 ==> ordered_candidates(s0, 3, first),
            previous_ordering matches Some(p) ==> same_moves(p@, root_moves(None, cand_moves(first))),
            iterative_depth > 1 ==> same_moves(listing(last_result.1@), root_moves(None, cand_moves(first))),
            deepening(
                s0,
                max_depth as int,
                iterative_depth as int,
                prev_view(previous_ordering),
                last_result.1@,
                tt.slots@,
                ctx,
            ) == total,
        decreases max_depth + 1 - iterative_depth,
    {
        let ghost ctx_before = ctx;
        ctx.decay_history();
        proof {
            lemma_decayed(ctx_before, ctx);
        }
        let ghost prev = previous_ordering;
        let (best_move, all_moves) = get_ai_move_internal(&mut ss, iterative_depth, &previous_ordering, tt, &mut ctx);
        proof {
            let scored = choose|scored: Seq<(u8, u8, i32)>|
                #[trigger] ordered_candidates(s0, 3, scored) && {
                    let order = root_moves(prev_view(prev), cand_moves(scored));
                    &&& all_moves@.len() == order.len()
                    &&& forall|i: int|
                        0 <= i < order.len() ==> #[trigger] all_moves@[i].0 == order[i].0 as usize && all_moves@[i].1
                            == order[i].1 as usize
                };
            let order = root_moves(prev_view(prev), cand_moves(scored));
            assert(all_moves@.len() == order.len());
            assert forall|i: int| 0 <= i < order.len() implies #[trigger] listing(all_moves@)[i] == order[i] by {
                assert(all_moves@[i].0 == order[i].0 as usize);
                assert(all_moves@[i].1 == order[i].1 as usize);
            }
            assert(listing(all_moves@) =~= order);
            lemma_candidates_same(s0, 3, scored);
            match prev {
                None => {
                    first = scored;
                    lemma_first_moves_distinct(cand_moves(scored));
                },
                Some(p) => {
                    lemma_candidates_same(s0, 3, first);
                    lemma_root_moves_keep(p@, cand_moves(first), cand_moves(scored));
                },
            }
            assert(same_moves(listing(all_moves@), root_moves(None, cand_moves(first))));
        }
        let next = next_ordering(&all_moves, is_max_player);
        proof {
            let order = choose|order: Seq<usize>|
                stable_order_of(order, reorder_keys(all_moves@, is_max_player)) && next@ == order.map_values(
                    |i: usize| (all_moves@[i as int].0 as u8, all_moves@[i as int].1 as u8),
                );
            assert forall|j: int| 0 <= j < next@.len() implies #[trigger] playable(ss, next@[j]) by {
                let k = order[j] as int;
                assert(0 <= k < all_moves@.len());
                assert(playable(s0, (all_moves@[k].0 as u8, all_moves@[k].1 as u8)));
            }
            let items = listing(all_moves@);
            assert(next@ =~= order.map_values(|i: usize| items[i as int]));
            lemma_arranged_same(next@, items, reorder_keys(all_moves@, is_max_player), order);
            assert(same_moves(next@, root_moves(None, cand_moves(first))));
            let chosen = choose|o: Seq<usize>| stable_order_of(o, reorder_keys(all_moves@, is_max_player));
            assert(stable_order_of(chosen, reorder_keys(all_moves@, is_max_player)));
            lemma_stable_order_unique(order, chosen, reorder_keys(all_moves@, is_max_player));
            assert(next@ == next_order_of(all_moves@, is_max_player));
        }
        previous_ordering = Some(next);
        last_result = (best_move, all_moves);
        iterative_depth += 1;
    }
    assert(ordered_candidates(s0, 3, first));
    last_result
}

/// The best move for the side to move of `state`: iterative deepening to
/// three plies in the first moves of a game and to `MAX_DEPTH` plies after,
/// with a fresh transposition table.
pub fn get_ai_move_iterative_deepening(state: &SearchState) -> (r: (
    Option<(usize, usize, i32)>,
    Vec<(usize, usize, Option<i32>)>,
))
    requires
        state.black_captures <= 223,
        state.white_captures <= 223,
        state.move_count < 65527,
    ensures
        best_of(r.1@, state.is_black_turn, r.0),
        r.1@.len() <= 30,
        entries_playable(*state, r.1@),
        exists|scored: Seq<(u8, u8, i32)>|
            #[trigger] ordered_candidates(*state, 3, scored) && same_moves(
                listing(r.1@),
                root_moves(None, cand_moves(scored)),
            ),
        r.1@ == deepening(
            *state,
            if state.move_count < 4 {
                3
            } else {
                MAX_DEPTH as int
            },
            1,
            None,
            Seq::empty(),
            empty_slots(),
            fresh_context(),
        ),
{
    let ss = SearchState {
        cells: state.cells,
        black_captures: state.black_captures,
        white_captures: state.white_captures,
        is_black_turn: state.is_black_turn,
        last_move: state.last_move,
        zobrist_hash: state.zobrist_hash,
        move_count: state.move_count,
    };
    let max_depth: usize = if ss.move_count < 4 {
        3
    } else {
        MAX_DEPTH
    };
    assert(ss == *state);
    let mut tt = TranspositionTable::new();
    assert(tt.slots@ =~= empty_slots());
    main_thread_iterative_deepening(ss, max_depth, &mut tt)
}

/// Candidate moves of `state` within `radius` of a stone, best first, as
/// `usize` coordinates.
pub fn get_candidate_moves(state: &SearchState, radius: i32) -> (moves: Vec<(usize, usize)>)
    requires
        radius >= 0,
    ensures
        exists|scored: Seq<(u8, u8, i32)>|
            #[trigger] ordered_candidates(*state, radius as int, scored) && moves@ == scored.map_values(
                |m: (u8, u8, i32)| (m.0 as usize, m.1 as usize),
            ),
{
    let scored = state.get_candidate_moves_scored(radius as usize);
    let mut moves: Vec<(usize, usize)> = Vec::new();
    let mut i: usize = 0;
    while i < scored.len()
        invariant
            0 <= i <= scored.len(),
            moves@ == scored@.take(i as int).map_values(|m: (u8, u8, i32)| (m.0 as usize, m.1 as usize)),
        decreases scored.len() - i,
    {
        let (r, c, _) = scored[i];
        moves.push((r as usize, c as usize));
        proof {
            assert(scored@.take(i + 1) =~= scored@.take(i as int).push(scored@[i as int]));
            assert(moves@ =~= scored@.take(i + 1).map_values(|m: (u8, u8, i32)| (m.0 as usize, m.1 as usize)));
        }
        i += 1;
    }
    proof {
        assert(scored@.take(scored.len() as int) =~= scored@);
    }
    moves
}

} // verus!
