//! Candidate moves of the search board and their ordering.
use vstd::prelude::*;
use crate::constants::{DEEP_RADIUS, DEEP_RADIUS_DEPTH, RADIUS, SB_EVAL_CLAMP, SHALLOW_ORDER_DEPTH};
use crate::search_board::{on_board, stone_count, Cell, Grid, PatternCounts, PatternKind, SearchBoard, COUNT_LIMIT};
use crate::search_board::moves::{
    after_grid, captures_before, make_move_post, move_delta, undo_post, lemma_undo_restores_make,
    lemma_delta_bounds,
};
use crate::search_board::recognize::{full_counts, local_counts};
use crate::search_board::rules::{board_eval, clamp, free_threes_made, position_value, score_of};
use crate::sorting::{arranged, stable_order, stable_order_of, stably_sorted};

verus! {

/// `(x, y)` is within `rad` rows and columns of `(a, b)`.
pub open spec fn close(x: int, y: int, a: int, b: int, rad: int) -> bool {
    a - rad <= x <= a + rad && b - rad <= y <= b + rad
}

/// Some stone on a cell before `(r, c)` in row-major order is close to `(x, y)`.
pub open spec fn near_before(g: Grid, x: int, y: int, rad: int, r: int, c: int) -> bool
    decreases r, c,
{
    if r <= 0 && c <= 0 {
        false
    } else if c > 0 {
        near_before(g, x, y, rad, r, c - 1) || (g(r, c - 1) != Cell::Empty && on_board(r, c - 1) && close(
            x,
            y,
            r,
            c - 1,
            rad,
        ))
    } else {
        near_before(g, x, y, rad, r - 1, 19)
    }
}

/// Some stone on the board is within `rad` rows and columns of `(x, y)`.
pub open spec fn near_stone(g: Grid, x: int, y: int, rad: int) -> bool {
    near_before(g, x, y, rad, 18, 19)
}

/// Neighbourhood radius of the candidate search at ply `depth`.
pub open spec fn radius_at(depth: int) -> int {
    if depth >= DEEP_RADIUS_DEPTH {
        DEEP_RADIUS as int
    } else {
        RADIUS as int
    }
}

/// `(x, y)` is a candidate: empty, near a stone, and not a double three for
/// the side to move.
pub open spec fn is_candidate(b: SearchBoard, x: int, y: int, rad: int) -> bool {
    &&& on_board(x, y)
    &&& near_stone(b.grid(), x, y, rad)
    &&& b.grid()(x, y) == Cell::Empty
    &&& free_threes_made(b.grid(), b.current, x, y, 4) < 2
}

/// The candidates on cells before `(r, c)`, in row-major order.
pub open spec fn candidates_before(b: SearchBoard, rad: int, r: int, c: int) -> Seq<(usize, usize)>
    decreases r, c,
{
    if r <= 0 && c <= 0 {
        Seq::empty()
    } else if c > 0 {
        let prev = candidates_before(b, rad, r, c - 1);
        if is_candidate(b, r, c - 1, rad) {
            prev.push((r as usize, (c - 1) as usize))
        } else {
            prev
        }
    } else {
        candidates_before(b, rad, r - 1, 19)
    }
}

/// All candidates, in row-major order.
pub open spec fn candidates(b: SearchBoard, rad: int) -> Seq<(usize, usize)> {
    candidates_before(b, rad, 18, 19)
}

/// Static evaluation of the board after the side to move plays `(r, c)`.
pub open spec fn eval_after(b: SearchBoard, r: int, c: int) -> int {
    let g = b.grid();
    let cur = b.current;
    let opp = b.opponent;
    let k = captures_before(g, r, c, cur, opp, 8);
    let g2 = after_grid(g, r, c, cur, opp, 8);
    let nb = b.black_patterns.shifted(move_delta(g, g2, r, c, k, b.black_patterns, true), 1);
    let nw = b.white_patterns.shifted(move_delta(g, g2, r, c, k, b.white_patterns, false), 1);
    let caps = b.captures@.update(cur.slot(), (b.captures[cur.slot()] + k) as i32);
    clamp(
        score_of(nb, caps[1] as int, opp == Cell::Black) - score_of(nw, caps[2] as int, opp == Cell::White),
        -SB_EVAL_CLAMP as int,
        SB_EVAL_CLAMP as int,
    )
}

/// Ordering key of a candidate (smaller first): near the root the mover's
/// view of the evaluation after the move, deeper the negated local score.
pub open spec fn order_key(b: SearchBoard, m: (usize, usize), depth: int) -> i32 {
    if depth <= SHALLOW_ORDER_DEPTH {
        let e = eval_after(b, m.0 as int, m.1 as int);
        (if b.current == Cell::Black {
            -e
        } else {
            e
        }) as i32
    } else {
        (-position_value(b.grid(), m.0 as int, m.1 as int, b.current, 4)) as i32
    }
}

/// Counters small enough for a move to keep them scorable.
pub open spec fn counts_modest(pc: PatternCounts) -> bool {
    forall|k: PatternKind| -3000 <= #[trigger] pc.count(k) <= 3000
}

/// The local ordering score lies between 0 and 200 000 per direction.
pub proof fn lemma_position_value_bounds(g: Grid, r: int, c: int, player: Cell, n: int)
    requires
        0 <= n <= 4,
    ensures
        0 <= position_value(g, r, c, player, n) <= 200_000 * n,
    decreases n,
{
    if n > 0 {
        lemma_position_value_bounds(g, r, c, player, n - 1);
    }
}

proof fn lemma_near_step(g: Grid, x: int, y: int, rad: int, r: int)
    requires
        0 <= r < 18,
    ensures
        near_before(g, x, y, rad, r + 1, 0) == near_before(g, x, y, rad, r, 19),
{
}

/// Every listed candidate is a candidate cell.
proof fn lemma_candidates_valid(b: SearchBoard, rad: int, r: int, c: int)
    requires
        0 <= r <= 18,
        0 <= c <= 19,
    ensures
        forall|j: int|
            #![trigger candidates_before(b, rad, r, c)[j]]
            0 <= j < candidates_before(b, rad, r, c).len() ==> is_candidate(
                b,
                candidates_before(b, rad, r, c)[j].0 as int,
                candidates_before(b, rad, r, c)[j].1 as int,
                rad,
            ),
    decreases r, c,
{
    if r <= 0 && c <= 0 {
    } else if c > 0 {
        lemma_candidates_valid(b, rad, r, c - 1);
        let prev = candidates_before(b, rad, r, c - 1);
        let s = candidates_before(b, rad, r, c);
        assert forall|j: int| #![trigger s[j]] 0 <= j < s.len() implies is_candidate(b, s[j].0 as int, s[j].1 as int, rad) by {
            if j < prev.len() {
                assert(s[j] == prev[j]);
                assert(is_candidate(b, prev[j].0 as int, prev[j].1 as int, rad));
            } else {
                assert(is_candidate(b, r, c - 1, rad));
                assert(s[j] == (r as usize, (c - 1) as usize));
            }
        }
    } else {
        lemma_candidates_valid(b, rad, r - 1, 19);
        assert(candidates_before(b, rad, r, c) == candidates_before(b, rad, r - 1, 19));
    }
}

/// One colour's modest counters stay scorable through one move, and the
/// recorded change can be undone.
proof fn lemma_modest_color(b: SearchBoard, r: int, c: int, held: PatternCounts, is_black: bool)
    requires
        on_board(r, c),
        counts_modest(held),
    ensures
        held.shifted(
            move_delta(
                b.grid(),
                after_grid(b.grid(), r, c, b.current, b.opponent, 8),
                r,
                c,
                captures_before(b.grid(), r, c, b.current, b.opponent, 8),
                held,
                is_black,
            ),
            1,
        ).scorable(),
        forall|kk: PatternKind|
            -COUNT_LIMIT - 1444 <= #[trigger] move_delta(
                b.grid(),
                after_grid(b.grid(), r, c, b.current, b.opponent, 8),
                r,
                c,
                captures_before(b.grid(), r, c, b.current, b.opponent, 8),
                held,
                is_black,
            ).count(kk) <= COUNT_LIMIT + 1444,
        forall|kk: PatternKind|
            #![trigger held.count(kk)]
            -2 * COUNT_LIMIT <= held.shifted(
                move_delta(
                    b.grid(),
                    after_grid(b.grid(), r, c, b.current, b.opponent, 8),
                    r,
                    c,
                    captures_before(b.grid(), r, c, b.current, b.opponent, 8),
                    held,
                    is_black,
                ),
                1,
            ).count(kk) + move_delta(
                b.grid(),
                after_grid(b.grid(), r, c, b.current, b.opponent, 8),
                r,
                c,
                captures_before(b.grid(), r, c, b.current, b.opponent, 8),
                held,
                is_black,
            ).count(kk) * -1 <= 2 * COUNT_LIMIT,
{
    let g = b.grid();
    let k = captures_before(g, r, c, b.current, b.opponent, 8);
    let g2 = after_grid(g, r, c, b.current, b.opponent, 8);
    crate::search_board::recognize::lemma_local_counts_within(g, is_black, r, c);
    crate::search_board::recognize::lemma_local_counts_within(g2, is_black, r, c);
    crate::search_board::recognize::lemma_full_counts_within(g2, is_black);
    let d = move_delta(g, g2, r, c, k, held, is_black);
    let la = local_counts(g2, is_black, r, c);
    let lb = local_counts(g, is_black, r, c);
    let fa = full_counts(g2, is_black);
    assert forall|kk: PatternKind|
        #![trigger held.count(kk)]
        -3068 <= d.count(kk) <= 4444 && -4000 <= held.shifted(d, 1).count(kk) <= 4000
            && held.shifted(d, 1).count(kk) + d.count(kk) * -1 == held.count(kk) by {
        assert(-3000 <= held.count(kk) <= 3000);
        assert(0 <= la.count(kk) <= 68);
        assert(0 <= lb.count(kk) <= 68);
        assert(0 <= fa.count(kk) <= 1444);
        if k == 0 {
            assert(d.count(kk) == la.count(kk) - lb.count(kk));
        } else {
            assert(d.count(kk) == fa.count(kk) - held.count(kk));
        }
    }
    assert forall|kk: PatternKind| -4000 <= #[trigger] held.shifted(d, 1).count(kk) <= 4000 by {
        assert(-3000 <= held.count(kk) <= 3000);
    }
    assert forall|kk: PatternKind| -COUNT_LIMIT - 1444 <= #[trigger] d.count(kk) <= COUNT_LIMIT + 1444 by {
        assert(-3000 <= held.count(kk) <= 3000);
    }
}

impl SearchBoard {
    /// Candidate moves for the side to move at ply `depth`, best first.
    pub fn get_candidate_moves(&mut self, depth: usize) -> (moves: Vec<(usize, usize)>)
        requires
            old(self).current != Cell::Empty,
            old(self).opponent != Cell::Empty,
            old(self).captures[old(self).current.slot()] <= i32::MAX - 8,
            old(self).total_stones == stone_count(old(self).grid()),
            old(self).move_count < usize::MAX,
            counts_modest(old(self).black_patterns),
            counts_modest(old(self).white_patterns),
            depth <= SHALLOW_ORDER_DEPTH ==> forall|x: int, y: int|
                is_candidate(*old(self), x, y, radius_at(depth as int)) ==> #[trigger] captures_before(
                    old(self).grid(),
                    x,
                    y,
                    old(self).current,
                    old(self).opponent,
                    8,
                ) <= 4,
        ensures
            *final(self) == *old(self),
            old(self).total_stones == 0 ==> moves@ == seq![(9usize, 9usize)],
            old(self).total_stones != 0 ==> stably_sorted(
                moves@,
                candidates(*old(self), radius_at(depth as int)),
                candidates(*old(self), radius_at(depth as int)).map_values(
                    |m: (usize, usize)| order_key(*old(self), m, depth as int),
                ),
            ),
    {
        // Empty board: center
        if self.total_stones == 0 {
            return vec![(9, 9)];
        }
        let radius: usize = if depth >= DEEP_RADIUS_DEPTH {
            DEEP_RADIUS
        } else {
            RADIUS
        };
        let ghost rad = radius as int;
        let ghost g = self.grid();

        // Cells near a stone, deduplicated in a flat array.
        let mut seen = [false; 361];
        let mut r: usize = 0;
        while r < 19
            invariant
                0 <= r <= 19,
                1 <= radius <= 2,
                rad == radius,
                g == self.grid(),
                forall|x: int, y: int|
                    on_board(x, y) ==> #[trigger] seen[19 * x + y] == near_before(g, x, y, rad, r as int, 0),
            decreases 19 - r,
        {
            let mut c: usize = 0;
            while c < 19
                invariant
                    0 <= r < 19,
                    0 <= c <= 19,
                    1 <= radius <= 2,
                    rad == radius,
                    g == self.grid(),
                    forall|x: int, y: int|
                        on_board(x, y) ==> #[trigger] seen[19 * x + y] == near_before(g, x, y, rad, r as int, c as int),
                decreases 19 - c,
            {
                if self.cells[r][c] != Cell::Empty {
                    let r_start = if r >= radius { r - radius } else { 0 };
                    let r_end = if r + radius + 1 < 19 { r + radius + 1 } else { 19 };
                    let c_start = if c >= radius { c - radius } else { 0 };
                    let c_end = if c + radius + 1 < 19 { c + radius + 1 } else { 19 };
                    let ghost base = seen;
                    let mut rr = r_start;
                    while rr < r_end
                        invariant
                            r_start <= rr <= r_end <= 19,
                            c_start <= c_end <= 19,
                            forall|x: int, y: int|
                                on_board(x, y) ==> #[trigger] seen[19 * x + y] == (base[19 * x + y] || (
                                r_start <= x < rr && c_start <= y < c_end)),
                        decreases r_end - rr,
                    {
                        let mut cc = c_start;
                        while cc < c_end
                            invariant
                                r_start <= rr < r_end <= 19,
                                c_start <= cc <= c_end <= 19,
                                forall|x: int, y: int|
                                    on_board(x, y) ==> #[trigger] seen[19 * x + y] == (base[19 * x + y] || (
                                    r_start <= x < rr && c_start <= y < c_end) || (x == rr && c_start <= y
                                    < cc)),
                            decreases c_end - cc,
                        {
                            seen[rr * 19 + cc] = true;
                            proof {
                                assert forall|x: int, y: int| on_board(x, y) && !(x == rr && y == cc) implies
                                    19 * x + y != rr * 19 + cc by {}
                            }
                            cc += 1;
                        }
                        rr += 1;
                    }
                    proof {
                        assert forall|x: int, y: int| on_board(x, y) implies #[trigger] seen[19 * x + y]
                            == near_before(g, x, y, rad, r as int, c + 1) by {
                            assert(near_before(g, x, y, rad, r as int, c + 1) == (near_before(g, x, y, rad, r as int, c as int) || (g(r as int, c as int) != Cell::Empty && close(x, y, r as int, c as int, rad))));
                        }
                    }
                } else {
                    proof {
                        assert forall|x: int, y: int| on_board(x, y) implies #[trigger] seen[19 * x + y]
                            == near_before(g, x, y, rad, r as int, c + 1) by {
                            assert(near_before(g, x, y, rad, r as int, c + 1) == near_before(g, x, y, rad, r as int, c as int));
                        }
                    }
                }
                c += 1;
            }
            proof {
                assert forall|x: int, y: int| on_board(x, y) implies #[trigger] seen[19 * x + y]
                    == near_before(g, x, y, rad, r + 1, 0) by {
                    if r < 18 {
                        lemma_near_step(g, x, y, rad, r as int);
                    }
                }
            }
            r += 1;
        }
        assert forall|x: int, y: int| on_board(x, y) implies #[trigger] seen[19 * x + y] == near_stone(g, x, y, rad) by {
            assert(near_before(g, x, y, rad, 19, 0) == near_before(g, x, y, rad, 18, 19));
        }

        // Collect valid moves (empty, not double-three)
        let mut moves: Vec<(usize, usize)> = Vec::new();
        let mut r: usize = 0;
        while r < 19
            invariant
                0 <= r <= 19,
                rad == radius,
                g == self.grid(),
                forall|x: int, y: int| on_board(x, y) ==> #[trigger] seen[19 * x + y] == near_stone(g, x, y, rad),
                r < 19 ==> moves@ == candidates_before(*self, rad, r as int, 0),
                r == 19 ==> moves@ == candidates(*self, rad),
            decreases 19 - r,
        {
            let mut c: usize = 0;
            while c < 19
                invariant
                    0 <= r < 19,
                    0 <= c <= 19,
                    rad == radius,
                    g == self.grid(),
                    forall|x: int, y: int| on_board(x, y) ==> #[trigger] seen[19 * x + y] == near_stone(g, x, y, rad),
                    moves@ == candidates_before(*self, rad, r as int, c as int),
                decreases 19 - c,
            {
                let idx = r * 19 + c;
                assert(seen[19 * (r as int) + (c as int)] == seen[idx as int]);
                if seen[idx] && self.cells[r][c] == Cell::Empty && !self.sb_is_double_three(r as i32, c as i32) {
                    moves.push((r, c));
                }
                c += 1;
            }
            proof {
                if r < 18 {
                    assert(candidates_before(*self, rad, r + 1, 0) == candidates_before(*self, rad, r as int, 19));
                }
            }
            r += 1;
        }
        let ghost cands = moves@;
        proof {
            lemma_candidates_valid(*self, rad, 18, 19);
        }

        // Ordering keys.
        let mut keys: Vec<i32> = Vec::new();
        let n = moves.len();
        let mut i: usize = 0;
        while i < n
            invariant
                0 <= i <= n,
                n == moves.len(),
                moves@ == cands,
                cands == candidates(*old(self), rad),
                rad == radius_at(depth as int),
                *self == *old(self),
                keys@ == cands.take(i as int).map_values(|m: (usize, usize)| order_key(*old(self), m, depth as int)),
                forall|j: int| #![trigger cands[j]] 0 <= j < n ==> is_candidate(*old(self), cands[j].0 as int, cands[j].1 as int, rad),
                old(self).current != Cell::Empty,
                old(self).opponent != Cell::Empty,
                old(self).captures[old(self).current.slot()] <= i32::MAX - 8,
                old(self).total_stones == stone_count(old(self).grid()),
                old(self).move_count < usize::MAX,
                counts_modest(old(self).black_patterns),
                counts_modest(old(self).white_patterns),
                depth <= SHALLOW_ORDER_DEPTH ==> forall|x: int, y: int|
                    is_candidate(*old(self), x, y, radius_at(depth as int)) ==> #[trigger] captures_before(
                        old(self).grid(),
                        x,
                        y,
                        old(self).current,
                        old(self).opponent,
                        8,
                    ) <= 4,
            decreases n - i,
        {
            let (mr, mc) = moves[i];
            assert(is_candidate(*old(self), cands[i as int].0 as int, cands[i as int].1 as int, rad));
            let key: i32 = if depth <= SHALLOW_ORDER_DEPTH {
                let mover = self.current;
                let ghost before = *self;
                proof {
                    lemma_modest_color(before, mr as int, mc as int, before.black_patterns, true);
                    lemma_modest_color(before, mr as int, mc as int, before.white_patterns, false);
                    crate::search_board::moves::lemma_within_bounded(PatternCounts::zero(), 0);
                    assert(before.counts_bounded()) by {
                        assert forall|kk: PatternKind| -COUNT_LIMIT <= #[trigger] before.black_patterns.count(kk) <= COUNT_LIMIT
                            && -COUNT_LIMIT <= before.white_patterns.count(kk) <= COUNT_LIMIT by {
                            assert(-3000 <= before.black_patterns.count(kk) <= 3000);
                            assert(-3000 <= before.white_patterns.count(kk) <= 3000);
                        }
                    }
                }
                let undo = self.make_move(mr, mc);
                let ghost mid = *self;
                let score = self.sb_heuristic_evaluation();
                assert(score == eval_after(before, mr as int, mc as int));
                self.undo_move(&undo);
                proof {
                    lemma_undo_restores_make(before, mr as int, mc as int, mid, undo, *self);
                }
                if mover == Cell::Black {
                    -score
                } else {
                    score
                }
            } else {
                let e = self.evaluate_position(mr, mc, self.current);
                assert(0 <= e <= 800_000) by {
                    crate::search_board::ordering::lemma_position_value_bounds(self.grid(), mr as int, mc as int, self.current, 4);
                }
                -e
            };
            keys.push(key);
            proof {
                assert(cands.take(i + 1) =~= cands.take(i as int).push(cands[i as int]));
                assert(keys@ =~= cands.take(i + 1).map_values(|m: (usize, usize)| order_key(*old(self), m, depth as int)));
            }
            i += 1;
        }

        let order = stable_order(&keys);
        let mut result: Vec<(usize, usize)> = Vec::new();
        let mut j: usize = 0;
        while j < n
            invariant
                0 <= j <= n,
                n == moves.len(),
                order@.len() == n,
                forall|k: int| 0 <= k < n ==> #[trigger] order@[k] < n,
                result@ == order@.take(j as int).map_values(|t: usize| moves@[t as int]),
            decreases n - j,
        {
            result.push(moves[order[j]]);
            proof {
                assert(order@.take(j + 1) =~= order@.take(j as int).push(order@[j as int]));
            }
            j += 1;
        }
        proof {
            assert(cands.take(n as int) =~= cands);
            assert(order@.take(n as int) =~= order@);
            assert(arranged(result@, cands, keys@, order@));
        }
        result
    }
}

} // verus!
