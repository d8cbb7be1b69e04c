//! Playing and taking back moves: captures, the Zobrist hash, and the
//! incremental update of the formation counts.
use vstd::prelude::*;
use crate::keys::{key_seq, lemma_xor_laws, lemma_xor_swap, lemma_xor_zero, xorshift64, KEY_SEED};
use crate::search_board::{
    lemma_index, on_board, stone_count, stones_before, Cell, Grid, PatternCounts, PatternKind, SearchBoard,
    UndoInfo, COUNT_LIMIT,
};
use crate::search_board::recognize::{full_counts, lemma_full_counts_within, lemma_local_counts_within, local_counts};

verus! {

/// Zobrist keys: one per (cell, colour), and one for the side to move.
pub struct ZobristSeeds {
    /// `[cell_index][0 = Black, 1 = White]`
    pub board: [[u64; 2]; 361],
    /// XORed in when the side to move changes.
    pub player: u64,
}

/// Key of a stone of colour column `s` (0 Black, 1 White) on cell `i`.
pub open spec fn seed_key(i: int, s: int) -> u64 {
    key_seq((2 * i + s + 1) as nat)
}

/// Key of the side to move.
pub open spec fn player_key() -> u64 {
    key_seq(723)
}

impl ZobristSeeds {
    /// The table holds the keys drawn from `KEY_SEED` in order.
    pub open spec fn canonical(self) -> bool {
        &&& forall|i: int, s: int| 0 <= i < 361 && 0 <= s < 2 ==> #[trigger] self.board[i][s] == seed_key(i, s)
        &&& self.player == player_key()
    }
}

/// The Zobrist keys: two per cell in row-major order, then the side key.
pub fn zobrist() -> (z: ZobristSeeds)
    ensures
        z.canonical(),
{
    let mut rng: u64 = KEY_SEED;
    let mut seeds = ZobristSeeds { board: [[0u64; 2]; 361], player: 0 };
    let mut i: usize = 0;
    while i < 361
        invariant
            0 <= i <= 361,
            rng == key_seq((2 * i) as nat),
            forall|j: int, s: int| 0 <= j < i && 0 <= s < 2 ==> #[trigger] seeds.board[j][s] == seed_key(j, s),
        decreases 361 - i,
    {
        let k0 = xorshift64(&mut rng);
        assert(k0 == key_seq((2 * i + 1) as nat));
        seeds.board[i][0] = k0;
        let k1 = xorshift64(&mut rng);
        assert(k1 == key_seq((2 * i + 2) as nat));
        seeds.board[i][1] = k1;
        assert(seeds.board[i as int][0] == seed_key(i as int, 0));
        assert(seeds.board[i as int][1] == seed_key(i as int, 1));
        i += 1;
    }
    seeds.player = xorshift64(&mut rng);
    assert(seeds.player == key_seq(723));
    seeds
}

/// Key of the stone (if any) on cell index `i` of `g`.
pub open spec fn cell_key(g: Grid, i: int) -> u64 {
    let x = g(i / 19, i % 19);
    if x == Cell::Empty {
        0
    } else {
        seed_key(i, x.slot() - 1)
    }
}

/// XOR of the keys of the stones on the cell indices `< n`.
pub open spec fn stones_hash(g: Grid, n: int) -> u64
    decreases n,
{
    if n <= 0 {
        0
    } else {
        stones_hash(g, n - 1) ^ cell_key(g, n - 1)
    }
}

/// Changing one cell of the board changes the stone hash by the keys of
/// that cell before and after.
pub proof fn lemma_stones_hash_single(g: Grid, g2: Grid, x0: int, y0: int, n: int)
    requires
        on_board(x0, y0),
        0 <= n <= 361,
        forall|x: int, y: int| on_board(x, y) && !(x == x0 && y == y0) ==> #[trigger] g2(x, y) == g(x, y),
    ensures
        stones_hash(g2, n) == if n > 19 * x0 + y0 {
            stones_hash(g, n) ^ (cell_key(g, 19 * x0 + y0) ^ cell_key(g2, 19 * x0 + y0))
        } else {
            stones_hash(g, n)
        },
    decreases n,
{
    if n > 0 {
        lemma_stones_hash_single(g, g2, x0, y0, n - 1);
        let j = n - 1;
        let i0 = 19 * x0 + y0;
        let x = j / 19;
        let y = j % 19;
        assert(19 * x + y == j);
        lemma_index(x0, y0);
        if j != i0 {
            assert(g2(x, y) == g(x, y));
            assert(cell_key(g2, j) == cell_key(g, j));
            if j > i0 {
                lemma_xor_swap(stones_hash(g, j), cell_key(g, i0) ^ cell_key(g2, i0), cell_key(g, j));
            }
        } else {
            lemma_xor_swap(stones_hash(g, j), cell_key(g, i0), cell_key(g2, i0));
        }
    }
}

/// Starting the capture hash from `h` XORs `h` onto the hash started from zero.
pub proof fn lemma_hash_caps_xor(h: u64, g: Grid, r: int, c: int, me: Cell, opp: Cell, d: int)
    ensures
        hash_caps(h, g, r, c, me, opp, d) == h ^ hash_caps(0, g, r, c, me, opp, d),
    decreases d,
{
    if d <= 0 {
        lemma_xor_zero(h);
    } else {
        lemma_hash_caps_xor(h, g, r, c, me, opp, d - 1);
        let e = hash_caps(0, g, r, c, me, opp, d - 1);
        let dr = all_dir(d - 1).0;
        let dc = all_dir(d - 1).1;
        let zi = opp.slot() - 1;
        let k1 = seed_key(19 * (r + dr) + (c + dc), zi);
        let k2 = seed_key(19 * (r + 2 * dr) + (c + 2 * dc), zi);
        lemma_xor_swap(h, e, k1);
        lemma_xor_swap(h, e ^ k1, k2);
    }
}

/// The stone hash of the board after placing `me` on an empty `(r, c)` and
/// capturing in the directions `< d` is the capture hash started from the
/// old stone hash with the placed stone's key.
pub proof fn lemma_after_stones(g: Grid, r: int, c: int, me: Cell, opp: Cell, d: int)
    requires
        on_board(r, c),
        g(r, c) == Cell::Empty,
        me != Cell::Empty,
        opp == me.other(),
        0 <= d <= 8,
    ensures
        stones_hash(after_grid(g, r, c, me, opp, d), 361) == hash_caps(
            stones_hash(g, 361) ^ seed_key(19 * r + c, me.slot() - 1),
            g,
            r,
            c,
            me,
            opp,
            d,
        ),
    decreases d,
{
    lemma_index(r, c);
    if d == 0 {
        let g0 = after_grid(g, r, c, me, opp, 0);
        lemma_stones_hash_single(g, g0, r, c, 361);
        assert(cell_key(g, 19 * r + c) == 0);
        assert(cell_key(g0, 19 * r + c) == seed_key(19 * r + c, me.slot() - 1));
        lemma_xor_laws(0, seed_key(19 * r + c, me.slot() - 1), 0);
        lemma_xor_zero(seed_key(19 * r + c, me.slot() - 1));
    } else {
        lemma_after_stones(g, r, c, me, opp, d - 1);
        let e = d - 1;
        let gd = after_grid(g, r, c, me, opp, e);
        let gn = after_grid(g, r, c, me, opp, d);
        let dr = all_dir(e).0;
        let dc = all_dir(e).1;
        if capture_in(g, r, c, e, me, opp) {
            let (x1, y1) = (r + dr, c + dc);
            let (x2, y2) = (r + 2 * dr, c + 2 * dc);
            lemma_ray_untouched(g, r, c, me, opp, e, 1);
            lemma_ray_untouched(g, r, c, me, opp, e, 2);
            assert(on_board(x1, y1) && on_board(x2, y2));
            let ga = |x: int, y: int| if x == x1 && y == y1 { Cell::Empty } else { gd(x, y) };
            lemma_stones_hash_single(gd, ga, x1, y1, 361);
            lemma_index(x1, y1);
            lemma_index(x2, y2);
            let zi = opp.slot() - 1;
            assert(cell_key(gd, 19 * x1 + y1) == seed_key(19 * x1 + y1, zi));
            assert(cell_key(ga, 19 * x1 + y1) == 0);
            lemma_xor_zero(seed_key(19 * x1 + y1, zi));
            assert forall|x: int, y: int| on_board(x, y) && !(x == x2 && y == y2) implies #[trigger] gn(x, y) == ga(x, y) by {
                if x == x1 && y == y1 {
                    assert(cleared(g, r, c, me, opp, d, x, y));
                }
            }
            lemma_stones_hash_single(ga, gn, x2, y2, 361);
            assert(cleared(g, r, c, me, opp, d, x2, y2));
            assert(cell_key(ga, 19 * x2 + y2) == seed_key(19 * x2 + y2, zi));
            assert(cell_key(gn, 19 * x2 + y2) == 0);
            lemma_xor_zero(seed_key(19 * x2 + y2, zi));
        } else {
            assert(gn =~= gd);
        }
    }
}

/// The eight neighbour directions, in the order captures are tried.
pub open spec fn all_dir(d: int) -> (int, int) {
    if d == 0 {
        (1, 0)
    } else if d == 1 {
        (0, 1)
    } else if d == 2 {
        (1, 1)
    } else if d == 3 {
        (1, -1)
    } else if d == 4 {
        (-1, 0)
    } else if d == 5 {
        (0, -1)
    } else if d == 6 {
        (-1, -1)
    } else {
        (-1, 1)
    }
}

pub fn all_dir_at(d: usize) -> (r: (i32, i32))
    requires
        d < 8,
    ensures
        r.0 as int == all_dir(d as int).0,
        r.1 as int == all_dir(d as int).1,
{
    if d == 0 {
        (1, 0)
    } else if d == 1 {
        (0, 1)
    } else if d == 2 {
        (1, 1)
    } else if d == 3 {
        (1, -1)
    } else if d == 4 {
        (-1, 0)
    } else if d == 5 {
        (0, -1)
    } else if d == 6 {
        (-1, -1)
    } else {
        (-1, 1)
    }
}

/// A stone of `cur` on `(r, c)` brackets an `opp` pair in direction `d`.
pub open spec fn capture_in(g: Grid, r: int, c: int, d: int, cur: Cell, opp: Cell) -> bool {
    let dr = all_dir(d).0;
    let dc = all_dir(d).1;
    &&& on_board(r + 3 * dr, c + 3 * dc)
    &&& g(r + dr, c + dc) == opp
    &&& g(r + 2 * dr, c + 2 * dc) == opp
    &&& g(r + 3 * dr, c + 3 * dc) == cur
}

/// Number of directions `< n` in which a stone on `(r, c)` captures.
pub open spec fn captures_before(g: Grid, r: int, c: int, cur: Cell, opp: Cell, n: int) -> int
    decreases n,
{
    if n <= 0 {
        0
    } else {
        captures_before(g, r, c, cur, opp, n - 1) + if capture_in(g, r, c, n - 1, cur, opp) {
            1int
        } else {
            0
        }
    }
}

/// Whether `(x, y)` is one of the stones captured in the directions `< n`.
pub open spec fn cleared(g: Grid, r: int, c: int, cur: Cell, opp: Cell, n: int, x: int, y: int) -> bool
    decreases n,
{
    if n <= 0 {
        false
    } else {
        let dr = all_dir(n - 1).0;
        let dc = all_dir(n - 1).1;
        cleared(g, r, c, cur, opp, n - 1, x, y) || (capture_in(g, r, c, n - 1, cur, opp) && ((x == r
            + dr && y == c + dc) || (x == r + 2 * dr && y == c + 2 * dc)))
    }
}

/// The board after `cur` plays `(r, c)` and captures in the directions `< n`.
pub open spec fn after_grid(g: Grid, r: int, c: int, cur: Cell, opp: Cell, n: int) -> Grid {
    |x: int, y: int|
        if x == r && y == c {
            cur
        } else if cleared(g, r, c, cur, opp, n, x, y) {
            Cell::Empty
        } else {
            g(x, y)
        }
}

/// The captured stones of the directions `< n`, two per capture, in order.
pub open spec fn captured_seq(g: Grid, r: int, c: int, cur: Cell, opp: Cell, n: int) -> Seq<(usize, usize)>
    decreases n,
{
    if n <= 0 {
        Seq::empty()
    } else {
        let prev = captured_seq(g, r, c, cur, opp, n - 1);
        let dr = all_dir(n - 1).0;
        let dc = all_dir(n - 1).1;
        if capture_in(g, r, c, n - 1, cur, opp) {
            prev.push(((r + dr) as usize, (c + dc) as usize)).push(
                ((r + 2 * dr) as usize, (c + 2 * dc) as usize),
            )
        } else {
            prev
        }
    }
}

/// Hash `h` after XORing out the stones captured in the directions `< n`.
pub open spec fn hash_caps(h: u64, g: Grid, r: int, c: int, cur: Cell, opp: Cell, n: int) -> u64
    decreases n,
{
    if n <= 0 {
        h
    } else {
        let prev = hash_caps(h, g, r, c, cur, opp, n - 1);
        let dr = all_dir(n - 1).0;
        let dc = all_dir(n - 1).1;
        let zi = opp.slot() - 1;
        if capture_in(g, r, c, n - 1, cur, opp) {
            (prev ^ seed_key(19 * (r + dr) + (c + dc), zi)) ^ seed_key(
                19 * (r + 2 * dr) + (c + 2 * dc),
                zi,
            )
        } else {
            prev
        }
    }
}

/// Change of one colour's counts made by a move: a diff of the local
/// rescans when nothing was captured, a full rescan otherwise.
pub open spec fn move_delta(
    g: Grid,
    g2: Grid,
    r: int,
    c: int,
    captured: int,
    held: PatternCounts,
    is_black: bool,
) -> PatternCounts {
    if captured == 0 {
        local_counts(g2, is_black, r, c).minus(local_counts(g, is_black, r, c))
    } else {
        full_counts(g2, is_black).minus(held)
    }
}

/// `new` and `info` are the board and undo record after `old.current` plays
/// `(r, c)` on `old`.
pub open spec fn make_move_post(old: SearchBoard, r: int, c: int, new: SearchBoard, info: UndoInfo) -> bool {
    let g = old.grid();
    let cur = old.current;
    let opp = old.opponent;
    let k = captures_before(g, r, c, cur, opp, 8);
    let g2 = after_grid(g, r, c, cur, opp, 8);
    let caps = captured_seq(g, r, c, cur, opp, 8);
    &&& new.grid() == g2
    &&& new.current == opp
    &&& new.opponent == cur
    &&& new.captures@ == old.captures@.update(cur.slot(), (old.captures[cur.slot()] + k) as i32)
    &&& new.hash == hash_caps(old.hash ^ seed_key(19 * r + c, cur.slot() - 1), g, r, c, cur, opp, 8)
        ^ player_key()
    &&& new.move_count == old.move_count + 1
    &&& new.last_move == Some((r as usize, c as usize))
    &&& new.total_stones == old.total_stones + 1 - 2 * k
    &&& info.delta_black == move_delta(g, g2, r, c, k, old.black_patterns, true)
    &&& info.delta_white == move_delta(g, g2, r, c, k, old.white_patterns, false)
    &&& new.black_patterns == old.black_patterns.shifted(info.delta_black, 1)
    &&& new.white_patterns == old.white_patterns.shifted(info.delta_white, 1)
    &&& info.placed == (r as usize, c as usize)
    &&& info.placed_player == cur
    &&& info.num_captured == 2 * k
    &&& info.captured_stones@.subrange(0, 2 * k) == caps
    &&& info.old_captures_current == old.captures[cur.slot()]
    &&& info.old_hash == old.hash
    &&& info.old_move_count == old.move_count
    &&& info.old_last_move == old.last_move
    &&& info.old_total_stones == old.total_stones
}

/// Whether `(x, y)` is among the first `n` recorded captured stones.
pub open spec fn was_captured(caps: Seq<(usize, usize)>, n: int, x: int, y: int) -> bool
    decreases n,
{
    if n <= 0 {
        false
    } else {
        was_captured(caps, n - 1, x, y) || (caps[n - 1].0 == x && caps[n - 1].1 == y)
    }
}

/// The board after `undo_move` with `info`: the placed stone lifted and the
/// captured stones given back to `col`.
pub open spec fn undo_grid(g: Grid, info: UndoInfo, col: Cell) -> Grid {
    |x: int, y: int|
        if was_captured(info.captured_stones@, info.num_captured as int, x, y) && on_board(x, y) {
            col
        } else if x == info.placed.0 && y == info.placed.1 {
            Cell::Empty
        } else {
            g(x, y)
        }
}

/// `new` is `old` after `undo_move(info)`.
pub open spec fn undo_post(old: SearchBoard, info: UndoInfo, new: SearchBoard) -> bool {
    &&& new.current == old.opponent
    &&& new.opponent == old.current
    &&& new.black_patterns == old.black_patterns.shifted(info.delta_black, -1)
    &&& new.white_patterns == old.white_patterns.shifted(info.delta_white, -1)
    &&& new.grid() == undo_grid(old.grid(), info, old.current)
    &&& new.captures@ == old.captures@.update(old.opponent.slot(), info.old_captures_current)
    &&& new.hash == info.old_hash
    &&& new.move_count == info.old_move_count
    &&& new.last_move == info.old_last_move
    &&& new.total_stones == info.old_total_stones
}

/// Stone counts of two grids that differ at most on `(x, y)`.
pub proof fn lemma_stones_update(g: Grid, g2: Grid, x: int, y: int, nr: int, nc: int)
    requires
        on_board(x, y),
        forall|a: int, b: int| on_board(a, b) && !(a == x && b == y) ==> #[trigger] g2(a, b) == g(a, b),
        0 <= nr < 19,
        0 <= nc <= 19,
    ensures
        stones_before(g2, nr, nc) == stones_before(g, nr, nc) + if (x < nr || (x == nr && y < nc)) {
            (if g2(x, y) != Cell::Empty { 1int } else { 0 }) - (if g(x, y) != Cell::Empty { 1int } else { 0 })
        } else {
            0
        },
    decreases nr, nc,
{
    if nr <= 0 && nc <= 0 {
    } else if nc <= 0 {
        lemma_stones_update(g, g2, x, y, nr - 1, 19);
    } else {
        lemma_stones_update(g, g2, x, y, nr, nc - 1);
    }
}

/// Stone count of a grid that differs from `g` at most on `(x, y)`.
pub proof fn lemma_stone_count_update(g: Grid, g2: Grid, x: int, y: int)
    requires
        on_board(x, y),
        forall|a: int, b: int| on_board(a, b) && !(a == x && b == y) ==> #[trigger] g2(a, b) == g(a, b),
    ensures
        stone_count(g2) == stone_count(g) + (if g2(x, y) != Cell::Empty { 1int } else { 0 }) - (if g(x, y)
            != Cell::Empty { 1int } else { 0 }),
{
    lemma_stones_update(g, g2, x, y, 18, 19);
}

pub proof fn lemma_stone_count_nonneg(g: Grid, nr: int, nc: int)
    requires
        0 <= nr < 19,
        0 <= nc <= 19,
    ensures
        0 <= stones_before(g, nr, nc) <= 19 * nr + nc,
    decreases nr, nc,
{
    if nr <= 0 && nc <= 0 {
    } else if nc <= 0 {
        lemma_stone_count_nonneg(g, nr - 1, 19);
    } else {
        lemma_stone_count_nonneg(g, nr, nc - 1);
    }
}

/// The capture count over the first `n` directions grows with `n`.
pub proof fn lemma_captures_mono(g: Grid, r: int, c: int, cur: Cell, opp: Cell, n: int, m: int)
    requires
        0 <= n <= m,
    ensures
        0 <= captures_before(g, r, c, cur, opp, n) <= captures_before(g, r, c, cur, opp, m),
        captures_before(g, r, c, cur, opp, m) - captures_before(g, r, c, cur, opp, n) <= m - n,
    decreases m,
{
    if m > n {
        lemma_captures_mono(g, r, c, cur, opp, n, m - 1);
    } else if n > 0 {
        lemma_captures_mono(g, r, c, cur, opp, n - 1, n - 1);
    }
}

/// Counts within `[0, n]` for a small `n` are bounded.
pub proof fn lemma_within_bounded(pc: PatternCounts, n: int)
    requires
        pc.within(n),
        n <= 1444,
    ensures
        pc.bounded(),
{
    assert forall|k: PatternKind| -COUNT_LIMIT <= #[trigger] pc.count(k) <= COUNT_LIMIT by {
        assert(0 <= pc.count(k) <= n);
    }
}

/// Effect on every counter of a difference and of a shift.
pub proof fn lemma_minus_shift(a: PatternCounts, b: PatternCounts)
    requires
        a.bounded(),
        b.bounded(),
    ensures
        forall|k: PatternKind| #[trigger] a.minus(b).count(k) == a.count(k) - b.count(k),
{
    assert forall|k: PatternKind| #[trigger] a.minus(b).count(k) == a.count(k) - b.count(k) by {
        assert(-COUNT_LIMIT <= a.count(k) <= COUNT_LIMIT);
        assert(-COUNT_LIMIT <= b.count(k) <= COUNT_LIMIT);
    }
}

/// A cell that none of the directions `< n` captured.
pub proof fn lemma_not_cleared(g: Grid, r: int, c: int, cur: Cell, opp: Cell, n: int, x: int, y: int)
    requires
        forall|d: int|
            0 <= d < n ==> !((x == r + all_dir(d).0 && y == c + all_dir(d).1) || (x == r + 2 * all_dir(d).0
                && y == c + 2 * all_dir(d).1)),
    ensures
        !cleared(g, r, c, cur, opp, n, x, y),
    decreases n,
{
    if n > 0 {
        lemma_not_cleared(g, r, c, cur, opp, n - 1, x, y);
    }
}

/// Cells cleared by a capture in direction `d` are not on another
/// direction's ray.
pub proof fn lemma_rays_disjoint(d: int, e: int, k: int, m: int)
    requires
        0 <= d < 8,
        0 <= e < 8,
        d != e,
        1 <= k <= 3,
        1 <= m <= 2,
    ensures
        !(k * all_dir(d).0 == m * all_dir(e).0 && k * all_dir(d).1 == m * all_dir(e).1),
{
}

/// The cells of direction `d`'s ray keep their value through the captures
/// of the earlier directions.
pub proof fn lemma_ray_untouched(g: Grid, r: int, c: int, cur: Cell, opp: Cell, d: int, k: int)
    requires
        0 <= d < 8,
        1 <= k <= 3,
    ensures
        after_grid(g, r, c, cur, opp, d)(r + k * all_dir(d).0, c + k * all_dir(d).1) == g(
            r + k * all_dir(d).0,
            c + k * all_dir(d).1,
        ),
{
    let dr = all_dir(d).0;
    let dc = all_dir(d).1;
    assert forall|e: int|
        0 <= e < d implies !((r + k * dr == r + all_dir(e).0 && c + k * dc == c + all_dir(e).1) || (r
        + k * dr == r + 2 * all_dir(e).0 && c + k * dc == c + 2 * all_dir(e).1)) by {
        lemma_rays_disjoint(d, e, k, 1);
        lemma_rays_disjoint(d, e, k, 2);
    }
    lemma_not_cleared(g, r, c, cur, opp, d, r + k * dr, c + k * dc);
}

impl SearchBoard {
    /// Check whether `player` on `(r, c)` captures in direction `(dr, dc)`.
    pub fn can_capture_at(&self, r: usize, c: usize, dr: i32, dc: i32, player: Cell) -> (b: bool)
        requires
            r < 19,
            c < 19,
            -1 <= dr <= 1,
            -1 <= dc <= 1,
        ensures
            b == (on_board(r + 3 * dr, c + 3 * dc) && self.grid()(r + dr, c + dc) == player.other()
                && self.grid()(r + 2 * dr, c + 2 * dc) == player.other() && self.grid()(
                r + 3 * dr,
                c + 3 * dc,
            ) == player),
    {
        let opp = player.opponent();
        let ri = r as i32;
        let ci = c as i32;
        let r1 = ri + dr;
        let c1 = ci + dc;
        let r2 = ri + 2 * dr;
        let c2 = ci + 2 * dc;
        let r3 = ri + 3 * dr;
        let c3 = ci + 3 * dc;
        if !Self::in_bounds(r3, c3) {
            return false;
        }
        self.get(r1, c1) == opp && self.get(r2, c2) == opp && self.get(r3, c3) == player
    }

    /// Play `(r, c)` for the side to move, capture every bracketed pair,
    /// switch sides, and update the formation counts.
    pub fn make_move(&mut self, r: usize, c: usize) -> (info: UndoInfo)
        requires
            r < 19,
            c < 19,
            old(self).current != Cell::Empty,
            old(self).opponent != Cell::Empty,
            old(self).captures[old(self).current.slot()] <= i32::MAX - 8,
            old(self).total_stones == stone_count(old(self).grid()),
            old(self).move_count < usize::MAX,
            old(self).counts_bounded(),
            captures_before(old(self).grid(), r as int, c as int, old(self).current, old(self).opponent, 8) <= 4,
        ensures
            make_move_post(*old(self), r as int, c as int, *final(self), info),
            old(self).grid()(r as int, c as int) == Cell::Empty ==> final(self).total_stones == stone_count(
                final(self).grid(),
            ),
            info.num_captured <= 8,
            forall|i: int|
                0 <= i < info.num_captured ==> #[trigger] info.captured_stones@[i].0 < 19
                    && info.captured_stones@[i].1 < 19,
    {
        let z = zobrist();
        let ghost g = self.grid();
        let ghost cur = self.current;
        let ghost opp = self.opponent;
        let old_hash = self.hash;
        let old_captures = self.captures[self.current.index()];
        let old_move_count = self.move_count;
        let old_last_move = self.last_move;
        let old_total_stones = self.total_stones;

        let (before_b, before_w) = self.sb_local_patterns(r as i32, c as i32);

        // Place stone
        let zi = self.current.zobrist_idx();
        self.cells[r][c] = self.current;
        self.hash = self.hash ^ z.board[r * 19 + c][zi];
        proof {
            crate::search_board::moves::lemma_stone_count_update(g, self.grid(), r as int, c as int);
            lemma_stone_count_nonneg(self.grid(), 18, 19);
        }
        self.total_stones += 1;
        self.move_count += 1;
        self.last_move = Some((r, c));
        let ghost occupied: int = if g(r as int, c as int) != Cell::Empty { 1 } else { 0 };

        let mut captured_stones = [(0usize, 0usize); 8];
        let mut num_captured: usize = 0;
        let ri = r as i32;
        let ci = c as i32;
        let opp_zi = self.opponent.zobrist_idx();
        let mut d: usize = 0;
        assert(self.grid() =~= after_grid(g, r as int, c as int, cur, opp, 0));
        proof {
            lemma_captures_mono(g, r as int, c as int, cur, opp, 0, 8);
        }
        while d < 8
            invariant
                0 <= d <= 8,
                r < 19,
                c < 19,
                ri == r,
                ci == c,
                cur == self.current,
                opp == self.opponent,
                cur != Cell::Empty,
                opp != Cell::Empty,
                opp_zi as int == opp.slot() - 1,
                z.canonical(),
                self.grid() == after_grid(g, r as int, c as int, cur, opp, d as int),
                num_captured == 2 * captures_before(g, r as int, c as int, cur, opp, d as int),
                forall|i: int|
                    0 <= i < num_captured ==> #[trigger] captured_stones@[i].0 < 19 && captured_stones@[i].1 < 19,
                0 <= captures_before(g, r as int, c as int, cur, opp, d as int) <= d,
                captures_before(g, r as int, c as int, cur, opp, d as int) <= captures_before(g, r as int, c as int, cur, opp, 8),
                captures_before(g, r as int, c as int, cur, opp, 8) <= 4,
                captured_stones@.subrange(0, num_captured as int) == captured_seq(
                    g,
                    r as int,
                    c as int,
                    cur,
                    opp,
                    d as int,
                ),
                self.captures@ == old(self).captures@.update(
                    cur.slot(),
                    (old_captures + captures_before(g, r as int, c as int, cur, opp, d as int)) as i32,
                ),
                old_captures == old(self).captures[cur.slot()],
                old_captures <= i32::MAX - 8,
                self.hash == hash_caps(
                    old_hash ^ seed_key(19 * r + c, cur.slot() - 1),
                    g,
                    r as int,
                    c as int,
                    cur,
                    opp,
                    d as int,
                ),
                self.total_stones == old_total_stones + 1 - num_captured,
                self.total_stones == stone_count(self.grid()) + occupied,
                0 <= occupied <= 1,
                stone_count(self.grid()) >= 0,
                self.move_count == old_move_count + 1,
                self.last_move == Some((r, c)),
                self.black_patterns == old(self).black_patterns,
                self.white_patterns == old(self).white_patterns,
            decreases 8 - d,
        {
            let (dr, dc) = all_dir_at(d);
            let r1 = ri + dr;
            let c1 = ci + dc;
            let r2 = ri + 2 * dr;
            let c2 = ci + 2 * dc;
            let r3 = ri + 3 * dr;
            let c3 = ci + 3 * dc;
            let ghost gd = self.grid();
            proof {
                lemma_captures_mono(g, r as int, c as int, cur, opp, d as int + 1, 8);
                // The ray of direction `d` is untouched by earlier captures.
                lemma_ray_untouched(g, r as int, c as int, cur, opp, d as int, 1);
                lemma_ray_untouched(g, r as int, c as int, cur, opp, d as int, 2);
                lemma_ray_untouched(g, r as int, c as int, cur, opp, d as int, 3);
            }
            if Self::in_bounds(r3, c3) && self.get(r1, c1) == self.opponent && self.get(r2, c2)
                == self.opponent && self.get(r3, c3) == self.current {
                assert(capture_in(g, r as int, c as int, d as int, cur, opp));
                let ur1 = r1 as usize;
                let uc1 = c1 as usize;
                let ur2 = r2 as usize;
                let uc2 = c2 as usize;
                let ghost g_a = self.grid();
                assert(g_a(ur1 as int, uc1 as int) == opp);
                assert(g_a(ur2 as int, uc2 as int) == opp);
                assert(!(ur1 == ur2 && uc1 == uc2));
                self.cells[ur1][uc1] = Cell::Empty;
                let ghost g_b = self.grid();
                self.cells[ur2][uc2] = Cell::Empty;
                let ghost g_c = self.grid();
                proof {
                    lemma_stone_count_update(g_a, g_b, ur1 as int, uc1 as int);
                    assert(g_b(ur2 as int, uc2 as int) == opp);
                    lemma_stone_count_update(g_b, g_c, ur2 as int, uc2 as int);
                    lemma_stone_count_nonneg(g_c, 18, 19);
                    assert(stone_count(g_a) >= 2);
                    assert(g_a == gd);
                }
                self.hash = self.hash ^ z.board[ur1 * 19 + uc1][opp_zi];
                self.hash = self.hash ^ z.board[ur2 * 19 + uc2][opp_zi];
                let ghost cap_before = captured_stones@;
                let ghost n_before = num_captured as int;
                captured_stones[num_captured] = (ur1, uc1);
                captured_stones[num_captured + 1] = (ur2, uc2);
                num_captured += 2;
                assert forall|i: int|
                    0 <= i < num_captured implies #[trigger] captured_stones@[i].0 < 19 && captured_stones@[i].1 < 19 by {
                    if i < n_before {
                        assert(captured_stones@[i] == cap_before[i]);
                    }
                }
                let ci_cur = self.current.index();
                self.captures[ci_cur] = self.captures[ci_cur] + 1;
                self.total_stones -= 2;
                proof {
                    assert forall|x: int, y: int| #[trigger] self.grid()(x, y) == after_grid(g, r as int, c as int, cur, opp, d + 1)(x, y) by {
                        if x == ur1 && y == uc1 {
                            assert(cleared(g, r as int, c as int, cur, opp, d + 1, x, y));
                        } else if x == ur2 && y == uc2 {
                            assert(cleared(g, r as int, c as int, cur, opp, d + 1, x, y));
                        } else {
                            assert(self.grid()(x, y) == gd(x, y));
                        }
                    }
                    assert(self.grid() =~= after_grid(g, r as int, c as int, cur, opp, d + 1));
                    assert(captured_stones@.subrange(0, num_captured as int) =~= captured_seq(
                        g,
                        r as int,
                        c as int,
                        cur,
                        opp,
                        d + 1,
                    ));
                    assert(self.captures@ =~= old(self).captures@.update(
                        cur.slot(),
                        (old_captures + captures_before(g, r as int, c as int, cur, opp, d + 1)) as i32,
                    ));
                }
            } else {
                assert(!capture_in(g, r as int, c as int, d as int, cur, opp));
                assert(self.grid() =~= after_grid(g, r as int, c as int, cur, opp, d + 1));
            }
            d += 1;
        }
        let ghost stones_taken = captured_stones@;
        assert(forall|i: int| 0 <= i < num_captured ==> #[trigger] stones_taken[i].0 < 19 && stones_taken[i].1 < 19);
        assert(self.total_stones == stone_count(self.grid()) + occupied);

        // Switch player
        self.hash = self.hash ^ z.player;
        let tmp = self.current;
        self.current = self.opponent;
        self.opponent = tmp;

        let ghost g2 = self.grid();
        proof {
            crate::search_board::recognize::lemma_local_counts_within(g, true, r as int, c as int);
            crate::search_board::recognize::lemma_local_counts_within(g, false, r as int, c as int);
            crate::search_board::recognize::lemma_local_counts_within(g2, true, r as int, c as int);
            crate::search_board::recognize::lemma_local_counts_within(g2, false, r as int, c as int);
            crate::search_board::recognize::lemma_full_counts_within(g2, true);
            crate::search_board::recognize::lemma_full_counts_within(g2, false);
            lemma_within_bounded(local_counts(g, true, r as int, c as int), 68);
            lemma_within_bounded(local_counts(g, false, r as int, c as int), 68);
            lemma_within_bounded(local_counts(g2, true, r as int, c as int), 68);
            lemma_within_bounded(local_counts(g2, false, r as int, c as int), 68);
            lemma_within_bounded(full_counts(g2, true), 1444);
            lemma_within_bounded(full_counts(g2, false), 1444);
        }
        let (delta_black, delta_white) = if num_captured == 0 {
            let (after_b, after_w) = self.sb_local_patterns(r as i32, c as i32);
            proof {
                lemma_minus_shift(after_b, before_b);
                lemma_minus_shift(after_w, before_w);
                crate::search_board::recognize::lemma_local_counts_within(g2, true, r as int, c as int);
                crate::search_board::recognize::lemma_local_counts_within(g, true, r as int, c as int);
                assert forall|k: PatternKind| 0 <= #[trigger] after_b.count(k) <= 68 && 0 <= before_b.count(k) <= 68 by {
                    assert(after_b.within(68));
                    assert(before_b.within(68));
                }
                assert forall|k: PatternKind| 0 <= #[trigger] after_w.count(k) <= 68 && 0 <= before_w.count(k) <= 68 by {
                    assert(after_w.within(68));
                    assert(before_w.within(68));
                }
            }
            (after_b.diff(&before_b), after_w.diff(&before_w))
        } else {
            let (new_black, new_white) = self.sb_scan_patterns();
            proof {
                lemma_minus_shift(new_black, self.black_patterns);
                lemma_minus_shift(new_white, self.white_patterns);
                assert forall|k: PatternKind| 0 <= #[trigger] new_black.count(k) <= 1444 && 0 <= new_white.count(k) <= 1444 by {
                    assert(new_black.within(1444));
                    assert(new_white.within(1444));
                }
            }
            (new_black.diff(&self.black_patterns), new_white.diff(&self.white_patterns))
        };
        proof {
            assert forall|k: PatternKind| -COUNT_LIMIT <= #[trigger] self.black_patterns.count(k) <= COUNT_LIMIT
                && -COUNT_LIMIT <= self.white_patterns.count(k) <= COUNT_LIMIT by {
                assert(self.black_patterns.bounded());
                assert(self.white_patterns.bounded());
            }
        }
        self.black_patterns.apply_delta(&delta_black, 1);
        self.white_patterns.apply_delta(&delta_white, 1);

        assert(captured_stones@ == stones_taken);
        UndoInfo {
            placed: (r, c),
            placed_player: tmp,
            captured_stones,
            num_captured,
            old_captures_current: old_captures,
            old_hash,
            old_move_count,
            old_last_move,
            old_total_stones,
            delta_black,
            delta_white,
        }
    }
}

impl SearchBoard {
    /// Take back the move recorded in `info`.
    pub fn undo_move(&mut self, info: &UndoInfo)
        requires
            info.placed.0 < 19,
            info.placed.1 < 19,
            info.num_captured <= 8,
            forall|i: int|
                0 <= i < info.num_captured ==> #[trigger] info.captured_stones@[i].0 < 19
                    && info.captured_stones@[i].1 < 19,
            forall|k: PatternKind|
                -2 * COUNT_LIMIT <= #[trigger] old(self).black_patterns.count(k) + info.delta_black.count(k) * -1
                    <= 2 * COUNT_LIMIT,
            forall|k: PatternKind|
                -2 * COUNT_LIMIT <= #[trigger] old(self).white_patterns.count(k) + info.delta_white.count(k) * -1
                    <= 2 * COUNT_LIMIT,
            forall|k: PatternKind| -COUNT_LIMIT - 1444 <= #[trigger] info.delta_black.count(k) <= COUNT_LIMIT + 1444,
            forall|k: PatternKind| -COUNT_LIMIT - 1444 <= #[trigger] info.delta_white.count(k) <= COUNT_LIMIT + 1444,
        ensures
            undo_post(*old(self), *info, *final(self)),
    {
        let ghost g = self.grid();
        let ghost col = self.current;
        // Swap players back
        let tmp = self.current;
        self.current = self.opponent;
        self.opponent = tmp;

        self.black_patterns.apply_delta(&info.delta_black, -1);
        self.white_patterns.apply_delta(&info.delta_white, -1);

        // Remove placed stone
        let (r, c) = info.placed;
        self.cells[r][c] = Cell::Empty;

        // Restore captured stones
        let mut i: usize = 0;
        while i < info.num_captured
            invariant
                0 <= i <= info.num_captured,
                info.num_captured <= 8,
                forall|j: int|
                    0 <= j < info.num_captured ==> #[trigger] info.captured_stones@[j].0 < 19
                        && info.captured_stones@[j].1 < 19,
                self.opponent == col,
                self.current == old(self).opponent,
                self.black_patterns == old(self).black_patterns.shifted(info.delta_black, -1),
                self.white_patterns == old(self).white_patterns.shifted(info.delta_white, -1),
                self.captures == old(self).captures,
                (r, c) == info.placed,
                forall|x: int, y: int|
                    #[trigger] self.grid()(x, y) == if was_captured(info.captured_stones@, i as int, x, y)
                        && on_board(x, y) {
                        col
                    } else if x == r && y == c {
                        Cell::Empty
                    } else {
                        g(x, y)
                    },
            decreases info.num_captured - i,
        {
            let (cr, cc) = info.captured_stones[i];
            let ghost gi = self.grid();
            self.cells[cr][cc] = self.opponent;
            proof {
                assert forall|x: int, y: int| #[trigger] self.grid()(x, y) == if was_captured(info.captured_stones@, i + 1, x, y)
                    && on_board(x, y) {
                    col
                } else if x == r && y == c {
                    Cell::Empty
                } else {
                    g(x, y)
                } by {
                    if !(x == cr && y == cc) {
                        assert(self.grid()(x, y) == gi(x, y));
                    }
                }
            }
            i += 1;
        }
        assert(self.grid() =~= undo_grid(g, *info, col));

        // Restore scalars
        let ci = self.current.index();
        self.captures[ci] = info.old_captures_current;
        self.hash = info.old_hash;
        self.move_count = info.old_move_count;
        self.last_move = info.old_last_move;
        self.total_stones = info.old_total_stones;
        assert(self.current == old(self).opponent);
        assert(self.opponent == old(self).current);
        assert(self.black_patterns == old(self).black_patterns.shifted(info.delta_black, -1));
        assert(self.grid() == undo_grid(old(self).grid(), *info, old(self).current));
        assert(self.captures@ == old(self).captures@.update(old(self).opponent.slot(), info.old_captures_current));
    }

    /// Lift the stone at `(r, c)` outside of a capture and recount the
    /// formations from scratch.
    pub fn remove_stone_raw(&mut self, r: usize, c: usize)
        requires
            r < 19,
            c < 19,
            old(self).cells[r as int][c as int] != Cell::Empty,
            old(self).total_stones >= 1,
        ensures
            final(self).grid() == (|x: int, y: int|
                if x == r && y == c {
                    Cell::Empty
                } else {
                    old(self).grid()(x, y)
                }),
            final(self).hash == old(self).hash ^ seed_key(
                19 * r + c,
                old(self).cells[r as int][c as int].slot() - 1,
            ),
            final(self).total_stones == old(self).total_stones - 1,
            final(self).black_patterns == full_counts(final(self).grid(), true),
            final(self).white_patterns == full_counts(final(self).grid(), false),
            final(self).current == old(self).current,
            final(self).opponent == old(self).opponent,
            final(self).captures == old(self).captures,
            final(self).move_count == old(self).move_count,
            final(self).last_move == old(self).last_move,
    {
        let stone = self.cells[r][c];
        let z = zobrist();
        self.hash = self.hash ^ z.board[r * 19 + c][stone.zobrist_idx()];
        self.cells[r][c] = Cell::Empty;
        self.total_stones -= 1;
        let (black, white) = self.sb_scan_patterns();
        self.black_patterns = black;
        self.white_patterns = white;
        assert(self.grid() =~= (|x: int, y: int|
            if x == r && y == c {
                Cell::Empty
            } else {
                old(self).grid()(x, y)
            }));
    }
}

/// `was_captured` reads only the first `n` entries.
pub proof fn lemma_was_captured_prefix(s: Seq<(usize, usize)>, t: Seq<(usize, usize)>, n: int, x: int, y: int)
    requires
        0 <= n <= s.len(),
        0 <= n <= t.len(),
        s.subrange(0, n) == t.subrange(0, n),
    ensures
        was_captured(s, n, x, y) == was_captured(t, n, x, y),
    decreases n,
{
    if n > 0 {
        assert(s[n - 1] == s.subrange(0, n)[n - 1]);
        assert(t[n - 1] == t.subrange(0, n)[n - 1]);
        assert(s.subrange(0, n - 1) =~= s.subrange(0, n).subrange(0, n - 1));
        assert(t.subrange(0, n - 1) =~= t.subrange(0, n).subrange(0, n - 1));
        lemma_was_captured_prefix(s, t, n - 1, x, y);
    }
}

/// On the board, the recorded captured stones are exactly the cleared cells.
pub proof fn lemma_captured_seq_cleared(g: Grid, r: int, c: int, cur: Cell, opp: Cell, n: int, x: int, y: int)
    requires
        on_board(r, c),
        on_board(x, y),
        0 <= n <= 8,
    ensures
        captured_seq(g, r, c, cur, opp, n).len() == 2 * captures_before(g, r, c, cur, opp, n),
        was_captured(captured_seq(g, r, c, cur, opp, n), 2 * captures_before(g, r, c, cur, opp, n), x, y)
            == cleared(g, r, c, cur, opp, n, x, y),
    decreases n,
{
    if n > 0 {
        lemma_captured_seq_cleared(g, r, c, cur, opp, n - 1, x, y);
        let prev = captured_seq(g, r, c, cur, opp, n - 1);
        let m = 2 * captures_before(g, r, c, cur, opp, n - 1);
        if capture_in(g, r, c, n - 1, cur, opp) {
            let s = captured_seq(g, r, c, cur, opp, n);
            assert(s.subrange(0, m) =~= prev.subrange(0, m));
            assert(prev.subrange(0, m) =~= prev);
            lemma_was_captured_prefix(s, prev, m, x, y);
            assert(was_captured(s, m + 1, x, y) == (was_captured(s, m, x, y) || (s[m].0 == x && s[m].1 == y)));
            assert(was_captured(s, m + 2, x, y) == (was_captured(s, m + 1, x, y) || (s[m + 1].0 == x && s[m + 1].1 == y)));
        }
    }
}

/// Cells cleared by a capture are neither the played cell nor empty before.
pub proof fn lemma_cleared_cells(g: Grid, r: int, c: int, cur: Cell, opp: Cell, n: int, x: int, y: int)
    requires
        cleared(g, r, c, cur, opp, n, x, y),
        n <= 8,
    ensures
        g(x, y) == opp,
        !(x == r && y == c),
        on_board(x, y) || !on_board(r, c),
    decreases n,
{
    if n > 0 && cleared(g, r, c, cur, opp, n - 1, x, y) {
        lemma_cleared_cells(g, r, c, cur, opp, n - 1, x, y);
    }
}

/// Bounds of the count change a move records.
pub proof fn lemma_delta_bounds(g: Grid, g2: Grid, r: int, c: int, k: int, held: PatternCounts, is_black: bool)
    requires
        held.bounded(),
        local_counts(g, is_black, r, c).within(68),
        local_counts(g2, is_black, r, c).within(68),
        full_counts(g2, is_black).within(1444),
    ensures
        forall|kk: PatternKind|
            -COUNT_LIMIT - 1444 <= #[trigger] move_delta(g, g2, r, c, k, held, is_black).count(kk) <= COUNT_LIMIT
                + 1444,
        forall|kk: PatternKind|
            -COUNT_LIMIT - 1444 <= #[trigger] held.count(kk) + move_delta(g, g2, r, c, k, held, is_black).count(kk)
                <= COUNT_LIMIT + 1444,
{
    assert forall|kk: PatternKind|
        -COUNT_LIMIT - 1444 <= #[trigger] move_delta(g, g2, r, c, k, held, is_black).count(kk) <= COUNT_LIMIT + 1444
        && -COUNT_LIMIT - 1444 <= held.count(kk) + move_delta(g, g2, r, c, k, held, is_black).count(kk) <= COUNT_LIMIT + 1444 by {
        assert(-COUNT_LIMIT <= held.count(kk) <= COUNT_LIMIT);
        assert(0 <= local_counts(g, is_black, r, c).count(kk) <= 68);
        assert(0 <= local_counts(g2, is_black, r, c).count(kk) <= 68);
        assert(0 <= full_counts(g2, is_black).count(kk) <= 1444);
    }
}

/// A counter shifted by `d` and back again is unchanged.
pub proof fn lemma_shift_back(a: i32, d: i32)
    requires
        -COUNT_LIMIT <= a <= COUNT_LIMIT,
        -COUNT_LIMIT - 1444 <= d <= COUNT_LIMIT + 1444,
        -COUNT_LIMIT - 1444 <= a + d <= COUNT_LIMIT + 1444,
    ensures
        ((((a + d * 1) as i32) + d * -1) as i32) == a,
{
}

/// The Zobrist hash of a search board's position: the keys of its stones,
/// and the side key while White is to move.
pub open spec fn board_hash(b: SearchBoard) -> u64 {
    if b.current == Cell::Black {
        stones_hash(b.grid(), 361)
    } else {
        stones_hash(b.grid(), 361) ^ player_key()
    }
}

/// The empty board with Black to move hashes to zero.
pub proof fn lemma_empty_board_hash(b: SearchBoard)
    requires
        forall|r: int, c: int| on_board(r, c) ==> #[trigger] b.cells[r][c] == Cell::Empty,
        b.current == Cell::Black,
    ensures
        board_hash(b) == 0,
{
    lemma_stones_hash_empty(b.grid(), 361);
}

proof fn lemma_stones_hash_empty(g: Grid, n: int)
    requires
        0 <= n <= 361,
        forall|r: int, c: int| on_board(r, c) ==> #[trigger] g(r, c) == Cell::Empty,
    ensures
        stones_hash(g, n) == 0,
    decreases n,
{
    if n > 0 {
        lemma_stones_hash_empty(g, n - 1);
        let x = (n - 1) / 19;
        let y = (n - 1) % 19;
        assert(g(x, y) == Cell::Empty);
        lemma_xor_zero(0);
    }
}

/// Playing a move on an empty cell keeps the board's hash equal to the hash
/// of its position.
pub proof fn lemma_make_move_keeps_board_hash(before: SearchBoard, r: int, c: int, mid: SearchBoard, info: UndoInfo)
    requires
        on_board(r, c),
        before.grid()(r, c) == Cell::Empty,
        before.current == Cell::Black || before.current == Cell::White,
        before.opponent == before.current.other(),
        before.hash == board_hash(before),
        make_move_post(before, r, c, mid, info),
    ensures
        mid.hash == board_hash(mid),
{
    let g = before.grid();
    let cur = before.current;
    let opp = before.opponent;
    let key = seed_key(19 * r + c, cur.slot() - 1);
    lemma_after_stones(g, r, c, cur, opp, 8);
    lemma_hash_caps_xor(before.hash ^ key, g, r, c, cur, opp, 8);
    lemma_hash_caps_xor(stones_hash(g, 361) ^ key, g, r, c, cur, opp, 8);
    let s = stones_hash(g, 361);
    let e = hash_caps(0, g, r, c, cur, opp, 8);
    let t = player_key();
    if cur == Cell::White {
        assert(((((s ^ t) ^ key) ^ e) ^ t) == ((s ^ key) ^ e)) by (bit_vector);
    }
}

/// What `undo_move` needs of the board it takes a move back on and of the
/// move's record.
pub open spec fn undo_ready(b: SearchBoard, info: UndoInfo) -> bool {
    &&& info.placed.0 < 19
    &&& info.placed.1 < 19
    &&& info.num_captured <= 8
    &&& forall|i: int|
        0 <= i < info.num_captured ==> #[trigger] info.captured_stones@[i].0 < 19 && info.captured_stones@[i].1 < 19
    &&& forall|k: PatternKind|
        -2 * COUNT_LIMIT <= #[trigger] b.black_patterns.count(k) + info.delta_black.count(k) * -1 <= 2 * COUNT_LIMIT
    &&& forall|k: PatternKind|
        -2 * COUNT_LIMIT <= #[trigger] b.white_patterns.count(k) + info.delta_white.count(k) * -1 <= 2 * COUNT_LIMIT
    &&& forall|k: PatternKind| -COUNT_LIMIT - 1444 <= #[trigger] info.delta_black.count(k) <= COUNT_LIMIT + 1444
    &&& forall|k: PatternKind| -COUNT_LIMIT - 1444 <= #[trigger] info.delta_white.count(k) <= COUNT_LIMIT + 1444
}

/// A counter shifted up by a change that fits is the sum.
proof fn lemma_shift_count(held: PatternCounts, d: PatternCounts, kk: PatternKind)
    requires
        i32::MIN <= held.count(kk) + d.count(kk) <= i32::MAX,
    ensures
        held.shifted(d, 1).count(kk) == held.count(kk) + d.count(kk),
{
}

/// The board and record that `make_move` leaves on a board with bounded
/// counts can be handed to `undo_move`.
pub proof fn lemma_make_move_undo_ready(before: SearchBoard, r: int, c: int, mid: SearchBoard, info: UndoInfo)
    requires
        on_board(r, c),
        before.counts_bounded(),
        make_move_post(before, r, c, mid, info),
        info.num_captured <= 8,
        forall|i: int|
            0 <= i < info.num_captured ==> #[trigger] info.captured_stones@[i].0 < 19 && info.captured_stones@[i].1
                < 19,
    ensures
        undo_ready(mid, info),
{
    let g = before.grid();
    let g2 = mid.grid();
    let k = captures_before(g, r, c, before.current, before.opponent, 8);
    lemma_local_counts_within(g, true, r, c);
    lemma_local_counts_within(g2, true, r, c);
    lemma_full_counts_within(g2, true);
    lemma_local_counts_within(g, false, r, c);
    lemma_local_counts_within(g2, false, r, c);
    lemma_full_counts_within(g2, false);
    lemma_delta_bounds(g, g2, r, c, k, before.black_patterns, true);
    lemma_delta_bounds(g, g2, r, c, k, before.white_patterns, false);
    assert forall|kk: PatternKind|
        -2 * COUNT_LIMIT <= #[trigger] mid.black_patterns.count(kk) + info.delta_black.count(kk) * -1
            <= 2 * COUNT_LIMIT by {
        lemma_shift_count(before.black_patterns, info.delta_black, kk);
    }
    assert forall|kk: PatternKind|
        -2 * COUNT_LIMIT <= #[trigger] mid.white_patterns.count(kk) + info.delta_white.count(kk) * -1
            <= 2 * COUNT_LIMIT by {
        lemma_shift_count(before.white_patterns, info.delta_white, kk);
    }
}

/// Taking a move back restores the board it was played on: cells, side to
/// move, capture counters, hash, move counter, last move, stone total and
/// the formation counts of both colours.
pub proof fn lemma_undo_restores_make(
    before: SearchBoard,
    r: int,
    c: int,
    mid: SearchBoard,
    info: UndoInfo,
    after: SearchBoard,
)
    requires
        on_board(r, c),
        before.cell(r, c) == Cell::Empty,
        before.counts_bounded(),
        captures_before(before.grid(), r, c, before.current, before.opponent, 8) <= 4,
        make_move_post(before, r, c, mid, info),
        undo_post(mid, info, after),
    ensures
        after.grid() == before.grid(),
        after.current == before.current,
        after.opponent == before.opponent,
        after.captures == before.captures,
        after.hash == before.hash,
        after.move_count == before.move_count,
        after.last_move == before.last_move,
        after.total_stones == before.total_stones,
        after.black_patterns == before.black_patterns,
        after.white_patterns == before.white_patterns,
        after == before,
{
    let g = before.grid();
    let cur = before.current;
    let opp = before.opponent;
    let k = captures_before(g, r, c, cur, opp, 8);
    let caps = captured_seq(g, r, c, cur, opp, 8);
    assert forall|x: int, y: int| #[trigger] after.grid()(x, y) == g(x, y) by {
        if on_board(x, y) {
            lemma_captured_seq_cleared(g, r, c, cur, opp, 8, x, y);
            assert(info.captured_stones@.subrange(0, 2 * k) == caps);
            assert(caps.subrange(0, 2 * k) =~= caps);
            lemma_was_captured_prefix(info.captured_stones@, caps, 2 * k, x, y);
            if cleared(g, r, c, cur, opp, 8, x, y) {
                lemma_cleared_cells(g, r, c, cur, opp, 8, x, y);
            }
        }
    }
    assert(after.grid() =~= g);
    assert(after.captures@ =~= before.captures@);
    assert(after.captures =~= before.captures);
    let g2 = after_grid(g, r, c, cur, opp, 8);
    crate::search_board::recognize::lemma_local_counts_within(g, true, r, c);
    crate::search_board::recognize::lemma_local_counts_within(g, false, r, c);
    crate::search_board::recognize::lemma_local_counts_within(g2, true, r, c);
    crate::search_board::recognize::lemma_local_counts_within(g2, false, r, c);
    crate::search_board::recognize::lemma_full_counts_within(g2, true);
    crate::search_board::recognize::lemma_full_counts_within(g2, false);
    lemma_delta_bounds(g, g2, r, c, k, before.black_patterns, true);
    lemma_delta_bounds(g, g2, r, c, k, before.white_patterns, false);
    assert forall|kk: PatternKind| #[trigger] after.black_patterns.count(kk) == before.black_patterns.count(kk) by {
        lemma_shift_back(before.black_patterns.count(kk), info.delta_black.count(kk));
    }
    assert forall|kk: PatternKind| #[trigger] after.white_patterns.count(kk) == before.white_patterns.count(kk) by {
        lemma_shift_back(before.white_patterns.count(kk), info.delta_white.count(kk));
    }
    assert(after.black_patterns.count(PatternKind::FiveRow) == before.black_patterns.count(PatternKind::FiveRow));
    assert(after.black_patterns.count(PatternKind::OpenFour) == before.black_patterns.count(PatternKind::OpenFour));
    assert(after.black_patterns.count(PatternKind::BlockFour) == before.black_patterns.count(PatternKind::BlockFour));
    assert(after.black_patterns.count(PatternKind::OpenThree) == before.black_patterns.count(PatternKind::OpenThree));
    assert(after.black_patterns.count(PatternKind::OpenTwo) == before.black_patterns.count(PatternKind::OpenTwo));
    assert(after.black_patterns.count(PatternKind::FreeThree) == before.black_patterns.count(PatternKind::FreeThree));
    assert(after.white_patterns.count(PatternKind::FiveRow) == before.white_patterns.count(PatternKind::FiveRow));
    assert(after.white_patterns.count(PatternKind::OpenFour) == before.white_patterns.count(PatternKind::OpenFour));
    assert(after.white_patterns.count(PatternKind::BlockFour) == before.white_patterns.count(PatternKind::BlockFour));
    assert(after.white_patterns.count(PatternKind::OpenThree) == before.white_patterns.count(PatternKind::OpenThree));
    assert(after.white_patterns.count(PatternKind::OpenTwo) == before.white_patterns.count(PatternKind::OpenTwo));
    assert(after.white_patterns.count(PatternKind::FreeThree) == before.white_patterns.count(PatternKind::FreeThree));
    assert forall|x: int| 0 <= x < 19 implies #[trigger] after.cells[x] =~= before.cells[x] by {
        assert forall|y: int| 0 <= y < 19 implies after.cells[x][y] == before.cells[x][y] by {
            assert(after.grid()(x, y) == g(x, y));
        }
    }
    assert(after.cells =~= before.cells);
}

impl PatternCounts {
    /// Field-wise difference.
    pub fn diff(&self, other: &PatternCounts) -> (r: PatternCounts)
        requires
            self.bounded(),
            other.bounded(),
        ensures
            r == self.minus(*other),
    {
        proof {
            assert(-COUNT_LIMIT <= self.count(PatternKind::FiveRow) <= COUNT_LIMIT);
            assert(-COUNT_LIMIT <= self.count(PatternKind::OpenFour) <= COUNT_LIMIT);
            assert(-COUNT_LIMIT <= self.count(PatternKind::BlockFour) <= COUNT_LIMIT);
            assert(-COUNT_LIMIT <= self.count(PatternKind::OpenThree) <= COUNT_LIMIT);
            assert(-COUNT_LIMIT <= self.count(PatternKind::OpenTwo) <= COUNT_LIMIT);
            assert(-COUNT_LIMIT <= self.count(PatternKind::FreeThree) <= COUNT_LIMIT);
            assert(-COUNT_LIMIT <= other.count(PatternKind::FiveRow) <= COUNT_LIMIT);
            assert(-COUNT_LIMIT <= other.count(PatternKind::OpenFour) <= COUNT_LIMIT);
            assert(-COUNT_LIMIT <= other.count(PatternKind::BlockFour) <= COUNT_LIMIT);
            assert(-COUNT_LIMIT <= other.count(PatternKind::OpenThree) <= COUNT_LIMIT);
            assert(-COUNT_LIMIT <= other.count(PatternKind::OpenTwo) <= COUNT_LIMIT);
            assert(-COUNT_LIMIT <= other.count(PatternKind::FreeThree) <= COUNT_LIMIT);
        }
        PatternCounts {
            five_rows: self.five_rows - other.five_rows,
            open_fours: self.open_fours - other.open_fours,
            block_fours: self.block_fours - other.block_fours,
            open_threes: self.open_threes - other.open_threes,
            open_twos: self.open_twos - other.open_twos,
            free_threes: self.free_threes - other.free_threes,
        }
    }

    /// Add `delta` scaled by `sign` (1 to apply a move, -1 to undo it).
    pub fn apply_delta(&mut self, delta: &PatternCounts, sign: i32)
        requires
            sign == 1 || sign == -1,
            forall|k: PatternKind|
                -2 * COUNT_LIMIT <= #[trigger] old(self).count(k) + delta.count(k) * sign <= 2 * COUNT_LIMIT,
            forall|k: PatternKind| -COUNT_LIMIT - 1444 <= #[trigger] delta.count(k) <= COUNT_LIMIT + 1444,
        ensures
            *final(self) == old(self).shifted(*delta, sign as int),
    {
        proof {
            lemma_scaled_field(old(self).count(PatternKind::FiveRow), delta.count(PatternKind::FiveRow), sign);
            lemma_scaled_field(old(self).count(PatternKind::OpenFour), delta.count(PatternKind::OpenFour), sign);
            lemma_scaled_field(old(self).count(PatternKind::BlockFour), delta.count(PatternKind::BlockFour), sign);
            lemma_scaled_field(old(self).count(PatternKind::OpenThree), delta.count(PatternKind::OpenThree), sign);
            lemma_scaled_field(old(self).count(PatternKind::OpenTwo), delta.count(PatternKind::OpenTwo), sign);
            lemma_scaled_field(old(self).count(PatternKind::FreeThree), delta.count(PatternKind::FreeThree), sign);
        }
        self.five_rows = self.five_rows + delta.five_rows * sign;
        self.open_fours = self.open_fours + delta.open_fours * sign;
        self.block_fours = self.block_fours + delta.block_fours * sign;
        self.open_threes = self.open_threes + delta.open_threes * sign;
        self.open_twos = self.open_twos + delta.open_twos * sign;
        self.free_threes = self.free_threes + delta.free_threes * sign;
    }
}

proof fn lemma_scaled_field(a: i32, b: i32, sign: i32)
    requires
        sign == 1 || sign == -1,
        -2 * COUNT_LIMIT <= a + b * sign <= 2 * COUNT_LIMIT,
        -COUNT_LIMIT - 1444 <= b <= COUNT_LIMIT + 1444,
    ensures
        i32::MIN <= b * sign <= i32::MAX,
        i32::MIN <= a + b * sign <= i32::MAX,
{
    assert(b * sign == if sign == 1 { b as int } else { -b }) by (nonlinear_arith)
        requires
            sign == 1 || sign == -1,
    ;
}

} // verus!
