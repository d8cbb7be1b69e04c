//! The formation counts of the whole board change, under a one-cell change,
//! exactly as the counts of the neighbourhood that `make_move` rescans.
use vstd::prelude::*;
use crate::search_board::{on_board, Cell, Grid, PatternCounts, PatternKind, SearchBoard, UndoInfo};
use crate::search_board::moves::{after_grid, capture_in, captures_before, cleared, make_move_post, move_delta};
use crate::search_board::recognize::{lemma_full_counts_within, lemma_local_counts_within};
use crate::search_board::recognize::{
    board_tally, formation_at, full_counts, hit, lemma_board_tally_within, lemma_bump_within,
    lemma_local_tally_within, local_counts, local_tally, scan_dir, tally,
};
use crate::search_board::rules::has_five;
use crate::search_board::locality::{in_window, lemma_formation_far, line_point};

verus! {

/// Row-major sum of `f` over the cells before `(nr, nc)`.
pub open spec fn grid_sum(f: spec_fn(int, int) -> int, nr: int, nc: int) -> int
    decreases nr, nc,
{
    if nr <= 0 && nc <= 0 {
        0
    } else if nc <= 0 {
        grid_sum(f, nr - 1, 19)
    } else {
        grid_sum(f, nr, nc - 1) + f(nr, nc - 1)
    }
}

/// Two functions that differ on the board at most at `(px, py)` have sums
/// that differ by their values there, once that cell is included.
pub proof fn lemma_grid_sum_point(f: spec_fn(int, int) -> int, h: spec_fn(int, int) -> int, px: int, py: int, nr: int, nc: int)
    requires
        0 <= nr <= 18,
        0 <= nc <= 19,
        on_board(px, py),
        forall|x: int, y: int| on_board(x, y) && !(x == px && y == py) ==> #[trigger] f(x, y) == h(x, y),
    ensures
        grid_sum(f, nr, nc) - grid_sum(h, nr, nc) == if px < nr || (px == nr && py < nc) {
            f(px, py) - h(px, py)
        } else {
            0
        },
    decreases nr, nc,
{
    if nr <= 0 && nc <= 0 {
    } else if nc <= 0 {
        lemma_grid_sum_point(f, h, px, py, nr - 1, 19);
    } else {
        lemma_grid_sum_point(f, h, px, py, nr, nc - 1);
        if !(nr == px && nc - 1 == py) {
            assert(f(nr, nc - 1) == h(nr, nc - 1));
        }
    }
}

/// Functions that agree on the board have equal sums.
pub proof fn lemma_grid_sum_agree(f: spec_fn(int, int) -> int, h: spec_fn(int, int) -> int, nr: int, nc: int)
    requires
        0 <= nr <= 18,
        0 <= nc <= 19,
        forall|x: int, y: int| on_board(x, y) ==> #[trigger] f(x, y) == h(x, y),
    ensures
        grid_sum(f, nr, nc) == grid_sum(h, nr, nc),
    decreases nr, nc,
{
    if nr <= 0 && nc <= 0 {
    } else if nc <= 0 {
        lemma_grid_sum_agree(f, h, nr - 1, 19);
    } else {
        lemma_grid_sum_agree(f, h, nr, nc - 1);
        assert(f(nr, nc - 1) == h(nr, nc - 1));
    }
}

/// A function that vanishes on the board sums to zero.
pub proof fn lemma_grid_sum_zero(f: spec_fn(int, int) -> int, nr: int, nc: int)
    requires
        0 <= nr <= 18,
        0 <= nc <= 19,
        forall|x: int, y: int| on_board(x, y) ==> #[trigger] f(x, y) == 0,
    ensures
        grid_sum(f, nr, nc) == 0,
    decreases nr, nc,
{
    if nr <= 0 && nc <= 0 {
    } else if nc <= 0 {
        lemma_grid_sum_zero(f, nr - 1, 19);
    } else {
        lemma_grid_sum_zero(f, nr, nc - 1);
        assert(f(nr, nc - 1) == 0);
    }
}

/// The sum of a pointwise sum is the sum of the sums.
pub proof fn lemma_grid_sum_add(f: spec_fn(int, int) -> int, h: spec_fn(int, int) -> int, nr: int, nc: int)
    requires
        0 <= nr <= 18,
        0 <= nc <= 19,
    ensures
        grid_sum(|x: int, y: int| f(x, y) + h(x, y), nr, nc) == grid_sum(f, nr, nc) + grid_sum(h, nr, nc),
    decreases nr, nc,
{
    if nr <= 0 && nc <= 0 {
    } else if nc <= 0 {
        lemma_grid_sum_add(f, h, nr - 1, 19);
    } else {
        lemma_grid_sum_add(f, h, nr, nc - 1);
    }
}

/// The sum of a pointwise difference is the difference of the sums.
pub proof fn lemma_grid_sum_sub(f: spec_fn(int, int) -> int, h: spec_fn(int, int) -> int, nr: int, nc: int)
    requires
        0 <= nr <= 18,
        0 <= nc <= 19,
    ensures
        grid_sum(|x: int, y: int| f(x, y) - h(x, y), nr, nc) == grid_sum(f, nr, nc) - grid_sum(h, nr, nc),
    decreases nr, nc,
{
    if nr <= 0 && nc <= 0 {
    } else if nc <= 0 {
        lemma_grid_sum_sub(f, h, nr - 1, 19);
    } else {
        lemma_grid_sum_sub(f, h, nr, nc - 1);
    }
}

/// Sum of `f` over the cells `-8 .. m - 1` steps from `(pr, pc)` along
/// scan direction `e`.
pub open spec fn window_sum(f: spec_fn(int, int) -> int, pr: int, pc: int, e: int, m: int) -> int
    decreases m + 9,
{
    if m <= -8 {
        0
    } else {
        window_sum(f, pr, pc, e, m - 1) + f(line_point(pr, pc, e, m - 1).0, line_point(pr, pc, e, m - 1).1)
    }
}

/// `(x, y)` is one of the cells `-8 .. m - 1` steps along the window.
pub open spec fn covered(pr: int, pc: int, e: int, m: int, x: int, y: int) -> bool
    decreases m + 9,
{
    if m <= -8 {
        false
    } else {
        covered(pr, pc, e, m - 1, x, y) || line_point(pr, pc, e, m - 1) == (x, y)
    }
}

/// `f` with the cells `-8 .. m - 1` of the window set to zero.
pub open spec fn zeroed(f: spec_fn(int, int) -> int, pr: int, pc: int, e: int, m: int) -> spec_fn(int, int) -> int {
    |x: int, y: int|
        if covered(pr, pc, e, m, x, y) {
            0
        } else {
            f(x, y)
        }
}

proof fn lemma_covered_window(pr: int, pc: int, e: int, m: int, x: int, y: int)
    requires
        -8 <= m <= 9,
        0 <= e < 4,
    ensures
        covered(pr, pc, e, m, x, y) <==> exists|o: int| -8 <= o < m && #[trigger] line_point(pr, pc, e, o) == (x, y),
    decreases m + 9,
{
    if m > -8 {
        lemma_covered_window(pr, pc, e, m - 1, x, y);
        if covered(pr, pc, e, m, x, y) {
            if !covered(pr, pc, e, m - 1, x, y) {
                assert(line_point(pr, pc, e, m - 1) == (x, y));
            } else {
                let o = choose|o: int| -8 <= o < m - 1 && #[trigger] line_point(pr, pc, e, o) == (x, y);
                assert(line_point(pr, pc, e, o) == (x, y));
            }
        } else {
            assert forall|o: int| -8 <= o < m implies #[trigger] line_point(pr, pc, e, o) != (x, y) by {
                if o < m - 1 {
                    if line_point(pr, pc, e, o) == (x, y) {
                        assert(exists|o2: int| -8 <= o2 < m - 1 && #[trigger] line_point(pr, pc, e, o2) == (x, y));
                    }
                }
            }
        }
    }
}

/// Window cells at different steps are different cells.
proof fn lemma_line_points_distinct(pr: int, pc: int, e: int, o1: int, o2: int)
    requires
        0 <= e < 4,
        o1 != o2,
    ensures
        line_point(pr, pc, e, o1) != line_point(pr, pc, e, o2),
{
    if e == 0 || e == 2 || e == 3 {
        assert(scan_dir(e).0 == 1);
        assert(line_point(pr, pc, e, o1).0 == pr + o1);
        assert(line_point(pr, pc, e, o2).0 == pr + o2);
    } else {
        assert(scan_dir(e).1 == 1);
        assert(line_point(pr, pc, e, o1).1 == pc + o1);
        assert(line_point(pr, pc, e, o2).1 == pc + o2);
    }
}

/// A function that vanishes off the window (and off the board) sums over the
/// board to its sum over the window.
pub proof fn lemma_sparse_sum(f: spec_fn(int, int) -> int, pr: int, pc: int, e: int)
    requires
        0 <= e < 4,
        forall|x: int, y: int| !on_board(x, y) ==> #[trigger] f(x, y) == 0,
        forall|x: int, y: int| !in_window(pr, pc, e, x, y) ==> #[trigger] f(x, y) == 0,
    ensures
        grid_sum(f, 18, 19) == window_sum(f, pr, pc, e, 9),
{
    lemma_sparse_step(f, pr, pc, e, 9);
    assert forall|x: int, y: int| on_board(x, y) implies #[trigger] zeroed(f, pr, pc, e, 9)(x, y) == 0 by {
        lemma_covered_window(pr, pc, e, 9, x, y);
        if !covered(pr, pc, e, 9, x, y) {
            if in_window(pr, pc, e, x, y) {
                let o = choose|o: int| -8 <= o <= 8 && #[trigger] line_point(pr, pc, e, o) == (x, y);
                assert(line_point(pr, pc, e, o) == (x, y));
            }
            assert(f(x, y) == 0);
        }
    }
    lemma_grid_sum_zero(zeroed(f, pr, pc, e, 9), 18, 19);
}

/// Zeroing the window cells one by one moves their values into the window sum.
proof fn lemma_sparse_step(f: spec_fn(int, int) -> int, pr: int, pc: int, e: int, m: int)
    requires
        0 <= e < 4,
        -8 <= m <= 9,
        forall|x: int, y: int| !on_board(x, y) ==> #[trigger] f(x, y) == 0,
    ensures
        grid_sum(zeroed(f, pr, pc, e, m), 18, 19) + window_sum(f, pr, pc, e, m) == grid_sum(f, 18, 19),
    decreases m + 9,
{
    if m <= -8 {
        assert(zeroed(f, pr, pc, e, m) =~= f);
    } else {
        lemma_sparse_step(f, pr, pc, e, m - 1);
        let p = line_point(pr, pc, e, m - 1);
        let a = zeroed(f, pr, pc, e, m - 1);
        let b = zeroed(f, pr, pc, e, m);
        lemma_covered_window(pr, pc, e, m - 1, p.0, p.1);
        if covered(pr, pc, e, m - 1, p.0, p.1) {
            let o = choose|o: int| -8 <= o < m - 1 && #[trigger] line_point(pr, pc, e, o) == (p.0, p.1);
            lemma_line_points_distinct(pr, pc, e, o, m - 1);
        }
        assert forall|x: int, y: int| !(x == p.0 && y == p.1) implies #[trigger] a(x, y) == b(x, y) by {}
        if on_board(p.0, p.1) {
            lemma_grid_sum_point(a, b, p.0, p.1, 18, 19);
        } else {
            assert(f(p.0, p.1) == 0);
            lemma_grid_sum_agree(a, b, 18, 19);
        }
    }
}

/// Formations of `kind` for the colour anchored on `(x, y)` in scan
/// directions `< nd`.
pub open spec fn cell_hits(g: Grid, is_black: bool, kind: PatternKind, x: int, y: int, nd: int) -> int
    decreases nd,
{
    if nd <= 0 {
        0
    } else {
        cell_hits(g, is_black, kind, x, y, nd - 1) + hit(
            formation_at(g, x, y, scan_dir(nd - 1).0, scan_dir(nd - 1).1),
            is_black,
            kind,
        )
    }
}

pub open spec fn anchor_hits(g: Grid, is_black: bool, kind: PatternKind) -> spec_fn(int, int) -> int {
    |x: int, y: int| cell_hits(g, is_black, kind, x, y, 4)
}

/// Adding a formation to the counts adds its hit to each counter.
proof fn lemma_tally_count(acc: PatternCounts, f: Option<(Cell, PatternKind)>, is_black: bool, n: int, kind: PatternKind)
    requires
        acc.within(n),
        0 <= n < 1_000_000,
    ensures
        tally(acc, f, is_black).count(kind) == acc.count(kind) + hit(f, is_black, kind),
{
    match f {
        Some((col, k)) => {
            if (col == Cell::Black) == is_black {
                lemma_bump_within(acc, k, n);
            }
        },
        None => {},
    }
}

/// The board tally counts the anchor hits of the cells before `(r, c)` and
/// the first `nd` directions of `(r, c)`.
proof fn lemma_board_tally_sum(g: Grid, is_black: bool, kind: PatternKind, r: int, c: int, nd: int)
    requires
        0 <= r < 19,
        0 <= c < 19,
        0 <= nd <= 4,
    ensures
        board_tally(g, is_black, r, c, nd).count(kind) == grid_sum(anchor_hits(g, is_black, kind), r, c)
            + cell_hits(g, is_black, kind, r, c, nd),
    decreases r, c, nd,
{
    if r <= 0 && c <= 0 && nd <= 0 {
    } else if nd > 0 {
        lemma_board_tally_sum(g, is_black, kind, r, c, nd - 1);
        lemma_board_tally_within(g, is_black, r, c, nd - 1);
        let d = scan_dir(nd - 1);
        lemma_tally_count(
            board_tally(g, is_black, r, c, nd - 1),
            formation_at(g, r, c, d.0, d.1),
            is_black,
            76 * r + 4 * c + nd - 1,
            kind,
        );
    } else if c > 0 {
        lemma_board_tally_sum(g, is_black, kind, r, c - 1, 4);
        assert(grid_sum(anchor_hits(g, is_black, kind), r, c) == grid_sum(anchor_hits(g, is_black, kind), r, c - 1)
            + cell_hits(g, is_black, kind, r, c - 1, 4));
    } else {
        lemma_board_tally_sum(g, is_black, kind, r - 1, 18, 4);
        assert(grid_sum(anchor_hits(g, is_black, kind), r, 0) == grid_sum(anchor_hits(g, is_black, kind), r - 1, 19));
        assert(grid_sum(anchor_hits(g, is_black, kind), r - 1, 19) == grid_sum(anchor_hits(g, is_black, kind), r - 1, 18)
            + cell_hits(g, is_black, kind, r - 1, 18, 4));
    }
}

/// Formations of `kind` anchored on the cells `-8 .. k - 1` steps along scan
/// direction `e` from `(ar, ac)`.
pub open spec fn line_hits(g: Grid, is_black: bool, kind: PatternKind, ar: int, ac: int, e: int, k: int) -> int
    decreases k + 9,
{
    if k <= -8 {
        0
    } else {
        let dir = scan_dir(e);
        line_hits(g, is_black, kind, ar, ac, e, k - 1) + hit(
            formation_at(g, ar + dir.0 * (k - 1), ac + dir.1 * (k - 1), dir.0, dir.1),
            is_black,
            kind,
        )
    }
}

/// The full windows of the scan directions `< d`.
pub open spec fn dirs_hits(g: Grid, is_black: bool, kind: PatternKind, ar: int, ac: int, d: int) -> int
    decreases d,
{
    if d <= 0 {
        0
    } else {
        dirs_hits(g, is_black, kind, ar, ac, d - 1) + line_hits(g, is_black, kind, ar, ac, d - 1, 9)
    }
}

proof fn lemma_local_tally_sum(g: Grid, is_black: bool, kind: PatternKind, ar: int, ac: int, d: int, k: int)
    requires
        0 <= d < 4,
        -8 <= k <= 9,
    ensures
        local_tally(g, is_black, ar, ac, d, k).count(kind) == dirs_hits(g, is_black, kind, ar, ac, d) + line_hits(
            g,
            is_black,
            kind,
            ar,
            ac,
            d,
            k,
        ),
    decreases d, k + 9,
{
    if d <= 0 && k <= -8 {
    } else if k > -8 {
        lemma_local_tally_sum(g, is_black, kind, ar, ac, d, k - 1);
        lemma_local_tally_within(g, is_black, ar, ac, d, k - 1);
        let dir = scan_dir(d);
        let kk = k - 1;
        lemma_tally_count(
            local_tally(g, is_black, ar, ac, d, k - 1),
            formation_at(g, ar + dir.0 * kk, ac + dir.1 * kk, dir.0, dir.1),
            is_black,
            17 * d + k - 1 + 8,
            kind,
        );
    } else {
        lemma_local_tally_sum(g, is_black, kind, ar, ac, d - 1, 9);
    }
}

/// Change of the hits of `kind` anchored on `(x, y)` along scan direction `e`.
pub open spec fn hit_change(g: Grid, g2: Grid, is_black: bool, kind: PatternKind, e: int) -> spec_fn(int, int) -> int {
    |x: int, y: int|
        hit(formation_at(g2, x, y, scan_dir(e).0, scan_dir(e).1), is_black, kind) - hit(
            formation_at(g, x, y, scan_dir(e).0, scan_dir(e).1),
            is_black,
            kind,
        )
}

proof fn lemma_line_change(g: Grid, g2: Grid, is_black: bool, kind: PatternKind, pr: int, pc: int, e: int, k: int)
    requires
        -8 <= k <= 9,
    ensures
        line_hits(g2, is_black, kind, pr, pc, e, k) - line_hits(g, is_black, kind, pr, pc, e, k) == window_sum(
            hit_change(g, g2, is_black, kind, e),
            pr,
            pc,
            e,
            k,
        ),
    decreases k + 9,
{
    if k > -8 {
        lemma_line_change(g, g2, is_black, kind, pr, pc, e, k - 1);
    }
}

/// One colour's count of one kind changes over the whole board as over the
/// rescanned neighbourhood of the changed cell.
proof fn lemma_kind_change(g: Grid, g2: Grid, pr: int, pc: int, is_black: bool, kind: PatternKind)
    requires
        on_board(pr, pc),
        g(pr, pc) == Cell::Empty,
        forall|a: int, b: int| !(a == pr && b == pc) ==> #[trigger] g2(a, b) == g(a, b),
        !has_five(g, Cell::Black),
        !has_five(g, Cell::White),
    ensures
        full_counts(g2, is_black).count(kind) - full_counts(g, is_black).count(kind) == local_counts(
            g2,
            is_black,
            pr,
            pc,
        ).count(kind) - local_counts(g, is_black, pr, pc).count(kind),
{
    lemma_board_tally_sum(g, is_black, kind, 18, 18, 4);
    lemma_board_tally_sum(g2, is_black, kind, 18, 18, 4);
    lemma_local_tally_sum(g, is_black, kind, pr, pc, 3, 9);
    lemma_local_tally_sum(g2, is_black, kind, pr, pc, 3, 9);
    let f1 = anchor_hits(g, is_black, kind);
    let f2 = anchor_hits(g2, is_black, kind);
    let d0 = hit_change(g, g2, is_black, kind, 0);
    let d1 = hit_change(g, g2, is_black, kind, 1);
    let d2 = hit_change(g, g2, is_black, kind, 2);
    let d3 = hit_change(g, g2, is_black, kind, 3);
    // Whole-board change, split by direction.
    lemma_grid_sum_sub(f2, f1, 18, 19);
    let s01 = |x: int, y: int| d0(x, y) + d1(x, y);
    let s012 = |x: int, y: int| s01(x, y) + d2(x, y);
    let s0123 = |x: int, y: int| s012(x, y) + d3(x, y);
    lemma_grid_sum_add(d0, d1, 18, 19);
    lemma_grid_sum_add(s01, d2, 18, 19);
    lemma_grid_sum_add(s012, d3, 18, 19);
    assert forall|x: int, y: int| #[trigger] f2(x, y) - f1(x, y) == s0123(x, y) by {
        reveal_with_fuel(cell_hits, 5);
    }
    assert((|x: int, y: int| f2(x, y) - f1(x, y)) =~= s0123);
    // Each direction changes only inside its window.
    assert forall|e: int| 0 <= e < 4 implies grid_sum(#[trigger] hit_change(g, g2, is_black, kind, e), 18, 19)
        == window_sum(hit_change(g, g2, is_black, kind, e), pr, pc, e, 9) by {
        let de = hit_change(g, g2, is_black, kind, e);
        assert forall|x: int, y: int| !on_board(x, y) implies #[trigger] de(x, y) == 0 by {}
        assert forall|x: int, y: int| !in_window(pr, pc, e, x, y) implies #[trigger] de(x, y) == 0 by {
            lemma_formation_far(g, g2, pr, pc, x, y, e);
        }
        lemma_sparse_sum(de, pr, pc, e);
    }
    assert(grid_sum(d0, 18, 19) == window_sum(d0, pr, pc, 0, 9));
    assert(grid_sum(d1, 18, 19) == window_sum(d1, pr, pc, 1, 9));
    assert(grid_sum(d2, 18, 19) == window_sum(d2, pr, pc, 2, 9));
    assert(grid_sum(d3, 18, 19) == window_sum(d3, pr, pc, 3, 9));
    // The neighbourhood change, split the same way.
    lemma_line_change(g, g2, is_black, kind, pr, pc, 0, 9);
    lemma_line_change(g, g2, is_black, kind, pr, pc, 1, 9);
    lemma_line_change(g, g2, is_black, kind, pr, pc, 2, 9);
    lemma_line_change(g, g2, is_black, kind, pr, pc, 3, 9);
    reveal_with_fuel(dirs_hits, 5);
}

/// Changing one empty cell of a board on which neither colour has five in a
/// row changes each colour's formation counts over the whole board exactly
/// as it changes them over the neighbourhood of that cell.
pub proof fn lemma_local_rescan_exact(g: Grid, g2: Grid, pr: int, pc: int, is_black: bool)
    requires
        on_board(pr, pc),
        g(pr, pc) == Cell::Empty,
        forall|a: int, b: int| !(a == pr && b == pc) ==> #[trigger] g2(a, b) == g(a, b),
        !has_five(g, Cell::Black),
        !has_five(g, Cell::White),
    ensures
        forall|kind: PatternKind|
            #[trigger] full_counts(g2, is_black).count(kind) - full_counts(g, is_black).count(kind) == local_counts(
                g2,
                is_black,
                pr,
                pc,
            ).count(kind) - local_counts(g, is_black, pr, pc).count(kind),
{
    assert forall|kind: PatternKind|
        #[trigger] full_counts(g2, is_black).count(kind) - full_counts(g, is_black).count(kind) == local_counts(
            g2,
            is_black,
            pr,
            pc,
        ).count(kind) - local_counts(g, is_black, pr, pc).count(kind) by {
        lemma_kind_change(g, g2, pr, pc, is_black, kind);
    }
}

/// A cell cleared by the captures of the directions `< n` means one of
/// them captured.
proof fn lemma_cleared_counts(g: Grid, r: int, c: int, cur: Cell, opp: Cell, n: int, x: int, y: int)
    requires
        cleared(g, r, c, cur, opp, n, x, y),
    ensures
        captures_before(g, r, c, cur, opp, n) >= 1,
    decreases n,
{
    if n > 0 {
        if cleared(g, r, c, cur, opp, n - 1, x, y) {
            lemma_cleared_counts(g, r, c, cur, opp, n - 1, x, y);
            crate::search_board::moves::lemma_captures_mono(g, r, c, cur, opp, n - 1, n);
        } else {
            assert(capture_in(g, r, c, n - 1, cur, opp));
            crate::search_board::moves::lemma_captures_mono(g, r, c, cur, opp, n - 1, n - 1);
        }
    }
}

/// One colour's counts after a move, as `make_move` keeps them, equal a
/// full rescan of the new board.
proof fn lemma_color_after_move(before: SearchBoard, r: int, c: int, held: PatternCounts, is_black: bool)
    requires
        on_board(r, c),
        before.grid()(r, c) == Cell::Empty,
        held == full_counts(before.grid(), is_black),
        !has_five(before.grid(), Cell::Black),
        !has_five(before.grid(), Cell::White),
    ensures
        held.shifted(
            move_delta(
                before.grid(),
                after_grid(before.grid(), r, c, before.current, before.opponent, 8),
                r,
                c,
                captures_before(before.grid(), r, c, before.current, before.opponent, 8),
                held,
                is_black,
            ),
            1,
        ) == full_counts(after_grid(before.grid(), r, c, before.current, before.opponent, 8), is_black),
{
    let g = before.grid();
    let g2 = after_grid(g, r, c, before.current, before.opponent, 8);
    let k = captures_before(g, r, c, before.current, before.opponent, 8);
    let delta = move_delta(g, g2, r, c, k, held, is_black);
    let fresh = full_counts(g2, is_black);
    lemma_full_counts_within(g, is_black);
    lemma_full_counts_within(g2, is_black);
    lemma_local_counts_within(g, is_black, r, c);
    lemma_local_counts_within(g2, is_black, r, c);
    if k == 0 {
        assert forall|a: int, b: int| !(a == r && b == c) implies #[trigger] g2(a, b) == g(a, b) by {
            if cleared(g, r, c, before.current, before.opponent, 8, a, b) {
                lemma_cleared_counts(g, r, c, before.current, before.opponent, 8, a, b);
            }
        }
        lemma_local_rescan_exact(g, g2, r, c, is_black);
    }
    assert forall|kind: PatternKind| #[trigger] held.shifted(delta, 1).count(kind) == fresh.count(kind) by {
        assert(0 <= held.count(kind) <= 1444);
        assert(0 <= fresh.count(kind) <= 1444);
        assert(0 <= local_counts(g, is_black, r, c).count(kind) <= 68);
        assert(0 <= local_counts(g2, is_black, r, c).count(kind) <= 68);
        match kind {
            PatternKind::OpenTwo => {},
            PatternKind::OpenThree => {},
            PatternKind::FreeThree => {},
            PatternKind::BlockFour => {},
            PatternKind::OpenFour => {},
            PatternKind::FiveRow => {},
        }
    }
    let a = held.shifted(delta, 1);
    assert(a.five_rows == fresh.five_rows) by {
        assert(a.count(PatternKind::FiveRow) == fresh.count(PatternKind::FiveRow));
    }
    assert(a.open_fours == fresh.open_fours) by {
        assert(a.count(PatternKind::OpenFour) == fresh.count(PatternKind::OpenFour));
    }
    assert(a.block_fours == fresh.block_fours) by {
        assert(a.count(PatternKind::BlockFour) == fresh.count(PatternKind::BlockFour));
    }
    assert(a.open_threes == fresh.open_threes) by {
        assert(a.count(PatternKind::OpenThree) == fresh.count(PatternKind::OpenThree));
    }
    assert(a.open_twos == fresh.open_twos) by {
        assert(a.count(PatternKind::OpenTwo) == fresh.count(PatternKind::OpenTwo));
    }
    assert(a.free_threes == fresh.free_threes) by {
        assert(a.count(PatternKind::FreeThree) == fresh.count(PatternKind::FreeThree));
    }
}

/// The formation counts that `make_move` keeps incrementally equal a full
/// rescan of the board: if they did before a move on an empty cell, and
/// neither colour had five in a row, they do after it.
pub proof fn lemma_make_move_counts_exact(before: SearchBoard, r: int, c: int, after: SearchBoard, info: UndoInfo)
    requires
        on_board(r, c),
        before.grid()(r, c) == Cell::Empty,
        before.black_patterns == full_counts(before.grid(), true),
        before.white_patterns == full_counts(before.grid(), false),
        !has_five(before.grid(), Cell::Black),
        !has_five(before.grid(), Cell::White),
        make_move_post(before, r, c, after, info),
    ensures
        after.black_patterns == full_counts(after.grid(), true),
        after.white_patterns == full_counts(after.grid(), false),
{
    lemma_color_after_move(before, r, c, before.black_patterns, true);
    lemma_color_after_move(before, r, c, before.white_patterns, false);
}

} // verus!
