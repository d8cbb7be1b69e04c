//! The static evaluation treats the two colours alike: exchanging every
//! stone and the two capture counts negates it.
use vstd::prelude::*;
use crate::search_board::{on_board, Cell, Grid, PatternCounts, PatternKind};
use crate::search_board::recognize::tally;
use crate::search_state::SearchState;
use crate::search_state::eval::{
    board_gaps, board_line, board_runs, gap_a, gap_b, gaps_from, heuristic, line_gaps, line_runs, pattern_counts,
    run_formation, run_len, runs_from, vuln_dir, vuln_dirs, vuln_total, vulnerable_pairs, vuln_weight,
    score_counts, capture_score,
};

verus! {

/// The grid with Black and White exchanged.
pub open spec fn swap_colours(g: Grid) -> Grid {
    |x: int, y: int| g(x, y).other()
}

/// A line with Black and White exchanged.
pub open spec fn swap_line(line: Seq<Cell>) -> Seq<Cell> {
    line.map_values(|c: Cell| c.other())
}

/// The same formation, of the other colour.
pub open spec fn swap_formation(f: Option<(Cell, PatternKind)>) -> Option<(Cell, PatternKind)> {
    match f {
        Some((c, k)) => Some((c.other(), k)),
        None => None,
    }
}

proof fn lemma_other_other(a: Cell, b: Cell)
    ensures
        a.other().other() == a,
        (a.other() == b.other()) == (a == b),
        (a.other() == Cell::Empty) == (a == Cell::Empty),
{
}

proof fn lemma_tally_swap(acc: PatternCounts, f: Option<(Cell, PatternKind)>, is_black: bool)
    requires
        f matches Some((c, _)) ==> c != Cell::Empty,
    ensures
        tally(acc, swap_formation(f), is_black) == tally(acc, f, !is_black),
{
}

proof fn lemma_run_len_swap(line: Seq<Cell>, i: int)
    ensures
        run_len(swap_line(line), i) == run_len(line, i),
    decreases line.len() - i,
{
    if 0 <= i && i + 1 < line.len() {
        lemma_other_other(line[i + 1], line[i]);
        lemma_run_len_swap(line, i + 1);
    }
}

proof fn lemma_run_formation_swap(line: Seq<Cell>, i: int)
    requires
        0 <= i < line.len(),
    ensures
        run_formation(swap_line(line), i) == swap_formation(run_formation(line, i)),
        run_formation(line, i) matches Some((c, _)) ==> c != Cell::Empty,
{
    let sl = swap_line(line);
    lemma_run_len_swap(line, i);
    lemma_other_other(line[i], Cell::Empty);
    if i > 0 {
        lemma_other_other(line[i - 1], line[i]);
        lemma_other_other(line[i - 1], Cell::Empty);
    }
    let n = run_len(line, i);
    if 0 <= i + n < line.len() {
        lemma_other_other(line[i + n], Cell::Empty);
    }
}

proof fn lemma_runs_from_swap(line: Seq<Cell>, n: int, acc: PatternCounts, is_black: bool)
    requires
        n <= line.len(),
    ensures
        runs_from(swap_line(line), n, acc, is_black) == runs_from(line, n, acc, !is_black),
    decreases n,
{
    if n > 0 {
        lemma_runs_from_swap(line, n - 1, acc, is_black);
        lemma_run_formation_swap(line, n - 1);
        lemma_tally_swap(runs_from(line, n - 1, acc, !is_black), run_formation(line, n - 1), is_black);
    }
}

proof fn lemma_gap_swap(line: Seq<Cell>, i: int)
    requires
        0 <= i,
        i + 5 < line.len(),
    ensures
        gap_a(swap_line(line), i) == swap_formation(gap_a(line, i)),
        gap_b(swap_line(line), i) == swap_formation(gap_b(line, i)),
        gap_a(line, i) matches Some((c, _)) ==> c != Cell::Empty,
        gap_b(line, i) matches Some((c, _)) ==> c != Cell::Empty,
{
    lemma_other_other(line[i], Cell::Empty);
    lemma_other_other(line[i + 1], Cell::Empty);
    lemma_other_other(line[i + 2], Cell::Empty);
    lemma_other_other(line[i + 3], Cell::Empty);
    lemma_other_other(line[i + 5], Cell::Empty);
    lemma_other_other(line[i + 1], line[i + 2]);
    lemma_other_other(line[i + 1], line[i + 3]);
    lemma_other_other(line[i + 1], line[i + 4]);
}

proof fn lemma_gaps_from_swap(line: Seq<Cell>, n: int, acc: PatternCounts, is_black: bool)
    requires
        n + 5 <= line.len(),
    ensures
        gaps_from(swap_line(line), n, acc, is_black) == gaps_from(line, n, acc, !is_black),
    decreases n,
{
    if n > 0 {
        lemma_gaps_from_swap(line, n - 1, acc, is_black);
        lemma_gap_swap(line, n - 1);
        let before = gaps_from(line, n - 1, acc, !is_black);
        lemma_tally_swap(before, gap_a(line, n - 1), is_black);
        lemma_tally_swap(tally(before, gap_a(line, n - 1), !is_black), gap_b(line, n - 1), is_black);
    }
}

proof fn lemma_line_swap(line: Seq<Cell>, acc: PatternCounts, is_black: bool)
    ensures
        line_runs(swap_line(line), acc, is_black) == line_runs(line, acc, !is_black),
        line_gaps(swap_line(line), acc, is_black) == line_gaps(line, acc, !is_black),
{
    if line.len() >= 5 {
        lemma_runs_from_swap(line, line.len() as int, acc, is_black);
    }
    if line.len() >= 6 {
        lemma_gaps_from_swap(line, line.len() - 5, acc, is_black);
    }
}

proof fn lemma_board_line_swap(g: Grid, k: int)
    ensures
        board_line(swap_colours(g), k) == swap_line(board_line(g, k)),
{
    assert(board_line(swap_colours(g), k) =~= swap_line(board_line(g, k)));
}

proof fn lemma_board_runs_swap(g: Grid, n: int, acc: PatternCounts, is_black: bool)
    ensures
        board_runs(swap_colours(g), n, acc, is_black) == board_runs(g, n, acc, !is_black),
        board_gaps(swap_colours(g), n, acc, is_black) == board_gaps(g, n, acc, !is_black),
    decreases n,
{
    if n > 0 {
        lemma_board_runs_swap(g, n - 1, acc, is_black);
        lemma_board_line_swap(g, n - 1);
        lemma_line_swap(board_line(g, n - 1), board_runs(g, n - 1, acc, !is_black), is_black);
        lemma_line_swap(board_line(g, n - 1), board_gaps(g, n - 1, acc, !is_black), is_black);
    }
}

/// The formations of one colour on the swapped grid are those of the other
/// colour on the grid.
pub proof fn lemma_pattern_counts_swap(g: Grid, is_black: bool)
    ensures
        pattern_counts(swap_colours(g), is_black) == pattern_counts(g, !is_black),
{
    lemma_board_runs_swap(g, 112, PatternCounts::zero(), is_black);
    lemma_board_runs_swap(g, 112, board_runs(g, 112, PatternCounts::zero(), !is_black), is_black);
}

proof fn lemma_vuln_dirs_swap(g: Grid, x: int, y: int, me: Cell, n: int)
    requires
        me != Cell::Empty,
    ensures
        vuln_dirs(swap_colours(g), x, y, me, n) == vuln_dirs(g, x, y, me.other(), n),
    decreases n,
{
    if n > 0 {
        lemma_vuln_dirs_swap(g, x, y, me, n - 1);
        assert(vuln_dir(swap_colours(g), x, y, n - 1, me) == vuln_dir(g, x, y, n - 1, me.other())) by {
            assert forall|a: int, b: int| #[trigger] swap_colours(g)(a, b) == me <==> g(a, b) == me.other() by {
                lemma_other_other(g(a, b), me.other());
                lemma_other_other(me, Cell::Empty);
            }
            assert forall|a: int, b: int| #[trigger] swap_colours(g)(a, b) == me.other() <==> g(a, b) == me by {
                lemma_other_other(g(a, b), me);
            }
            assert forall|a: int, b: int| #[trigger] swap_colours(g)(a, b) == Cell::Empty <==> g(a, b) == Cell::Empty by {
                lemma_other_other(g(a, b), Cell::Empty);
            }
            lemma_other_other(me, me);
        }
    }
}

proof fn lemma_vuln_total_swap(g: Grid, me: Cell, n: int)
    requires
        me != Cell::Empty,
    ensures
        vuln_total(swap_colours(g), me, n) == vuln_total(g, me.other(), n),
    decreases n,
{
    if n > 0 {
        lemma_vuln_total_swap(g, me, n - 1);
        lemma_vuln_dirs_swap(g, (n - 1) / 19, (n - 1) % 19, me, 8);
    }
}

/// Exchanging the colours of every stone and the two capture counts negates
/// the static evaluation. The evaluation reads only the stones and the
/// capture counts: the side to move, the last move, the hash and the move
/// count play no part in it.
pub proof fn lemma_heuristic_colour_swap(s: SearchState, t: SearchState)
    requires
        forall|i: int| 0 <= i < 361 ==> #[trigger] t.cells@[i] == s.cells@[i].other(),
        t.black_captures == s.white_captures,
        t.white_captures == s.black_captures,
    ensures
        heuristic(t) == -heuristic(s),
{
    let g = s.grid();
    assert forall|x: int, y: int| #[trigger] t.grid()(x, y) == swap_colours(g)(x, y) by {
        if on_board(x, y) {
            assert(0 <= 19 * x + y < 361);
        }
    }
    assert(t.grid() =~= swap_colours(g));
    lemma_pattern_counts_swap(g, true);
    lemma_pattern_counts_swap(g, false);
    lemma_vuln_total_swap(g, Cell::Black, 361);
    lemma_vuln_total_swap(g, Cell::White, 361);
}

/// Two states with the same stones and the same capture counts evaluate
/// alike, whatever their side to move, last move, hash and move count.
pub proof fn lemma_heuristic_reads_stones_and_captures(s: SearchState, t: SearchState)
    requires
        t.cells@ == s.cells@,
        t.black_captures == s.black_captures,
        t.white_captures == s.white_captures,
    ensures
        heuristic(t) == heuristic(s),
{
    assert(t.grid() =~= s.grid());
}

/// Vulnerable-stone counts are never negative.
proof fn lemma_vuln_nonneg(g: Grid, me: Cell, n: int)
    ensures
        vuln_total(g, me, n) >= 0,
    decreases n,
{
    if n > 0 {
        lemma_vuln_nonneg(g, me, n - 1);
        lemma_vuln_dirs_nonneg(g, (n - 1) / 19, (n - 1) % 19, me, 8);
    }
}

proof fn lemma_vuln_dirs_nonneg(g: Grid, x: int, y: int, me: Cell, n: int)
    ensures
        vuln_dirs(g, x, y, me, n) >= 0,
    decreases n,
{
    if n > 0 {
        lemma_vuln_dirs_nonneg(g, x, y, me, n - 1);
    }
}

/// The evaluation credits each colour with its own captures: more pairs
/// captured by Black never lower it, more captured by White never raise it,
/// all else equal.
pub proof fn lemma_heuristic_follows_captures(s: SearchState, t: SearchState)
    requires
        t.cells@ == s.cells@,
        s.black_captures <= t.black_captures,
        t.white_captures <= s.white_captures,
    ensures
        heuristic(s) <= heuristic(t),
{
    assert(t.grid() =~= s.grid());
    let g = s.grid();
    lemma_vuln_nonneg(g, Cell::Black, 361);
    lemma_vuln_nonneg(g, Cell::White, 361);
    let vb = vulnerable_pairs(g, Cell::Black);
    let vw = vulnerable_pairs(g, Cell::White);
    assert(vb >= 0 && vw >= 0);
    let ws = vuln_weight(s.white_captures as int);
    let wt = vuln_weight(t.white_captures as int);
    let bs = vuln_weight(s.black_captures as int);
    let bt = vuln_weight(t.black_captures as int);
    assert(wt <= ws && bs <= bt);
    assert(vb * wt <= vb * ws) by (nonlinear_arith)
        requires
            vb >= 0,
            wt <= ws,
    ;
    assert(vw * bs <= vw * bt) by (nonlinear_arith)
        requires
            vw >= 0,
            bs <= bt,
    ;
    assert(capture_score(s.black_captures as int) <= capture_score(t.black_captures as int));
    assert(capture_score(t.white_captures as int) <= capture_score(s.white_captures as int));
}

} // verus!
