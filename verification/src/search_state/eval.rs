//! Static evaluation of the search state: formation counts over every line
//! of the board, capture progress, and a penalty for capturable pairs.
use vstd::prelude::*;
use crate::search_board::{on_board, Cell, Grid, PatternCounts, PatternKind};
use crate::search_board::moves::{all_dir, all_dir_at};
use crate::search_board::recognize::{bump_count, lemma_tally_within, tally};
use crate::search_board::lemma_index;
use crate::search_state::{idx, in_bounds, SearchState};

verus! {

/// The cells of the line from `(sr, sc)` in steps of `(dr, dc)`, `len` long.
pub open spec fn line_seq(g: Grid, sr: int, sc: int, dr: int, dc: int, len: int) -> Seq<Cell> {
    Seq::new(len as nat, |j: int| g(sr + dr * j, sc + dc * j))
}

/// Start, step and length of line `k` of the 112 lines of the board: rows,
/// columns, diagonals from the top and the left edge, anti-diagonals from
/// the top and the right edge.
pub open spec fn scan_line(k: int) -> (int, int, int, int, int) {
    if k < 19 {
        (k, 0, 0, 1, 19)
    } else if k < 38 {
        (0, k - 19, 1, 0, 19)
    } else if k < 57 {
        (0, k - 38, 1, 1, 19 - (k - 38))
    } else if k < 75 {
        (k - 56, 0, 1, 1, 19 - (k - 56))
    } else if k < 94 {
        (0, k - 75, 1, -1, k - 75 + 1)
    } else {
        (k - 94, 18, 1, -1, 19 - (k - 94))
    }
}

/// The cells of line `k`.
pub open spec fn board_line(g: Grid, k: int) -> Seq<Cell> {
    let l = scan_line(k);
    line_seq(g, l.0, l.1, l.2, l.3, l.4)
}

/// Length of the run of equal cells starting at position `i`.
pub open spec fn run_len(line: Seq<Cell>, i: int) -> int
    decreases line.len() - i,
{
    if 0 <= i && i + 1 < line.len() && line[i + 1] == line[i] {
        1 + run_len(line, i + 1)
    } else {
        1
    }
}

/// The formation of the run of stones that starts at position `i`, if it
/// starts there: five or more; a four open at both ends or at one; a three
/// or a two open at both ends.
pub open spec fn run_formation(line: Seq<Cell>, i: int) -> Option<(Cell, PatternKind)> {
    if !(line[i] != Cell::Empty && (i == 0 || line[i - 1] != line[i])) {
        None
    } else {
        let n = run_len(line, i);
        let open_left = i > 0 && line[i - 1] == Cell::Empty;
        let open_right = i + n < line.len() && line[i + n] == Cell::Empty;
        if n >= 5 {
            Some((line[i], PatternKind::FiveRow))
        } else if n == 4 && open_left && open_right {
            Some((line[i], PatternKind::OpenFour))
        } else if n == 4 && (open_left || open_right) {
            Some((line[i], PatternKind::BlockFour))
        } else if n == 3 && open_left && open_right {
            Some((line[i], PatternKind::OpenThree))
        } else if n == 2 && open_left && open_right {
            Some((line[i], PatternKind::OpenTwo))
        } else {
            None
        }
    }
}

/// `acc` plus the run formations starting at positions `< n`.
pub open spec fn runs_from(line: Seq<Cell>, n: int, acc: PatternCounts, is_black: bool) -> PatternCounts
    decreases n,
{
    if n <= 0 {
        acc
    } else {
        tally(runs_from(line, n - 1, acc, is_black), run_formation(line, n - 1), is_black)
    }
}

/// `acc` plus the run formations of a line of five or more cells.
pub open spec fn line_runs(line: Seq<Cell>, acc: PatternCounts, is_black: bool) -> PatternCounts {
    if line.len() < 5 {
        acc
    } else {
        runs_from(line, line.len() as int, acc, is_black)
    }
}

/// The window of six cells at `i` reads `_X_XX_`.
pub open spec fn gap_a(line: Seq<Cell>, i: int) -> Option<(Cell, PatternKind)> {
    if line[i] == Cell::Empty && line[i + 5] == Cell::Empty && line[i + 2] == Cell::Empty && line[i + 1]
        != Cell::Empty && line[i + 1] == line[i + 3] && line[i + 1] == line[i + 4] {
        Some((line[i + 1], PatternKind::FreeThree))
    } else {
        None
    }
}

/// The window of six cells at `i` reads `_XX_X_`.
pub open spec fn gap_b(line: Seq<Cell>, i: int) -> Option<(Cell, PatternKind)> {
    if line[i] == Cell::Empty && line[i + 5] == Cell::Empty && line[i + 3] == Cell::Empty && line[i + 1]
        != Cell::Empty && line[i + 1] == line[i + 2] && line[i + 1] == line[i + 4] {
        Some((line[i + 1], PatternKind::FreeThree))
    } else {
        None
    }
}

/// `acc` plus the split threes of the windows at positions `< n`.
pub open spec fn gaps_from(line: Seq<Cell>, n: int, acc: PatternCounts, is_black: bool) -> PatternCounts
    decreases n,
{
    if n <= 0 {
        acc
    } else {
        tally(tally(gaps_from(line, n - 1, acc, is_black), gap_a(line, n - 1), is_black), gap_b(line, n - 1), is_black)
    }
}

/// `acc` plus the split threes of a line of six or more cells.
pub open spec fn line_gaps(line: Seq<Cell>, acc: PatternCounts, is_black: bool) -> PatternCounts {
    if line.len() < 6 {
        acc
    } else {
        gaps_from(line, line.len() - 5, acc, is_black)
    }
}

/// `acc` plus the run formations of lines `< n`.
pub open spec fn board_runs(g: Grid, n: int, acc: PatternCounts, is_black: bool) -> PatternCounts
    decreases n,
{
    if n <= 0 {
        acc
    } else {
        line_runs(board_line(g, n - 1), board_runs(g, n - 1, acc, is_black), is_black)
    }
}

/// `acc` plus the split threes of lines `< n`.
pub open spec fn board_gaps(g: Grid, n: int, acc: PatternCounts, is_black: bool) -> PatternCounts
    decreases n,
{
    if n <= 0 {
        acc
    } else {
        line_gaps(board_line(g, n - 1), board_gaps(g, n - 1, acc, is_black), is_black)
    }
}

/// Formation counts of one colour over the whole board.
pub open spec fn pattern_counts(g: Grid, is_black: bool) -> PatternCounts {
    board_gaps(g, 112, board_runs(g, 112, PatternCounts::zero(), is_black), is_black)
}

/// Score of a number of captured pairs.
pub open spec fn capture_score(n: int) -> int {
    if n == 0 {
        0
    } else if n == 1 {
        5_000
    } else if n == 2 {
        10_000
    } else if n == 3 {
        25_000
    } else if n == 4 {
        80_000
    } else {
        100_000
    }
}

/// Score of one colour's formations and captured pairs; open threes that
/// outnumber the split threes count on their own.
pub open spec fn score_counts(pc: PatternCounts, captures: int) -> int {
    let open_three_extra = if pc.open_threes - pc.free_threes > 0 {
        pc.open_threes - pc.free_threes
    } else {
        0
    };
    capture_score(captures) + pc.five_rows * 80001 + pc.open_fours * 40000 + pc.free_threes * 15000
        + open_three_extra * 3000 + pc.block_fours * 4000 + pc.open_twos * 100
}

/// The stone of `me` on `(x, y)` and its neighbour of the same colour in
/// direction `d` sit between cells that are each empty or `me`'s opponent,
/// at least one of them the opponent.
pub open spec fn vuln_dir(g: Grid, x: int, y: int, d: int, me: Cell) -> bool {
    let dx = all_dir(d).0;
    let dy = all_dir(d).1;
    let opp = me.other();
    let (x2, y2) = (x + dx, y + dy);
    let (xc, yc) = (x - dx, y - dy);
    let (xe, ye) = (x + 2 * dx, y + 2 * dy);
    &&& on_board(x, y)
    &&& g(x, y) == me
    &&& on_board(x2, y2)
    &&& on_board(xc, yc)
    &&& on_board(xe, ye)
    &&& g(x2, y2) == me
    &&& (g(xc, yc) == opp || g(xc, yc) == Cell::Empty)
    &&& (g(xe, ye) == opp || g(xe, ye) == Cell::Empty)
    &&& (g(xc, yc) == opp || g(xe, ye) == opp)
}

/// Directions `< n` in which the stone on `(x, y)` is in a vulnerable pair.
pub open spec fn vuln_dirs(g: Grid, x: int, y: int, me: Cell, n: int) -> int
    decreases n,
{
    if n <= 0 {
        0
    } else {
        vuln_dirs(g, x, y, me, n - 1) + if vuln_dir(g, x, y, n - 1, me) {
            1int
        } else {
            0
        }
    }
}

/// Vulnerable (stone, direction) pairs over the cell indices `< n`.
pub open spec fn vuln_total(g: Grid, me: Cell, n: int) -> int
    decreases n,
{
    if n <= 0 {
        0
    } else {
        vuln_total(g, me, n - 1) + vuln_dirs(g, (n - 1) / 19, (n - 1) % 19, me, 8)
    }
}

/// Vulnerable pairs of `me`: each pair is seen from both of its stones.
pub open spec fn vulnerable_pairs(g: Grid, me: Cell) -> int {
    vuln_total(g, me, 361) / 2
}

/// Penalty per vulnerable pair when the opponent holds `opp_caps` pairs.
pub open spec fn vuln_weight(opp_caps: int) -> int {
    if opp_caps >= 3 {
        15_000
    } else if opp_caps == 2 {
        8_000
    } else if opp_caps == 1 {
        4_000
    } else {
        2_000
    }
}

/// The static evaluation of a state, from Black's point of view.
pub open spec fn heuristic(s: SearchState) -> int {
    let g = s.grid();
    let black_score = score_counts(pattern_counts(g, true), s.black_captures as int);
    let white_score = score_counts(pattern_counts(g, false), s.white_captures as int);
    let black_pen = vulnerable_pairs(g, Cell::Black) * vuln_weight(s.white_captures as int);
    let white_pen = vulnerable_pairs(g, Cell::White) * vuln_weight(s.black_captures as int);
    (black_score - black_pen) - (white_score - white_pen)
}

/// The cells of every line lie on the board.
pub proof fn lemma_scan_line_on_board(k: int, j: int)
    requires
        0 <= k < 112,
        0 <= j < scan_line(k).4,
    ensures
        on_board(scan_line(k).0 + scan_line(k).2 * j, scan_line(k).1 + scan_line(k).3 * j),
        1 <= scan_line(k).4 <= 19,
        scan_line(k).2 == 0 || scan_line(k).2 == 1,
        -1 <= scan_line(k).3 <= 1,
        scan_line(k).2 != 0 || scan_line(k).3 != 0,
{
    let l = scan_line(k);
    if l.2 == 0 {
        assert(l.2 * j == 0);
    } else {
        assert(l.2 * j == j);
    }
    if l.3 == 0 {
        assert(l.3 * j == 0);
    } else if l.3 == 1 {
        assert(l.3 * j == j);
    } else {
        assert(l.3 == -1);
        assert(l.3 * j == -j) by (nonlinear_arith)
            requires
                l.3 == -1,
        ;
    }
}

/// Start, step and length of line `k`.
pub fn line_params(k: usize) -> (l: (usize, usize, i32, i32, usize))
    requires
        k < 112,
    ensures
        l.0 as int == scan_line(k as int).0,
        l.1 as int == scan_line(k as int).1,
        l.2 as int == scan_line(k as int).2,
        l.3 as int == scan_line(k as int).3,
        l.4 as int == scan_line(k as int).4,
{
    if k < 19 {
        (k, 0, 0, 1, 19)
    } else if k < 38 {
        (0, k - 19, 1, 0, 19)
    } else if k < 57 {
        (0, k - 38, 1, 1, 19 - (k - 38))
    } else if k < 75 {
        (k - 56, 0, 1, 1, 19 - (k - 56))
    } else if k < 94 {
        (0, k - 75, 1, -1, k - 75 + 1)
    } else {
        (k - 94, 18, 1, -1, 19 - (k - 94))
    }
}

/// Length of the run of equal cells starting at `i`.
pub fn run_length_at(line: &Vec<Cell>, i: usize) -> (n: usize)
    requires
        i < line.len(),
    ensures
        n == run_len(line@, i as int),
        1 <= n <= line.len() - i,
{
    let mut j = i + 1;
    while j < line.len() && line[j] == line[i]
        invariant
            i < j <= line.len(),
            forall|m: int| i <= m < j ==> #[trigger] line@[m] == line@[i as int],
            run_len(line@, i as int) == (j - 1 - i) + run_len(line@, j - 1),
        decreases line.len() - j,
    {
        j += 1;
    }
    j - i
}

impl SearchState {
    /// The cells of the line from `(start_row, start_col)` in steps of
    /// `(dr, dc)`, `length` long.
    pub fn line_cells(&self, start_row: usize, start_col: usize, dr: i32, dc: i32, length: usize) -> (line: Vec<Cell>)
        requires
            start_row < 19,
            start_col < 19,
            0 <= dr <= 1,
            -1 <= dc <= 1,
            length <= 19,
            forall|j: int| 0 <= j < length ==> #[trigger] on_board(start_row + dr * j, start_col + dc * j),
        ensures
            line@ == line_seq(self.grid(), start_row as int, start_col as int, dr as int, dc as int, length as int),
    {
        let mut line: Vec<Cell> = Vec::new();
        let mut r = start_row as i32;
        let mut c = start_col as i32;
        let mut j: usize = 0;
        while j < length
            invariant
                0 <= j <= length,
                length <= 19,
                start_row < 19,
                start_col < 19,
                0 <= dr <= 1,
                -1 <= dc <= 1,
                r == start_row + dr * j,
                c == start_col + dc * j,
                forall|m: int| 0 <= m < length ==> #[trigger] on_board(start_row + dr * m, start_col + dc * m),
                line@.len() == j,
                forall|m: int| 0 <= m < j ==> #[trigger] line@[m] == self.grid()(start_row + dr * m, start_col + dc * m),
            decreases length - j,
        {
            assert(on_board(start_row + dr * j, start_col + dc * j));
            line.push(self.get(r, c));
            r += dr;
            c += dc;
            j += 1;
            assert(r == start_row + dr * j && c == start_col + dc * j) by (nonlinear_arith)
                requires
                    r == start_row + dr * (j - 1) + dr,
                    c == start_col + dc * (j - 1) + dc,
            ;
        }
        assert(line@ =~= line_seq(self.grid(), start_row as int, start_col as int, dr as int, dc as int, length as int));
        line
    }

    /// Count the runs of stones along one line into `black` and `white`.
    pub fn scan_line_consecutive(
        &self,
        start_row: usize,
        start_col: usize,
        dr: i32,
        dc: i32,
        length: usize,
        black: &mut PatternCounts,
        white: &mut PatternCounts,
        bound: Ghost<int>,
    )
        requires
            start_row < 19,
            start_col < 19,
            0 <= dr <= 1,
            -1 <= dc <= 1,
            length <= 19,
            forall|j: int| 0 <= j < length ==> #[trigger] on_board(start_row + dr * j, start_col + dc * j),
            old(black).within(bound@),
            old(white).within(bound@),
            0 <= bound@ <= 10_000,
        ensures
            *final(black) == line_runs(
                line_seq(self.grid(), start_row as int, start_col as int, dr as int, dc as int, length as int),
                *old(black),
                true,
            ),
            *final(white) == line_runs(
                line_seq(self.grid(), start_row as int, start_col as int, dr as int, dc as int, length as int),
                *old(white),
                false,
            ),
            final(black).within(bound@ + 19),
            final(white).within(bound@ + 19),
    {
        if length < 5 {
            proof {
                crate::search_state::eval::lemma_within_grow(*black, bound@, bound@ + 19);
                crate::search_state::eval::lemma_within_grow(*white, bound@, bound@ + 19);
            }
            return;
        }
        let line = self.line_cells(start_row, start_col, dr, dc, length);
        let ghost b0 = *black;
        let ghost w0 = *white;
        let mut i: usize = 0;
        while i < line.len()
            invariant
                0 <= i <= line.len(),
                line.len() == length,
                5 <= length <= 19,
                0 <= bound@ <= 10_000,
                *black == runs_from(line@, i as int, b0, true),
                *white == runs_from(line@, i as int, w0, false),
                black.within(bound@ + i),
                white.within(bound@ + i),
            decreases line.len() - i,
        {
            let player = line[i];
            let starts = player != Cell::Empty && (i == 0 || line[i - 1] != player);
            proof {
                lemma_tally_within(*black, run_formation(line@, i as int), true, bound@ + i);
                lemma_tally_within(*white, run_formation(line@, i as int), false, bound@ + i);
            }
            if starts {
                let run_len = run_length_at(&line, i);
                let open_left = i > 0 && line[i - 1] == Cell::Empty;
                let open_right = i + run_len < line.len() && line[i + run_len] == Cell::Empty;
                let kind: Option<PatternKind> = if run_len >= 5 {
                    Some(PatternKind::FiveRow)
                } else if run_len == 4 {
                    if open_left && open_right {
                        Some(PatternKind::OpenFour)
                    } else if open_left || open_right {
                        Some(PatternKind::BlockFour)
                    } else {
                        None
                    }
                } else if run_len == 3 {
                    if open_left && open_right {
                        Some(PatternKind::OpenThree)
                    } else {
                        None
                    }
                } else if run_len == 2 {
                    if open_left && open_right {
                        Some(PatternKind::OpenTwo)
                    } else {
                        None
                    }
                } else {
                    None
                };
                match kind {
                    Some(k) => {
                        if player == Cell::Black {
                            bump_count(black, k, Ghost(bound@ + i));
                        } else {
                            bump_count(white, k, Ghost(bound@ + i));
                        }
                    },
                    None => {},
                }
            }
            i += 1;
        }
    }

    /// Count the split threes `_X_XX_` and `_XX_X_` along one line.
    pub fn scan_line_gaps(
        &self,
        start_row: usize,
        start_col: usize,
        dr: i32,
        dc: i32,
        length: usize,
        black: &mut PatternCounts,
        white: &mut PatternCounts,
        bound: Ghost<int>,
    )
        requires
            start_row < 19,
            start_col < 19,
            0 <= dr <= 1,
            -1 <= dc <= 1,
            length <= 19,
            forall|j: int| 0 <= j < length ==> #[trigger] on_board(start_row + dr * j, start_col + dc * j),
            old(black).within(bound@),
            old(white).within(bound@),
            0 <= bound@ <= 10_000,
        ensures
            *final(black) == line_gaps(
                line_seq(self.grid(), start_row as int, start_col as int, dr as int, dc as int, length as int),
                *old(black),
                true,
            ),
            *final(white) == line_gaps(
                line_seq(self.grid(), start_row as int, start_col as int, dr as int, dc as int, length as int),
                *old(white),
                false,
            ),
            final(black).within(bound@ + 28),
            final(white).within(bound@ + 28),
    {
        if length < 6 {
            proof {
                crate::search_state::eval::lemma_within_grow(*black, bound@, bound@ + 28);
                crate::search_state::eval::lemma_within_grow(*white, bound@, bound@ + 28);
            }
            return;
        }
        let line = self.line_cells(start_row, start_col, dr, dc, length);
        let ghost b0 = *black;
        let ghost w0 = *white;
        let mut i: usize = 0;
        while i < length - 5
            invariant
                0 <= i <= length - 5,
                line.len() == length,
                6 <= length <= 19,
                0 <= bound@ <= 10_000,
                *black == gaps_from(line@, i as int, b0, true),
                *white == gaps_from(line@, i as int, w0, false),
                black.within(bound@ + 2 * i),
                white.within(bound@ + 2 * i),
            decreases length - 5 - i,
        {
            let ghost ga = gap_a(line@, i as int);
            let ghost gb = gap_b(line@, i as int);
            proof {
                lemma_tally_within(*black, ga, true, bound@ + 2 * i);
                lemma_tally_within(*white, ga, false, bound@ + 2 * i);
                lemma_tally_within(tally(*black, ga, true), gb, true, bound@ + 2 * i + 1);
                lemma_tally_within(tally(*white, ga, false), gb, false, bound@ + 2 * i + 1);
            }
            if line[i] == Cell::Empty && line[i + 5] == Cell::Empty && line[i + 2] == Cell::Empty {
                if line[i + 1] != Cell::Empty && line[i + 1] == line[i + 3] && line[i + 1] == line[i + 4] {
                    if line[i + 1] == Cell::Black {
                        bump_count(black, PatternKind::FreeThree, Ghost(bound@ + 2 * i));
                    } else {
                        bump_count(white, PatternKind::FreeThree, Ghost(bound@ + 2 * i));
                    }
                }
            }
            if line[i] == Cell::Empty && line[i + 5] == Cell::Empty && line[i + 3] == Cell::Empty {
                if line[i + 1] != Cell::Empty && line[i + 1] == line[i + 2] && line[i + 1] == line[i + 4] {
                    if line[i + 1] == Cell::Black {
                        bump_count(black, PatternKind::FreeThree, Ghost(bound@ + 2 * i + 1));
                    } else {
                        bump_count(white, PatternKind::FreeThree, Ghost(bound@ + 2 * i + 1));
                    }
                }
            }
            i += 1;
        }
    }
}

impl SearchState {
    /// Count the split threes along every line.
    pub fn scan_gap_patterns(&self, black: &mut PatternCounts, white: &mut PatternCounts)
        requires
            old(black).within(2128),
            old(white).within(2128),
        ensures
            *final(black) == board_gaps(self.grid(), 112, *old(black), true),
            *final(white) == board_gaps(self.grid(), 112, *old(white), false),
            final(black).within(6000),
            final(white).within(6000),
    {
        let ghost b0 = *black;
        let ghost w0 = *white;
        let mut k: usize = 0;
        while k < 112
            invariant
                0 <= k <= 112,
                *black == board_gaps(self.grid(), k as int, b0, true),
                *white == board_gaps(self.grid(), k as int, w0, false),
                black.within(2128 + 28 * k),
                white.within(2128 + 28 * k),
            decreases 112 - k,
        {
            let (sr, sc, dr, dc, len) = line_params(k);
            proof {
                assert forall|j: int| 0 <= j < len implies #[trigger] on_board(sr + dr * j, sc + dc * j) by {
                    lemma_scan_line_on_board(k as int, j);
                }
                lemma_scan_line_on_board(k as int, 0);
            }
            self.scan_line_gaps(sr, sc, dr, dc, len, black, white, Ghost(2128 + 28 * k));
            k += 1;
        }
        proof {
            lemma_within_grow(*black, 2128 + 28 * 112int, 6000);
            lemma_within_grow(*white, 2128 + 28 * 112int, 6000);
        }
    }

    /// Score of one colour's formation counts and captured pairs.
    pub fn compute_score(&self, counts: &PatternCounts, is_black: bool) -> (s: i32)
        requires
            counts.within(6000),
        ensures
            s == score_counts(*counts, self.caps_of(is_black) as int),
            0 <= s <= 900_000_000,
    {
        proof {
            assert(0 <= counts.count(PatternKind::FiveRow) <= 6000);
            assert(0 <= counts.count(PatternKind::OpenFour) <= 6000);
            assert(0 <= counts.count(PatternKind::BlockFour) <= 6000);
            assert(0 <= counts.count(PatternKind::OpenThree) <= 6000);
            assert(0 <= counts.count(PatternKind::FreeThree) <= 6000);
            assert(0 <= counts.count(PatternKind::OpenTwo) <= 6000);
        }
        let capture_count = self.captures(is_black) as i32;
        let capture_score: i32 = if capture_count == 0 {
            0
        } else if capture_count == 1 {
            5_000
        } else if capture_count == 2 {
            10_000
        } else if capture_count == 3 {
            25_000
        } else if capture_count == 4 {
            80_000
        } else {
            100_000
        };
        let five_row_score = counts.five_rows * 80001;
        let open_four_score = counts.open_fours * 40000;
        let free_three_score = counts.free_threes * 15000;
        let extra_threes = counts.open_threes - counts.free_threes;
        let open_three_score = if extra_threes > 0 { extra_threes } else { 0 } * 3000;
        let block_four_score = counts.block_fours * 4000;
        let open_two_score = counts.open_twos * 100;
        capture_score + five_row_score + open_four_score + free_three_score + open_three_score + block_four_score
            + open_two_score
    }

    /// Vulnerable pairs of Black (`is_black`) or White.
    pub fn count_vulnerable_pairs(&self, is_black: bool) -> (n: i32)
        ensures
            n == vulnerable_pairs(self.grid(), if is_black { Cell::Black } else { Cell::White }),
            0 <= n <= 1444,
    {
        let ghost g = self.grid();
        let me = if is_black { Cell::Black } else { Cell::White };
        let opp = me.opponent();
        let mut count: i32 = 0;
        let mut row: usize = 0;
        while row < 19
            invariant
                0 <= row <= 19,
                g == self.grid(),
                me != Cell::Empty,
                opp == me.other(),
                me == if is_black { Cell::Black } else { Cell::White },
                count == vuln_total(g, me, 19 * row),
                0 <= count <= 8 * (19 * row),
            decreases 19 - row,
        {
            let mut col: usize = 0;
            while col < 19
                invariant
                    0 <= row < 19,
                    0 <= col <= 19,
                    g == self.grid(),
                    me != Cell::Empty,
                    opp == me.other(),
                    count == vuln_total(g, me, 19 * row + col),
                    0 <= count <= 8 * (19 * row + col),
                decreases 19 - col,
            {
                proof {
                    lemma_index(row as int, col as int);
                }
                if self.cells[idx(row, col)] != me {
                    proof {
                        assert(g(row as int, col as int) != me);
                        lemma_vuln_dirs_other(g, row as int, col as int, me, 8);
                    }
                    col += 1;
                    continue;
                }
                let ghost base = count;
                let mut d: usize = 0;
                while d < 8
                    invariant
                        0 <= row < 19,
                        0 <= col < 19,
                        0 <= d <= 8,
                        g == self.grid(),
                        me != Cell::Empty,
                        opp == me.other(),
                        base == vuln_total(g, me, 19 * row + col),
                        0 <= base <= 8 * (19 * row + col),
                        g(row as int, col as int) == me,
                        count == base + vuln_dirs(g, row as int, col as int, me, d as int),
                        0 <= count - base <= d,
                    decreases 8 - d,
                {
                    let (dx, dy) = all_dir_at(d);
                    let r2 = row as i32 + dx;
                    let c2 = col as i32 + dy;
                    let r_cap = row as i32 - dx;
                    let c_cap = col as i32 - dy;
                    let r_end = row as i32 + 2 * dx;
                    let c_end = col as i32 + 2 * dy;
                    if in_bounds(r2, c2) && in_bounds(r_cap, c_cap) && in_bounds(r_end, c_end) && self.get(r2, c2)
                        == me && (self.get(r_cap, c_cap) == opp || self.get(r_cap, c_cap) == Cell::Empty) && (
                    self.get(r_end, c_end) == opp || self.get(r_end, c_end) == Cell::Empty) && (self.get(
                        r_cap,
                        c_cap,
                    ) == opp || self.get(r_end, c_end) == opp) {
                        count += 1;
                    }
                    d += 1;
                }
                col += 1;
            }
            row += 1;
        }
        count / 2
    }

    /// Static evaluation from Black's point of view: formation scores and
    /// capture progress of both colours, less a penalty for each pair the
    /// opponent could capture.
    pub fn heuristic_eval(&self) -> (v: i32)
        ensures
            v == heuristic(*self),
            -1_000_000_000 <= v <= 1_000_000_000,
    {
        let ghost g = self.grid();
        let mut black_counts = PatternCounts::default();
        let mut white_counts = PatternCounts::default();
        proof {
            lemma_zero_within();
        }
        let mut k: usize = 0;
        while k < 112
            invariant
                0 <= k <= 112,
                g == self.grid(),
                black_counts == board_runs(g, k as int, PatternCounts::zero(), true),
                white_counts == board_runs(g, k as int, PatternCounts::zero(), false),
                black_counts.within(19 * k),
                white_counts.within(19 * k),
            decreases 112 - k,
        {
            let (sr, sc, dr, dc, len) = line_params(k);
            proof {
                assert forall|j: int| 0 <= j < len implies #[trigger] on_board(sr + dr * j, sc + dc * j) by {
                    lemma_scan_line_on_board(k as int, j);
                }
                lemma_scan_line_on_board(k as int, 0);
            }
            self.scan_line_consecutive(sr, sc, dr, dc, len, &mut black_counts, &mut white_counts, Ghost(19 * k));
            k += 1;
        }
        self.scan_gap_patterns(&mut black_counts, &mut white_counts);

        let black_score = self.compute_score(&black_counts, true);
        let white_score = self.compute_score(&white_counts, false);

        let black_vuln = self.count_vulnerable_pairs(true);
        let white_vuln = self.count_vulnerable_pairs(false);
        let wc = self.white_captures;
        let black_weight: i32 = if wc >= 3 {
            15_000
        } else if wc == 2 {
            8_000
        } else if wc == 1 {
            4_000
        } else {
            2_000
        };
        let bc = self.black_captures;
        let white_weight: i32 = if bc >= 3 {
            15_000
        } else if bc == 2 {
            8_000
        } else if bc == 1 {
            4_000
        } else {
            2_000
        };
        proof {
            assert(0 <= black_vuln * black_weight <= 1444 * 15_000) by (nonlinear_arith)
                requires
                    0 <= black_vuln <= 1444,
                    0 <= black_weight <= 15_000,
            ;
            assert(0 <= white_vuln * white_weight <= 1444 * 15_000) by (nonlinear_arith)
                requires
                    0 <= white_vuln <= 1444,
                    0 <= white_weight <= 15_000,
            ;
        }
        let black_vuln_penalty = black_vuln * black_weight;
        let white_vuln_penalty = white_vuln * white_weight;
        (black_score - black_vuln_penalty) - (white_score - white_vuln_penalty)
    }
}

/// No direction makes a vulnerable pair from a cell not holding `me`.
proof fn lemma_vuln_dirs_other(g: Grid, x: int, y: int, me: Cell, n: int)
    requires
        g(x, y) != me,
    ensures
        vuln_dirs(g, x, y, me, n) == 0,
    decreases n,
{
    if n > 0 {
        lemma_vuln_dirs_other(g, x, y, me, n - 1);
    }
}

/// The zero counts are within any bound.
proof fn lemma_zero_within()
    ensures
        forall|n: int| 0 <= n ==> #[trigger] PatternCounts::zero().within(n),
{
    assert forall|n: int| 0 <= n implies #[trigger] PatternCounts::zero().within(n) by {
        assert forall|k: PatternKind| 0 <= #[trigger] PatternCounts::zero().count(k) <= n by {
            match k {
                PatternKind::OpenTwo => {},
                PatternKind::OpenThree => {},
                PatternKind::FreeThree => {},
                PatternKind::BlockFour => {},
                PatternKind::OpenFour => {},
                PatternKind::FiveRow => {},
            }
        }
    }
}

/// Counts within `n` are within any larger bound.
pub proof fn lemma_within_grow(pc: PatternCounts, n: int, m: int)
    requires
        pc.within(n),
        n <= m,
    ensures
        pc.within(m),
{
    assert forall|k: PatternKind| 0 <= #[trigger] pc.count(k) <= m by {
        assert(0 <= pc.count(k) <= n);
    }
}

} // verus!
