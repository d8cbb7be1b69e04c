//! Rules and static evaluation on the search board: double threes, fives,
//! capturable pairs, the winner, and the formation-based score.
use vstd::prelude::*;
use crate::constants::{
    CAPTURE_BONUS_1, CAPTURE_BONUS_2, CAPTURE_BONUS_3, CAPTURE_BONUS_4_PLUS, COMBO_BLOCK_FOUR_AND_THREE,
    COMBO_CAPTURE_AND_FOUR, COMBO_DOUBLE_BLOCK_FOUR, COMBO_DOUBLE_OPEN_FOUR, COMBO_DOUBLE_THREE,
    COMBO_OPEN_AND_BLOCK_FOUR, COMBO_OPEN_FOUR_AND_THREE, SB_EVAL_CLAMP, TEMPO_BLOCK_FOUR, TEMPO_CAPTURE,
    TEMPO_OPEN_FOUR, WEIGHT_BLOCK_FOUR, WEIGHT_FIVE, WEIGHT_FREE_THREE, WEIGHT_OPEN_FOUR,
    WEIGHT_OPEN_THREE, WEIGHT_OPEN_TWO,
};
use crate::search_board::{on_board, Cell, Grid, PatternCounts, PatternKind, SearchBoard};
use crate::search_board::recognize::{kind_of, ray, LineScan, classify};

verus! {

/// Stones of `p` met walking from `(r, c)` in direction `(dr, dc)`, starting
/// at offset `i`, looking at most up to offset 4.
pub open spec fn short_run(g: Grid, r: int, c: int, dr: int, dc: int, p: Cell, i: int) -> int
    decreases 5 - i,
{
    if i >= 5 || !on_board(r + dr * i, c + dc * i) || g(r + dr * i, c + dc * i) != p {
        0
    } else {
        1 + short_run(g, r, c, dr, dc, p, i + 1)
    }
}

/// Score of a line of `count` stones through the cell.
pub open spec fn line_value(count: int) -> int {
    if count >= 5 {
        100_000
    } else if count == 4 {
        10_000
    } else if count == 3 {
        1_000
    } else if count == 2 {
        100
    } else {
        0
    }
}

/// `player` on `(r, c)` brackets an opposing pair in direction `(dr, dc)`.
pub open spec fn captures_toward(g: Grid, r: int, c: int, dr: int, dc: int, player: Cell) -> bool {
    &&& on_board(r + 3 * dr, c + 3 * dc)
    &&& g(r + dr, c + dc) == player.other()
    &&& g(r + 2 * dr, c + 2 * dc) == player.other()
    &&& g(r + 3 * dr, c + 3 * dc) == player
}

/// Ordering value of `(r, c)` for `player` along scan direction `d`.
pub open spec fn position_value_dir(g: Grid, r: int, c: int, d: int, player: Cell) -> int {
    let dr = crate::search_board::recognize::scan_dir(d).0;
    let dc = crate::search_board::recognize::scan_dir(d).1;
    let count = 1 + short_run(g, r, c, dr, dc, player, 1) + short_run(g, r, c, -dr, -dc, player, 1);
    line_value(count) + (if captures_toward(g, r, c, dr, dc, player) { 50_000int } else { 0 }) + (
    if captures_toward(g, r, c, -dr, -dc, player) {
        50_000int
    } else {
        0
    })
}

/// Ordering value of `(r, c)` for `player` over the directions `< n`.
pub open spec fn position_value(g: Grid, r: int, c: int, player: Cell, n: int) -> int
    decreases n,
{
    if n <= 0 {
        0
    } else {
        position_value(g, r, c, player, n - 1) + position_value_dir(g, r, c, n - 1, player)
    }
}

/// The directions a double three is checked along: `(1,-1)`, `(1,0)`, `(1,1)`, `(0,1)`.
pub open spec fn three_dir(d: int) -> (int, int) {
    if d == 0 {
        (1, -1)
    } else if d == 1 {
        (1, 0)
    } else if d == 2 {
        (1, 1)
    } else {
        (0, 1)
    }
}

/// Placing `player` on `(x0, y0)` would make a free three along direction `d`.
pub open spec fn free_three_along(g: Grid, player: Cell, x0: int, y0: int, d: int) -> bool {
    let dx = three_dir(d).0;
    let dy = three_dir(d).1;
    kind_of(ray(g, player, 1, dx, dy, x0, y0), ray(g, player, -1, dx, dy, x0, y0), 1) == Some(
        PatternKind::FreeThree,
    )
}

/// Number of directions `< n` along which the stone makes a free three.
pub open spec fn free_threes_made(g: Grid, player: Cell, x0: int, y0: int, n: int) -> int
    decreases n,
{
    if n <= 0 {
        0
    } else {
        free_threes_made(g, player, x0, y0, n - 1) + if free_three_along(g, player, x0, y0, n - 1) {
            1int
        } else {
            0
        }
    }
}

/// Length of the run of `p` from offset `i` on, in direction `(dr, dc)`.
pub open spec fn run_from(g: Grid, r: int, c: int, dr: int, dc: int, p: Cell, i: int) -> int
    decreases 20 - i,
{
    if i >= 20 || !on_board(r + dr * i, c + dc * i) || g(r + dr * i, c + dc * i) != p {
        0
    } else {
        1 + run_from(g, r, c, dr, dc, p, i + 1)
    }
}

/// `(r, c)` holds `p` and starts a run of `p` in direction `(dr, dc)` (the
/// cell before it is off the board or not `p`).
pub open spec fn run_start(g: Grid, r: int, c: int, dr: int, dc: int, p: Cell) -> bool {
    &&& on_board(r, c)
    &&& g(r, c) == p
    &&& !(on_board(r - dr, c - dc) && g(r - dr, c - dc) == p)
}

/// `p` has a run of five or more stones in a row somewhere on the board.
pub open spec fn has_five(g: Grid, p: Cell) -> bool {
    exists|r: int, c: int, d: int|
        0 <= d < 4 && #[trigger] run_start(
            g,
            r,
            c,
            crate::search_board::recognize::scan_dir(d).0,
            crate::search_board::recognize::scan_dir(d).1,
            p,
        ) && run_from(
            g,
            r,
            c,
            crate::search_board::recognize::scan_dir(d).0,
            crate::search_board::recognize::scan_dir(d).1,
            p,
            0,
        ) >= 5
}

/// The pair `(x, y)`-`(x+dx, y+dy)` of `p` stones sits between an opposing
/// stone and an empty cell, so it can be captured.
pub open spec fn pair_exposed(g: Grid, x: int, y: int, dx: int, dy: int, p: Cell) -> bool {
    let opp = p.other();
    let (bx, by) = (x - dx, y - dy);
    let (ax, ay) = (x + 2 * dx, y + 2 * dy);
    &&& on_board(x, y)
    &&& g(x, y) == p
    &&& on_board(x + dx, y + dy)
    &&& g(x + dx, y + dy) == p
    &&& on_board(bx, by)
    &&& on_board(ax, ay)
    &&& ((g(bx, by) == opp && g(ax, ay) == Cell::Empty) || (g(bx, by) == Cell::Empty && g(ax, ay)
        == opp))
}

/// The stone of `p` on `(x, y)` forms, with its neighbour in scan direction
/// `d` or the opposite one, a capturable pair.
pub open spec fn exposed_along(g: Grid, x: int, y: int, p: Cell, d: int) -> bool {
    let dx = crate::search_board::recognize::scan_dir(d).0;
    let dy = crate::search_board::recognize::scan_dir(d).1;
    pair_exposed(g, x, y, dx, dy, p) || pair_exposed(g, x - dx, y - dy, dx, dy, p)
}

/// The stone of `p` on `(x, y)` belongs to a capturable pair.
pub open spec fn in_capturable_pair(g: Grid, x: int, y: int, p: Cell) -> bool {
    &&& on_board(x, y)
    &&& g(x, y) == p
    &&& exists|d: int| 0 <= d < 4 && #[trigger] exposed_along(g, x, y, p, d)
}

/// Some stone at offsets `< n` of the run from `(r, c)` is capturable.
pub open spec fn run_exposed(g: Grid, r: int, c: int, dr: int, dc: int, p: Cell, n: int) -> bool
    decreases n,
{
    if n <= 0 {
        false
    } else {
        run_exposed(g, r, c, dr, dc, p, n - 1) || in_capturable_pair(
            g,
            r + dr * (n - 1),
            c + dc * (n - 1),
            p,
        )
    }
}

/// `p` has a run of five or more stones none of which can be captured.
pub open spec fn has_safe_five(g: Grid, p: Cell) -> bool {
    exists|r: int, c: int, d: int|
        0 <= d < 4 && #[trigger] run_start(
            g,
            r,
            c,
            crate::search_board::recognize::scan_dir(d).0,
            crate::search_board::recognize::scan_dir(d).1,
            p,
        ) && run_from(
            g,
            r,
            c,
            crate::search_board::recognize::scan_dir(d).0,
            crate::search_board::recognize::scan_dir(d).1,
            p,
            0,
        ) >= 5 && !run_exposed(
            g,
            r,
            c,
            crate::search_board::recognize::scan_dir(d).0,
            crate::search_board::recognize::scan_dir(d).1,
            p,
            run_from(
                g,
                r,
                c,
                crate::search_board::recognize::scan_dir(d).0,
                crate::search_board::recognize::scan_dir(d).1,
                p,
                0,
            ),
        )
}

/// One of the four line steps: along a row, a column, the diagonal or the
/// anti-diagonal.
pub open spec fn line_step(dr: int, dc: int) -> bool {
    (dr == 1 && dc == 0) || (dr == 0 && dc == 1) || (dr == 1 && dc == 1) || (dr == 1 && dc == -1)
}

/// A run of five or more stones of `p` starts on `(r, c)` along `(dr, dc)`,
/// and no stone of it belongs to a pair the opponent could capture.
pub open spec fn unbreakable_five(g: Grid, r: int, c: int, dr: int, dc: int, p: Cell) -> bool {
    &&& line_step(dr, dc)
    &&& run_start(g, r, c, dr, dc, p)
    &&& run_from(g, r, c, dr, dc, p, 0) >= 5
    &&& forall|i: int|
        0 <= i < run_from(g, r, c, dr, dc, p, 0) ==> !#[trigger] in_capturable_pair(g, r + dr * i, c + dc * i, p)
}

/// Some stone at an offset below `n` of the run from `(r, c)` is in a
/// capturable pair exactly when one of them is.
pub proof fn lemma_run_exposed_some(g: Grid, r: int, c: int, dr: int, dc: int, p: Cell, n: int)
    ensures
        run_exposed(g, r, c, dr, dc, p, n) <==> exists|i: int|
            0 <= i < n && #[trigger] in_capturable_pair(g, r + dr * i, c + dc * i, p),
    decreases n,
{
    if n > 0 {
        lemma_run_exposed_some(g, r, c, dr, dc, p, n - 1);
        if run_exposed(g, r, c, dr, dc, p, n - 1) {
            let i = choose|i: int| 0 <= i < n - 1 && #[trigger] in_capturable_pair(g, r + dr * i, c + dc * i, p);
            assert(0 <= i < n && in_capturable_pair(g, r + dr * i, c + dc * i, p));
        }
        if in_capturable_pair(g, r + dr * (n - 1), c + dc * (n - 1), p) {
            assert(in_capturable_pair(g, r + dr * (n - 1), c + dc * (n - 1), p));
        }
        if exists|i: int| 0 <= i < n && #[trigger] in_capturable_pair(g, r + dr * i, c + dc * i, p) {
            let i = choose|i: int| 0 <= i < n && #[trigger] in_capturable_pair(g, r + dr * i, c + dc * i, p);
            if i < n - 1 {
                assert(exists|j: int| 0 <= j < n - 1 && #[trigger] in_capturable_pair(g, r + dr * j, c + dc * j, p));
            }
        }
    }
}

/// When the side that just moved wins without five captured pairs and
/// without the side to move holding a five, it holds a line of five or more
/// none of whose stones the side to move could capture.
pub proof fn lemma_board_five_win_is_unbreakable(b: SearchBoard)
    requires
        b.current != Cell::Empty,
        b.opponent == b.current.other(),
        winner_of(b) == Some(b.opponent),
        b.captures[b.opponent.slot()] < 5,
    ensures
        exists|r: int, c: int, dr: int, dc: int| #[trigger] unbreakable_five(b.grid(), r, c, dr, dc, b.opponent),
{
    let gr = b.grid();
    let p = b.opponent;
    assert(has_safe_five(gr, p));
    let (r, c, d) = choose|r: int, c: int, d: int|
        0 <= d < 4 && #[trigger] run_start(gr, r, c, crate::search_board::recognize::scan_dir(d).0, crate::search_board::recognize::scan_dir(d).1, p) && run_from(
            gr,
            r,
            c,
            crate::search_board::recognize::scan_dir(d).0,
            crate::search_board::recognize::scan_dir(d).1,
            p,
            0,
        ) >= 5 && !run_exposed(gr, r, c, crate::search_board::recognize::scan_dir(d).0, crate::search_board::recognize::scan_dir(d).1, p, run_from(gr, r, c, crate::search_board::recognize::scan_dir(d).0, crate::search_board::recognize::scan_dir(d).1, p, 0));
    let dr = crate::search_board::recognize::scan_dir(d).0;
    let dc = crate::search_board::recognize::scan_dir(d).1;
    lemma_run_exposed_some(gr, r, c, dr, dc, p, run_from(gr, r, c, dr, dc, p, 0));
    assert(unbreakable_five(gr, r, c, dr, dc, p));
}

/// Winner of the position after a move: `opponent` just moved,
/// `current` moves next.
pub open spec fn winner_of(b: SearchBoard) -> Option<Cell> {
    if b.captures[b.opponent.slot()] >= 5 {
        Some(b.opponent)
    } else if has_five(b.grid(), b.current) {
        Some(b.current)
    } else if has_safe_five(b.grid(), b.opponent) {
        Some(b.opponent)
    } else {
        None
    }
}

/// Bonus for a number of captured pairs.
pub open spec fn capture_bonus(captures: int) -> int {
    if captures == 0 {
        0
    } else if captures == 1 {
        CAPTURE_BONUS_1 as int
    } else if captures == 2 {
        CAPTURE_BONUS_2 as int
    } else if captures == 3 {
        CAPTURE_BONUS_3 as int
    } else {
        // Four or more captures; negative counters also land here.
        if captures < 0 {
            CAPTURE_BONUS_4_PLUS as int
        } else {
            CAPTURE_BONUS_4_PLUS as int
        }
    }
}

/// Weighted sum of one colour's formation counts.
pub open spec fn weighted_sum(pc: PatternCounts) -> int {
    pc.five_rows * WEIGHT_FIVE + pc.open_fours * WEIGHT_OPEN_FOUR + pc.block_fours * WEIGHT_BLOCK_FOUR
        + pc.free_threes * WEIGHT_FREE_THREE + pc.open_threes * WEIGHT_OPEN_THREE + pc.open_twos
        * WEIGHT_OPEN_TWO
}

/// Bonuses for combinations of threats.
pub open spec fn combo_bonus(pc: PatternCounts, captures: int) -> int {
    let threes = pc.open_threes + pc.free_threes;
    (if pc.open_fours >= 2 {
        COMBO_DOUBLE_OPEN_FOUR as int
    } else {
        0
    }) + (if pc.open_fours >= 1 && pc.block_fours >= 1 {
        COMBO_OPEN_AND_BLOCK_FOUR as int
    } else {
        0
    }) + (if pc.block_fours >= 2 {
        COMBO_DOUBLE_BLOCK_FOUR as int
    } else {
        0
    }) + (if pc.open_fours >= 1 && threes >= 1 {
        COMBO_OPEN_FOUR_AND_THREE as int
    } else {
        0
    }) + (if pc.block_fours >= 1 && threes >= 1 {
        COMBO_BLOCK_FOUR_AND_THREE as int
    } else {
        0
    }) + (if threes >= 2 {
        COMBO_DOUBLE_THREE as int
    } else {
        0
    }) + (if captures >= 4 && (pc.block_fours >= 1 || pc.open_fours >= 1) {
        COMBO_CAPTURE_AND_FOUR as int
    } else {
        0
    })
}

/// Bonuses for the side to move.
pub open spec fn tempo_bonus(pc: PatternCounts, captures: int, is_active: bool) -> int {
    (if is_active && pc.open_fours >= 1 {
        TEMPO_OPEN_FOUR as int
    } else {
        0
    }) + (if is_active && pc.block_fours >= 1 {
        TEMPO_BLOCK_FOUR as int
    } else {
        0
    }) + (if is_active && captures >= 4 {
        TEMPO_CAPTURE as int
    } else {
        0
    })
}

/// Score of one colour's formations, captures, combinations and, for the
/// side to move, tempo bonuses.
pub open spec fn score_of(pc: PatternCounts, captures: int, is_active: bool) -> int {
    weighted_sum(pc) + capture_bonus(captures) + combo_bonus(pc, captures) + tempo_bonus(
        pc,
        captures,
        is_active,
    )
}

pub open spec fn clamp(x: int, lo: int, hi: int) -> int {
    if x < lo {
        lo
    } else if x > hi {
        hi
    } else {
        x
    }
}

/// The search board's static evaluation from Black's point of view.
pub open spec fn board_eval(b: SearchBoard) -> int {
    clamp(
        score_of(b.black_patterns, b.captures[1] as int, b.current == Cell::Black) - score_of(
            b.white_patterns,
            b.captures[2] as int,
            b.current == Cell::White,
        ),
        -SB_EVAL_CLAMP as int,
        SB_EVAL_CLAMP as int,
    )
}

/// The search board credits each colour with its own captures: more
/// pairs captured by Black never lower its evaluation.
pub proof fn lemma_board_eval_rises_with_black_captures(b1: SearchBoard, b2: SearchBoard)
    requires
        b1.black_patterns == b2.black_patterns,
        b1.white_patterns == b2.white_patterns,
        b1.current == b2.current,
        b1.captures[2] == b2.captures[2],
        0 <= b1.captures[1] <= b2.captures[1],
    ensures
        board_eval(b1) <= board_eval(b2),
{
}

/// The search board credits each colour with its own captures: more
/// pairs captured by White never raise its evaluation.
pub proof fn lemma_board_eval_falls_with_white_captures(b1: SearchBoard, b2: SearchBoard)
    requires
        b1.black_patterns == b2.black_patterns,
        b1.white_patterns == b2.white_patterns,
        b1.current == b2.current,
        b1.captures[1] == b2.captures[1],
        0 <= b1.captures[2] <= b2.captures[2],
    ensures
        board_eval(b2) <= board_eval(b1),
{
}

impl PatternCounts {
    /// Every counter lies within `[-4000, 4000]`: far beyond any count a
    /// board can hold, and small enough for the score to fit an `i32`.
    pub open spec fn scorable(self) -> bool {
        forall|k: PatternKind| -4000 <= #[trigger] self.count(k) <= 4000
    }

    /// Score of these formations for a colour with `captures` captured pairs;
    /// `is_active` when that colour moves next.
    pub fn score(&self, captures: i32, is_active: bool) -> (s: i32)
        requires
            self.scorable(),
        ensures
            s == score_of(*self, captures as int, is_active),
            -700_000_000 <= s <= 700_000_000,
    {
        let mut score: i32 = self.weighted_sum();
        score += match captures {
            0 => 0,
            1 => CAPTURE_BONUS_1,
            2 => CAPTURE_BONUS_2,
            3 => CAPTURE_BONUS_3,
            4 => CAPTURE_BONUS_4_PLUS,
            _ => CAPTURE_BONUS_4_PLUS,
        };
        score += self.combo_bonus(captures);
        if is_active {
            if self.open_fours >= 1 {
                score += TEMPO_OPEN_FOUR;
            }
            if self.block_fours >= 1 {
                score += TEMPO_BLOCK_FOUR;
            }
            if captures >= 4 {
                score += TEMPO_CAPTURE;
            }
        }
        score
    }

    fn weighted_sum(&self) -> (s: i32)
        requires
            self.scorable(),
        ensures
            s == weighted_sum(*self),
            -4000 * 162_151 <= s <= 4000 * 162_151,
    {
        proof {
            assert(-4000 <= self.count(PatternKind::FiveRow) <= 4000);
            assert(-4000 <= self.count(PatternKind::OpenFour) <= 4000);
            assert(-4000 <= self.count(PatternKind::BlockFour) <= 4000);
            assert(-4000 <= self.count(PatternKind::OpenThree) <= 4000);
            assert(-4000 <= self.count(PatternKind::OpenTwo) <= 4000);
            assert(-4000 <= self.count(PatternKind::FreeThree) <= 4000);
        }
        let mut score: i32 = 0;
        score += self.five_rows * WEIGHT_FIVE;
        score += self.open_fours * WEIGHT_OPEN_FOUR;
        score += self.block_fours * WEIGHT_BLOCK_FOUR;
        score += self.free_threes * WEIGHT_FREE_THREE;
        score += self.open_threes * WEIGHT_OPEN_THREE;
        score += self.open_twos * WEIGHT_OPEN_TWO;
        score
    }

    fn combo_bonus(&self, captures: i32) -> (s: i32)
        requires
            self.scorable(),
        ensures
            s == combo_bonus(*self, captures as int),
            0 <= s <= 200_000,
    {
        proof {
            assert(-4000 <= self.count(PatternKind::OpenThree) <= 4000);
            assert(-4000 <= self.count(PatternKind::FreeThree) <= 4000);
        }
        let mut score: i32 = 0;
        let total_threes = self.open_threes + self.free_threes;
        if self.open_fours >= 2 {
            score += COMBO_DOUBLE_OPEN_FOUR;
        }
        if self.open_fours >= 1 && self.block_fours >= 1 {
            score += COMBO_OPEN_AND_BLOCK_FOUR;
        }
        if self.block_fours >= 2 {
            score += COMBO_DOUBLE_BLOCK_FOUR;
        }
        if self.open_fours >= 1 && total_threes >= 1 {
            score += COMBO_OPEN_FOUR_AND_THREE;
        }
        if self.block_fours >= 1 && total_threes >= 1 {
            score += COMBO_BLOCK_FOUR_AND_THREE;
        }
        if total_threes >= 2 {
            score += COMBO_DOUBLE_THREE;
        }
        if captures >= 4 && (self.block_fours >= 1 || self.open_fours >= 1) {
            score += COMBO_CAPTURE_AND_FOUR;
        }
        score
    }
}

impl SearchBoard {
    /// Consecutive stones of `player` from `(r, c)` in direction `(dr, dc)`,
    /// at most 4.
    pub fn count_stones(&self, r: usize, c: usize, dr: i32, dc: i32, player: Cell) -> (n: i32)
        requires
            r < 19,
            c < 19,
            -1 <= dr <= 1,
            -1 <= dc <= 1,
        ensures
            n == short_run(self.grid(), r as int, c as int, dr as int, dc as int, player, 1),
            0 <= n <= 4,
    {
        let mut count: i32 = 0;
        let mut i: i32 = 1;
        while i < 5
            invariant
                1 <= i <= 5,
                r < 19,
                c < 19,
                -1 <= dr <= 1,
                -1 <= dc <= 1,
                0 <= count == i - 1,
                short_run(self.grid(), r as int, c as int, dr as int, dc as int, player, 1) == count
                    + short_run(self.grid(), r as int, c as int, dr as int, dc as int, player, i as int),
            ensures
                0 <= count <= 4,
                short_run(self.grid(), r as int, c as int, dr as int, dc as int, player, 1) == count,
            decreases 5 - i,
        {
            assert(-4 <= dr * i <= 4 && -4 <= dc * i <= 4) by (nonlinear_arith)
                requires
                    -1 <= dr <= 1,
                    -1 <= dc <= 1,
                    1 <= i <= 4,
            ;
            let nr = r as i32 + dr * i;
            let nc = c as i32 + dc * i;
            if !Self::in_bounds(nr, nc) {
                break;
            }
            if self.cells[nr as usize][nc as usize] == player {
                count += 1;
            } else {
                break;
            }
            i += 1;
        }
        count
    }

    /// Move-ordering score of the empty cell `(r, c)` for `player`.
    pub fn evaluate_position(&self, r: usize, c: usize, player: Cell) -> (s: i32)
        requires
            r < 19,
            c < 19,
        ensures
            s == position_value(self.grid(), r as int, c as int, player, 4),
    {
        let mut score: i32 = 0;
        let mut d: usize = 0;
        while d < 4
            invariant
                0 <= d <= 4,
                r < 19,
                c < 19,
                score == position_value(self.grid(), r as int, c as int, player, d as int),
                0 <= score <= 200_000 * d,
            decreases 4 - d,
        {
            let (dr, dc) = crate::search_board::recognize::scan_dir_at(d);
            let mut count: i32 = 1;
            count += self.count_stones(r, c, dr, dc, player);
            count += self.count_stones(r, c, -dr, -dc, player);
            score += if count >= 5 {
                100_000
            } else if count == 4 {
                10_000
            } else if count == 3 {
                1_000
            } else if count == 2 {
                100
            } else {
                0
            };
            if self.can_capture_at(r, c, dr, dc, player) {
                score += 50_000;
            }
            if self.can_capture_at(r, c, -dr, -dc, player) {
                score += 50_000;
            }
            d += 1;
        }
        score
    }

    /// The side to move may not play `(x0, y0)` if the stone would make free
    /// threes along two or more directions.
    pub fn sb_is_double_three(&self, x0: i32, y0: i32) -> (b: bool)
        requires
            on_board(x0 as int, y0 as int),
        ensures
            b == (free_threes_made(self.grid(), self.current, x0 as int, y0 as int, 4) >= 2),
    {
        let player = self.current;
        let mut free_three_count: i32 = 0;
        let mut d: usize = 0;
        while d < 4
            invariant
                0 <= d <= 4,
                on_board(x0 as int, y0 as int),
                player == self.current,
                free_three_count == free_threes_made(self.grid(), player, x0 as int, y0 as int, d as int),
                free_three_count <= 1,
            decreases 4 - d,
        {
            let (dx, dy) = three_dir_at(d);
            let plus = self.scan_line_as(player, 1, dx, dy, x0, y0);
            let minus = self.scan_line_as(player, -1, dx, dy, x0, y0);
            if classify(&plus, &minus, 1) == Some(PatternKind::FreeThree) {
                free_three_count += 1;
                if free_three_count > 1 {
                    proof {
                        lemma_free_threes_mono(self.grid(), player, x0 as int, y0 as int, d + 1, 4);
                    }
                    return true;
                }
            }
            d += 1;
        }
        false
    }
}

/// The double-three directions, in checking order.
pub fn three_dir_at(d: usize) -> (r: (i32, i32))
    requires
        d < 4,
    ensures
        r.0 as int == three_dir(d as int).0,
        r.1 as int == three_dir(d as int).1,
{
    if d == 0 {
        (1, -1)
    } else if d == 1 {
        (1, 0)
    } else if d == 2 {
        (1, 1)
    } else {
        (0, 1)
    }
}

/// Placing `player` on `(x0, y0)` makes a free three on the line through
/// it with step `(dx, dy)`.
pub open spec fn free_three_on_line(g: Grid, player: Cell, x0: int, y0: int, dx: int, dy: int) -> bool {
    kind_of(ray(g, player, 1, dx, dy, x0, y0), ray(g, player, -1, dx, dy, x0, y0), 1) == Some(
        PatternKind::FreeThree,
    )
}

/// 1 where `b` holds, else 0.
pub open spec fn count_if(b: bool) -> int {
    if b {
        1
    } else {
        0
    }
}

/// The double-three check looks along four distinct lines: no direction is
/// repeated, none is the reverse of another, none is the null step.
pub proof fn lemma_three_dirs_distinct(a: int, b: int)
    requires
        0 <= a < 4,
        0 <= b < 4,
        a != b,
    ensures
        three_dir(a) != three_dir(b),
        three_dir(a) != (-three_dir(b).0, -three_dir(b).1),
        three_dir(a) != (0int, 0int),
{
}

/// A move is counted once for each of the four lines through it (row,
/// column, diagonal and anti-diagonal) on which it makes a free three.
pub proof fn lemma_free_threes_count_lines(g: Grid, player: Cell, x0: int, y0: int)
    ensures
        free_threes_made(g, player, x0, y0, 4) == count_if(free_three_on_line(g, player, x0, y0, 1, 0)) + count_if(
            free_three_on_line(g, player, x0, y0, 0, 1),
        ) + count_if(free_three_on_line(g, player, x0, y0, 1, 1)) + count_if(
            free_three_on_line(g, player, x0, y0, 1, -1),
        ),
{
    reveal_with_fuel(free_threes_made, 5);
}

/// A move that makes a free three on one line only is no double three; one
/// that makes free threes on two lines is.
pub proof fn lemma_double_three_needs_two_lines(g: Grid, player: Cell, x0: int, y0: int)
    ensures
        free_threes_made(g, player, x0, y0, 4) >= 2 <==> count_if(free_three_on_line(g, player, x0, y0, 1, 0))
            + count_if(free_three_on_line(g, player, x0, y0, 0, 1)) + count_if(
            free_three_on_line(g, player, x0, y0, 1, 1),
        ) + count_if(free_three_on_line(g, player, x0, y0, 1, -1)) >= 2,
{
    lemma_free_threes_count_lines(g, player, x0, y0);
}

proof fn lemma_free_threes_mono(g: Grid, player: Cell, x0: int, y0: int, n: int, m: int)
    requires
        0 <= n <= m,
    ensures
        free_threes_made(g, player, x0, y0, n) <= free_threes_made(g, player, x0, y0, m),
    decreases m,
{
    if m > n {
        lemma_free_threes_mono(g, player, x0, y0, n, m - 1);
    }
}

/// No run of five or more starts at `(r, c)` in scan direction `d`.
pub open spec fn no_five_at(g: Grid, p: Cell, r: int, c: int, d: int) -> bool {
    let dr = crate::search_board::recognize::scan_dir(d).0;
    let dc = crate::search_board::recognize::scan_dir(d).1;
    !(run_start(g, r, c, dr, dc, p) && run_from(g, r, c, dr, dc, p, 0) >= 5)
}

/// No safe run of five or more starts at `(r, c)` in scan direction `d`.
pub open spec fn no_safe_five_at(g: Grid, p: Cell, r: int, c: int, d: int) -> bool {
    let dr = crate::search_board::recognize::scan_dir(d).0;
    let dc = crate::search_board::recognize::scan_dir(d).1;
    !(run_start(g, r, c, dr, dc, p) && run_from(g, r, c, dr, dc, p, 0) >= 5 && !run_exposed(
        g,
        r,
        c,
        dr,
        dc,
        p,
        run_from(g, r, c, dr, dc, p, 0),
    ))
}

impl SearchBoard {
    /// Length of the run of `player` starting on the stone at `(r, c)` in
    /// direction `(dr, dc)`.
    fn run_length(&self, r: i32, c: i32, dr: i32, dc: i32, player: Cell) -> (n: i32)
        requires
            on_board(r as int, c as int),
            self.grid()(r as int, c as int) == player,
            -1 <= dr <= 1,
            -1 <= dc <= 1,
            dr != 0 || dc != 0,
        ensures
            n == run_from(self.grid(), r as int, c as int, dr as int, dc as int, player, 0),
            1 <= n <= 19,
    {
        let mut count: i32 = 1;
        let mut nr = r + dr;
        let mut nc = c + dc;
        while Self::in_bounds(nr, nc) && self.get(nr, nc) == player
            invariant
                on_board(r as int, c as int),
                -1 <= dr <= 1,
                -1 <= dc <= 1,
                dr != 0 || dc != 0,
                1 <= count <= 19,
                nr == r + dr * count,
                nc == c + dc * count,
                run_from(self.grid(), r as int, c as int, dr as int, dc as int, player, 0) == count
                    + run_from(self.grid(), r as int, c as int, dr as int, dc as int, player, count as int),
            decreases 19 - count,
        {
            assert(count <= 18) by (nonlinear_arith)
                requires
                    nr == r + dr * count,
                    nc == c + dc * count,
                    0 <= nr < 19,
                    0 <= nc < 19,
                    1 <= count,
                    -1 <= dr <= 1,
                    -1 <= dc <= 1,
                    dr != 0 || dc != 0,
                    0 <= r < 19,
                    0 <= c < 19,
            ;
            count += 1;
            nr += dr;
            nc += dc;
            assert(nr == r + dr * count && nc == c + dc * count) by (nonlinear_arith)
                requires
                    nr == r + dr * (count - 1) + dr,
                    nc == c + dc * (count - 1) + dc,
            ;
        }
        count
    }

    /// `player` has five or more stones in a row anywhere on the board.
    pub fn has_five_in_row(&self, player: Cell) -> (b: bool)
        ensures
            b == has_five(self.grid(), player),
    {
        let mut r: i32 = 0;
        while r < 19
            invariant
                0 <= r <= 19,
                forall|x: int, y: int, d: int|
                    0 <= x < r && 0 <= y < 19 && 0 <= d < 4 ==> #[trigger] no_five_at(self.grid(), player, x, y, d),
            decreases 19 - r,
        {
            let mut c: i32 = 0;
            while c < 19
                invariant
                    0 <= r < 19,
                    0 <= c <= 19,
                    forall|x: int, y: int, d: int|
                        ((0 <= x < r && 0 <= y < 19) || (x == r && 0 <= y < c)) && 0 <= d < 4
                            ==> #[trigger] no_five_at(self.grid(), player, x, y, d),
                decreases 19 - c,
            {
                let mut d: usize = 0;
                while d < 4
                    invariant
                        0 <= r < 19,
                        0 <= c < 19,
                        0 <= d <= 4,
                        forall|x: int, y: int, e: int|
                            (((0 <= x < r && 0 <= y < 19) || (x == r && 0 <= y < c)) && 0 <= e < 4) || (x == r
                                && y == c && 0 <= e < d) ==> #[trigger] no_five_at(self.grid(), player, x, y, e),
                    decreases 4 - d,
                {
                    let (dr, dc) = crate::search_board::recognize::scan_dir_at(d);
                    if self.get(r, c) == player {
                        let pr = r - dr;
                        let pc = c - dc;
                        if !(Self::in_bounds(pr, pc) && self.get(pr, pc) == player) {
                            let count = self.run_length(r, c, dr, dc, player);
                            if count >= 5 {
                                assert(run_start(self.grid(), r as int, c as int, dr as int, dc as int, player));
                                assert(!no_five_at(self.grid(), player, r as int, c as int, d as int));
                                return true;
                            }
                        }
                    }
                    assert(no_five_at(self.grid(), player, r as int, c as int, d as int));
                    d += 1;
                }
                c += 1;
            }
            r += 1;
        }
        assert forall|x: int, y: int, d: int|
            0 <= d < 4 implies !(#[trigger] run_start(
                self.grid(),
                x,
                y,
                crate::search_board::recognize::scan_dir(d).0,
                crate::search_board::recognize::scan_dir(d).1,
                player,
            ) && run_from(
                self.grid(),
                x,
                y,
                crate::search_board::recognize::scan_dir(d).0,
                crate::search_board::recognize::scan_dir(d).1,
                player,
                0,
            ) >= 5) by {
            if on_board(x, y) {
                assert(no_five_at(self.grid(), player, x, y, d));
            }
        }
        false
    }

    /// The stone of `player` on `(x, y)` belongs to a capturable pair.
    pub fn sb_stone_in_capturable_pair(&self, x: i32, y: i32, player: Cell) -> (b: bool)
        requires
            -100 <= x <= 100,
            -100 <= y <= 100,
        ensures
            b == in_capturable_pair(self.grid(), x as int, y as int, player),
    {
        if !Self::in_bounds(x, y) || self.get(x, y) != player {
            return false;
        }
        let opp = player.opponent();
        let mut d: usize = 0;
        while d < 4
            invariant
                0 <= d <= 4,
                on_board(x as int, y as int),
                self.grid()(x as int, y as int) == player,
                opp == player.other(),
                forall|e: int| 0 <= e < d ==> !#[trigger] exposed_along(self.grid(), x as int, y as int, player, e),
            decreases 4 - d,
        {
            let (dx, dy) = crate::search_board::recognize::scan_dir_at(d);
            // (x,y)-(x+dx,y+dy) pair
            let nx = x + dx;
            let ny = y + dy;
            if Self::in_bounds(nx, ny) && self.get(nx, ny) == player {
                let bx = x - dx;
                let by = y - dy;
                let ax = nx + dx;
                let ay = ny + dy;
                if Self::in_bounds(bx, by) && Self::in_bounds(ax, ay) && self.get(bx, by) == opp
                    && self.get(ax, ay) == Cell::Empty {
                    assert(pair_exposed(self.grid(), x as int, y as int, crate::search_board::recognize::scan_dir(d as int).0, crate::search_board::recognize::scan_dir(d as int).1, player));
                    assert(exposed_along(self.grid(), x as int, y as int, player, d as int));
                    return true;
                }
                if Self::in_bounds(bx, by) && Self::in_bounds(ax, ay) && self.get(bx, by) == Cell::Empty
                    && self.get(ax, ay) == opp {
                    assert(pair_exposed(self.grid(), x as int, y as int, crate::search_board::recognize::scan_dir(d as int).0, crate::search_board::recognize::scan_dir(d as int).1, player));
                    assert(exposed_along(self.grid(), x as int, y as int, player, d as int));
                    return true;
                }
            }
            // (x-dx,y-dy)-(x,y) pair
            let px = x - dx;
            let py = y - dy;
            if Self::in_bounds(px, py) && self.get(px, py) == player {
                let bx = px - dx;
                let by = py - dy;
                let ax = x + dx;
                let ay = y + dy;
                if Self::in_bounds(bx, by) && Self::in_bounds(ax, ay) && self.get(bx, by) == opp
                    && self.get(ax, ay) == Cell::Empty {
                    assert(pair_exposed(self.grid(), x - crate::search_board::recognize::scan_dir(d as int).0, y - crate::search_board::recognize::scan_dir(d as int).1, crate::search_board::recognize::scan_dir(d as int).0, crate::search_board::recognize::scan_dir(d as int).1, player));
                    assert(exposed_along(self.grid(), x as int, y as int, player, d as int));
                    return true;
                }
                if Self::in_bounds(bx, by) && Self::in_bounds(ax, ay) && self.get(bx, by) == Cell::Empty
                    && self.get(ax, ay) == opp {
                    assert(pair_exposed(self.grid(), x - crate::search_board::recognize::scan_dir(d as int).0, y - crate::search_board::recognize::scan_dir(d as int).1, crate::search_board::recognize::scan_dir(d as int).0, crate::search_board::recognize::scan_dir(d as int).1, player));
                    assert(exposed_along(self.grid(), x as int, y as int, player, d as int));
                    return true;
                }
            }
            assert(!exposed_along(self.grid(), x as int, y as int, player, d as int));
            d += 1;
        }
        false
    }

    /// `player` has five or more in a row of which no stone can be captured.
    pub fn has_uncapturable_five(&self, player: Cell) -> (b: bool)
        ensures
            b == has_safe_five(self.grid(), player),
    {
        let mut r: i32 = 0;
        while r < 19
            invariant
                0 <= r <= 19,
                forall|x: int, y: int, d: int|
                    0 <= x < r && 0 <= y < 19 && 0 <= d < 4 ==> #[trigger] no_safe_five_at(self.grid(), player, x, y, d),
            decreases 19 - r,
        {
            let mut c: i32 = 0;
            while c < 19
                invariant
                    0 <= r < 19,
                    0 <= c <= 19,
                    forall|x: int, y: int, d: int|
                        ((0 <= x < r && 0 <= y < 19) || (x == r && 0 <= y < c)) && 0 <= d < 4
                            ==> #[trigger] no_safe_five_at(self.grid(), player, x, y, d),
                decreases 19 - c,
            {
                let mut d: usize = 0;
                while d < 4
                    invariant
                        0 <= r < 19,
                        0 <= c < 19,
                        0 <= d <= 4,
                        forall|x: int, y: int, e: int|
                            (((0 <= x < r && 0 <= y < 19) || (x == r && 0 <= y < c)) && 0 <= e < 4) || (x == r
                                && y == c && 0 <= e < d) ==> #[trigger] no_safe_five_at(self.grid(), player, x, y, e),
                    decreases 4 - d,
                {
                    let (dr, dc) = crate::search_board::recognize::scan_dir_at(d);
                    if self.get(r, c) == player {
                        let pr = r - dr;
                        let pc = c - dc;
                        if !(Self::in_bounds(pr, pc) && self.get(pr, pc) == player) {
                            let count = self.run_length(r, c, dr, dc, player);
                            if count >= 5 {
                                let mut any_capturable = false;
                                let mut i: i32 = 0;
                                while i < count
                                    invariant_except_break
                                        !any_capturable,
                                        !run_exposed(self.grid(), r as int, c as int, dr as int, dc as int, player, i as int),
                                    invariant
                                        0 <= i <= count,
                                        5 <= count <= 19,
                                        0 <= r < 19,
                                        0 <= c < 19,
                                        -1 <= dr <= 1,
                                        -1 <= dc <= 1,
                                    ensures
                                        any_capturable == run_exposed(self.grid(), r as int, c as int, dr as int, dc as int, player, count as int),
                                    decreases count - i,
                                {
                                    assert(-19 <= dr * i <= 19 && -19 <= dc * i <= 19) by (nonlinear_arith)
                                        requires
                                            -1 <= dr <= 1,
                                            -1 <= dc <= 1,
                                            0 <= i <= 19,
                                    ;
                                    let sr = r + dr * i;
                                    let sc = c + dc * i;
                                    if self.sb_stone_in_capturable_pair(sr, sc, player) {
                                        any_capturable = true;
                                        proof {
                                            lemma_run_exposed_mono(self.grid(), r as int, c as int, dr as int, dc as int, player, i + 1, count as int);
                                        }
                                        break;
                                    }
                                    i += 1;
                                }
                                if !any_capturable {
                                    assert(run_start(self.grid(), r as int, c as int, dr as int, dc as int, player));
                                    assert(!no_safe_five_at(self.grid(), player, r as int, c as int, d as int));
                                    return true;
                                }
                            }
                        }
                    }
                    assert(no_safe_five_at(self.grid(), player, r as int, c as int, d as int));
                    d += 1;
                }
                c += 1;
            }
            r += 1;
        }
        assert forall|x: int, y: int, d: int|
            0 <= d < 4 implies !(#[trigger] run_start(
                self.grid(),
                x,
                y,
                crate::search_board::recognize::scan_dir(d).0,
                crate::search_board::recognize::scan_dir(d).1,
                player,
            ) && run_from(
                self.grid(),
                x,
                y,
                crate::search_board::recognize::scan_dir(d).0,
                crate::search_board::recognize::scan_dir(d).1,
                player,
                0,
            ) >= 5 && !run_exposed(
                self.grid(),
                x,
                y,
                crate::search_board::recognize::scan_dir(d).0,
                crate::search_board::recognize::scan_dir(d).1,
                player,
                run_from(
                    self.grid(),
                    x,
                    y,
                    crate::search_board::recognize::scan_dir(d).0,
                    crate::search_board::recognize::scan_dir(d).1,
                    player,
                    0,
                ),
            )) by {
            if on_board(x, y) {
                assert(no_safe_five_at(self.grid(), player, x, y, d));
            }
        }
        false
    }

    /// Winner after a move (which already switched sides): `opponent` is who
    /// just moved, `current` who moves next.
    pub fn get_winner(&self) -> (w: Option<Cell>)
        ensures
            w == winner_of(*self),
    {
        if self.captures[self.opponent.index()] >= 5 {
            return Some(self.opponent);
        }
        if self.has_five_in_row(self.current) {
            return Some(self.current);
        }
        if self.has_uncapturable_five(self.opponent) {
            return Some(self.opponent);
        }
        None
    }

    /// The game is over: someone won or the board is full.
    pub fn is_terminal(&self) -> (b: bool)
        ensures
            b == (winner_of(*self).is_some() || self.total_stones >= 361),
    {
        self.get_winner().is_some() || self.total_stones >= 361
    }

    /// Static evaluation from Black's point of view, from the formation counts
    /// the board carries.
    pub fn sb_heuristic_evaluation(&self) -> (v: i32)
        requires
            self.black_patterns.scorable(),
            self.white_patterns.scorable(),
        ensures
            v == board_eval(*self),
    {
        let black_score = self.black_patterns.score(self.captures[1], self.current == Cell::Black);
        let white_score = self.white_patterns.score(self.captures[2], self.current == Cell::White);
        let diff = black_score - white_score;
        if diff < -SB_EVAL_CLAMP {
            -SB_EVAL_CLAMP
        } else if diff > SB_EVAL_CLAMP {
            SB_EVAL_CLAMP
        } else {
            diff
        }
    }
}

proof fn lemma_run_exposed_mono(g: Grid, r: int, c: int, dr: int, dc: int, p: Cell, n: int, m: int)
    requires
        0 <= n <= m,
        run_exposed(g, r, c, dr, dc, p, n),
    ensures
        run_exposed(g, r, c, dr, dc, p, m),
    decreases m,
{
    if m > n {
        lemma_run_exposed_mono(g, r, c, dr, dc, p, n, m - 1);
    }
}

} // verus!
