//! Rules on the search state: legal moves and double threes, fives,
//! capturable pairs, the winner and terminal values.
use vstd::prelude::*;
use crate::search_board::{on_board, Cell, Grid};
use crate::search_board::recognize::{scan_dir, scan_dir_at};
use crate::search_board::rules::run_from;
use crate::search_state::{idx, in_bounds, SearchState};

verus! {

/// What a walk from `(x, y)` in steps of `(sx, sy)` sees, with `fuel` steps
/// left, having met `my` stones of `me` and `emp` empty cells (and a hole
/// once a stone follows an empty cell): it stops off the board, on `opp`, or
/// after the second empty cell.
pub open spec fn three_walk(
    g: Grid,
    x: int,
    y: int,
    sx: int,
    sy: int,
    me: Cell,
    opp: Cell,
    fuel: int,
    my: int,
    emp: int,
    hole: bool,
) -> (int, int, bool)
    decreases fuel,
{
    if fuel <= 0 || !on_board(x, y) || g(x, y) == opp || emp == 2 {
        (my, emp, hole)
    } else if g(x, y) == me {
        three_walk(g, x + sx, y + sy, sx, sy, me, opp, fuel - 1, my + 1, emp, hole || emp > 0)
    } else {
        three_walk(g, x + sx, y + sy, sx, sy, me, opp, fuel - 1, my, emp + 1, hole)
    }
}

/// The walk from the neighbour of `(x0, y0)` in direction `(sx, sy)`
/// (a walk leaves the board within 19 steps).
pub open spec fn three_side(g: Grid, x0: int, y0: int, sx: int, sy: int, me: Cell, opp: Cell) -> (int, int, bool) {
    three_walk(g, x0 + sx, y0 + sy, sx, sy, me, opp, 19, 0, 0, false)
}

/// Playing `(r, c)` makes a free three along scan direction `d`: two more
/// stones and at least three empty cells on the two walks.
pub open spec fn free_three_dir(g: Grid, r: int, c: int, me: Cell, opp: Cell, d: int) -> bool {
    let dx = scan_dir(d).0;
    let dy = scan_dir(d).1;
    let p = three_side(g, r, c, dx, dy, me, opp);
    let m = three_side(g, r, c, -dx, -dy, me, opp);
    p.0 + m.0 == 2 && p.1 + m.1 >= 3
}

/// Number of scan directions `< n` along which `(r, c)` makes a free three.
pub open spec fn free_three_dirs(g: Grid, r: int, c: int, me: Cell, opp: Cell, n: int) -> int
    decreases n,
{
    if n <= 0 {
        0
    } else {
        free_three_dirs(g, r, c, me, opp, n - 1) + if free_three_dir(g, r, c, me, opp, n - 1) {
            1int
        } else {
            0
        }
    }
}

/// Playing `(r, c)` makes a free three on the line with step `(dx, dy)`.
pub open spec fn free_three_line(g: Grid, r: int, c: int, me: Cell, opp: Cell, dx: int, dy: int) -> bool {
    let p = three_side(g, r, c, dx, dy, me, opp);
    let m = three_side(g, r, c, -dx, -dy, me, opp);
    p.0 + m.0 == 2 && p.1 + m.1 >= 3
}

/// 1 where `b` holds, else 0.
pub open spec fn one_if(b: bool) -> int {
    if b {
        1
    } else {
        0
    }
}

/// The free threes of a move are counted once for each of the four lines
/// through it (row, column, diagonal, anti-diagonal): a free three on one
/// line only is no double three, free threes on two lines are.
pub proof fn lemma_free_three_dirs_count_lines(g: Grid, r: int, c: int, me: Cell, opp: Cell)
    ensures
        free_three_dirs(g, r, c, me, opp, 4) == one_if(free_three_line(g, r, c, me, opp, 1, 0)) + one_if(
            free_three_line(g, r, c, me, opp, 0, 1),
        ) + one_if(free_three_line(g, r, c, me, opp, 1, 1)) + one_if(free_three_line(g, r, c, me, opp, 1, -1)),
{
    reveal_with_fuel(free_three_dirs, 5);
}

/// `(r, c)` is a legal move for the side to move of `s`: on the board,
/// empty, and not a double free three.
pub open spec fn valid_move(s: SearchState, r: int, c: int) -> bool {
    &&& on_board(r, c)
    &&& s.grid()(r, c) == Cell::Empty
    &&& free_three_dirs(s.grid(), r, c, s.to_move(), s.to_move().other(), 4) < 2
}

/// A line of five or more stones of `p` passes through `(r, c)` along scan
/// direction `d` (the cell itself counted as one).
pub open spec fn five_along(g: Grid, r: int, c: int, p: Cell, d: int) -> bool {
    let dr = scan_dir(d).0;
    let dc = scan_dir(d).1;
    1 + run_from(g, r, c, dr, dc, p, 1) + run_from(g, r, c, -dr, -dc, p, 1) >= 5
}

pub open spec fn five_through(g: Grid, r: int, c: int, p: Cell) -> bool {
    five_along(g, r, c, p, 0) || five_along(g, r, c, p, 1) || five_along(g, r, c, p, 2) || five_along(
        g,
        r,
        c,
        p,
        3,
    )
}

/// Clamp to `[-1, 1]`.
pub open spec fn unit(v: int) -> int {
    if v > 1 {
        1
    } else if v < -1 {
        -1
    } else {
        v
    }
}

/// The pair `(x0, y0)`-`(x1, y1)` has `opp` on one side and an empty cell on
/// the other, along the line through both.
pub open spec fn pair_capturable(g: Grid, x0: int, y0: int, x1: int, y1: int, opp: Cell) -> bool {
    let dx = unit(x1 - x0);
    let dy = unit(y1 - y0);
    let (lx, ly) = (x0 - dx, y0 - dy);
    let (rx, ry) = (x1 + dx, y1 + dy);
    ||| (on_board(lx, ly) && g(lx, ly) == opp && on_board(rx, ry) && g(rx, ry) == Cell::Empty)
    ||| (on_board(lx, ly) && g(lx, ly) == Cell::Empty && on_board(rx, ry) && g(rx, ry) == opp)
}

/// The stone on `(x, y)` and its neighbour of colour `p` in scan direction
/// `d`, forward or backward, form a capturable pair.
pub open spec fn risk_along(g: Grid, x: int, y: int, p: Cell, d: int) -> bool {
    let dx = scan_dir(d).0;
    let dy = scan_dir(d).1;
    let opp = p.other();
    ||| (on_board(x + dx, y + dy) && g(x + dx, y + dy) == p && pair_capturable(g, x, y, x + dx, y + dy, opp))
    ||| (on_board(x - dx, y - dy) && g(x - dx, y - dy) == p && pair_capturable(g, x - dx, y - dy, x, y, opp))
}

pub open spec fn at_risk(g: Grid, x: int, y: int, p: Cell) -> bool {
    risk_along(g, x, y, p, 0) || risk_along(g, x, y, p, 1) || risk_along(g, x, y, p, 2) || risk_along(
        g,
        x,
        y,
        p,
        3,
    )
}

/// The cells at offsets `< n` from `(r, c)` along `(dr, dc)` hold stones of
/// `p` none of which is at risk.
pub open spec fn window_safe(g: Grid, r: int, c: int, dr: int, dc: int, p: Cell, n: int) -> bool
    decreases n,
{
    if n <= 0 {
        true
    } else {
        let x = r + dr * (n - 1);
        let y = c + dc * (n - 1);
        window_safe(g, r, c, dr, dc, p, n - 1) && on_board(x, y) && g(x, y) == p && !at_risk(g, x, y, p)
    }
}

/// Five stones of `p` in a row from `(r, c)` along scan direction `d`, none
/// of them capturable.
pub open spec fn safe_five_at(g: Grid, r: int, c: int, p: Cell, d: int) -> bool {
    window_safe(g, r, c, scan_dir(d).0, scan_dir(d).1, p, 5)
}

pub open spec fn has_safe_five_window(g: Grid, p: Cell) -> bool {
    exists|r: int, c: int, d: int| on_board(r, c) && 0 <= d < 4 && #[trigger] safe_five_at(g, r, c, p, d)
}

/// The winner after a move (the side to move has switched): Black (`true`)
/// or White (`false`). Five captured pairs win, those of the side that just
/// moved first; then a five through the last move wins for the side that
/// just moved; then a five of the side to move that no capture can break.
pub open spec fn winner(s: SearchState) -> Option<bool> {
    match s.last_move {
        None => None,
        Some(m) => {
            let g = s.grid();
            if s.caps_of(!s.is_black_turn) >= 5 {
                Some(!s.is_black_turn)
            } else if s.caps_of(s.is_black_turn) >= 5 {
                Some(s.is_black_turn)
            } else if five_through(g, m.0 as int, m.1 as int, s.to_move().other()) {
                Some(!s.is_black_turn)
            } else if has_safe_five_window(g, s.to_move()) {
                Some(s.is_black_turn)
            } else {
                None
            }
        },
    }
}

/// Every cell holds a stone.
pub open spec fn board_full(s: SearchState) -> bool {
    forall|i: int| 0 <= i < 361 ==> #[trigger] s.cells[i] != Cell::Empty
}

/// The value of a finished game (Black's view), if it is finished.
pub open spec fn terminal(s: SearchState) -> Option<i32> {
    match winner(s) {
        Some(black) => if black {
            Some(100_000i32)
        } else {
            Some(-100_000i32)
        },
        None => if board_full(s) {
            Some(0i32)
        } else {
            None
        },
    }
}

proof fn lemma_free_three_dirs_mono(g: Grid, r: int, c: int, me: Cell, opp: Cell, n: int, m: int)
    requires
        0 <= n <= m,
    ensures
        0 <= free_three_dirs(g, r, c, me, opp, n) <= free_three_dirs(g, r, c, me, opp, m),
    decreases m,
{
    if m > n {
        lemma_free_three_dirs_mono(g, r, c, me, opp, n, m - 1);
    } else if n > 0 {
        lemma_free_three_dirs_mono(g, r, c, me, opp, n - 1, n - 1);
    }
}

impl SearchState {
    /// Walk from `(x0, y0)` in direction `sign * (dx, dy)`: stones of `me`,
    /// empty cells met, and whether a stone followed an empty cell.
    pub fn count_free_three_dir(&self, sign: i32, dx: i32, dy: i32, x0: i32, y0: i32, me: Cell, opp: Cell) -> (res: (
        i32,
        i32,
        bool,
    ))
        requires
            sign == 1 || sign == -1,
            -1 <= dx <= 1,
            -1 <= dy <= 1,
            dx != 0 || dy != 0,
            on_board(x0 as int, y0 as int),
        ensures
            (res.0 as int, res.1 as int, res.2) == three_side(self.grid(), x0 as int, y0 as int, sign * dx, sign * dy, me, opp),
            0 <= res.0 <= 19,
            0 <= res.1 <= 2,
    {
        let ghost g = self.grid();
        let sx = dx * sign;
        let sy = dy * sign;
        let mut my_count: i32 = 0;
        let mut empty_count: i32 = 0;
        let mut hole = false;
        let mut i: i32 = 1;
        let mut x = x0 + sx;
        let mut y = y0 + sy;
        assert(sx == sign * dx && sy == sign * dy) by (nonlinear_arith)
            requires
                sx == dx * sign,
                sy == dy * sign,
        ;
        loop
            invariant
                1 <= i <= 19,
                g == self.grid(),
                -1 <= sx <= 1,
                -1 <= sy <= 1,
                sx != 0 || sy != 0,
                sx == sign * dx,
                sy == sign * dy,
                on_board(x0 as int, y0 as int),
                x == x0 + sx * i,
                y == y0 + sy * i,
                0 <= my_count < i,
                0 <= empty_count <= 2,
                three_walk(g, x as int, y as int, sx as int, sy as int, me, opp, 20 - i, my_count as int, empty_count as int, hole)
                    == three_side(g, x0 as int, y0 as int, sign * dx, sign * dy, me, opp),
            ensures
                (my_count as int, empty_count as int, hole) == three_side(g, x0 as int, y0 as int, sign * dx, sign * dy, me, opp),
                0 <= my_count <= 19,
                0 <= empty_count <= 2,
            decreases 20 - i,
        {
            if !in_bounds(x, y) || self.get(x, y) == opp || empty_count == 2 {
                break;
            }
            assert(i <= 18) by (nonlinear_arith)
                requires
                    x == x0 + sx * i,
                    y == y0 + sy * i,
                    0 <= x < 19,
                    0 <= y < 19,
                    0 <= x0 < 19,
                    0 <= y0 < 19,
                    1 <= i,
                    -1 <= sx <= 1,
                    -1 <= sy <= 1,
                    sx != 0 || sy != 0,
            ;
            if self.get(x, y) == me {
                if empty_count > 0 {
                    hole = true;
                }
                my_count += 1;
            } else {
                empty_count += 1;
            }
            i += 1;
            x = x + sx;
            y = y + sy;
            assert(x == x0 + sx * i && y == y0 + sy * i) by (nonlinear_arith)
                requires
                    x == x0 + sx * (i - 1) + sx,
                    y == y0 + sy * (i - 1) + sy,
            ;
        }
        (my_count, empty_count, hole)
    }

    /// Placing the side to move on `(row, col)` makes two or more free threes.
    pub fn is_double_three_move(&self, row: i32, col: i32) -> (b: bool)
        requires
            on_board(row as int, col as int),
        ensures
            b == (free_three_dirs(self.grid(), row as int, col as int, self.to_move(), self.to_move().other(), 4) >= 2),
    {
        let ghost g = self.grid();
        let mut free_three_count: i32 = 0;
        let me = self.current_player();
        let opp = self.opponent_player();
        let mut d: usize = 0;
        while d < 4
            invariant
                0 <= d <= 4,
                on_board(row as int, col as int),
                me == self.to_move(),
                opp == me.other(),
                g == self.grid(),
                free_three_count == free_three_dirs(g, row as int, col as int, me, opp, d as int),
                free_three_count <= 1,
            decreases 4 - d,
        {
            let (dx, dy) = scan_dir_at(d);
            let (plus_my, plus_empty, _plus_hole) = self.count_free_three_dir(1, dx, dy, row, col, me, opp);
            let (minus_my, minus_empty, _minus_hole) = self.count_free_three_dir(-1, dx, dy, row, col, me, opp);
            proof {
                assert(1 * dx == dx && 1 * dy == dy && -1 * dx == -dx && -1 * dy == -dy);
            }
            if plus_my + minus_my == 2 && plus_empty + minus_empty >= 3 {
                free_three_count += 1;
                if free_three_count > 1 {
                    proof {
                        lemma_free_three_dirs_mono(g, row as int, col as int, me, opp, d + 1, 4);
                    }
                    return true;
                }
            }
            d += 1;
        }
        false
    }

    /// `(row, col)` is a legal move for the side to move.
    pub fn is_valid_move(&self, row: i32, col: i32) -> (b: bool)
        ensures
            b == valid_move(*self, row as int, col as int),
    {
        if !in_bounds(row, col) {
            return false;
        }
        if self.cells[idx(row as usize, col as usize)] != Cell::Empty {
            return false;
        }
        !self.is_double_three_move(row, col)
    }

    /// Stones of `player` met walking from `(r, c)` in direction `(dr, dc)`,
    /// not counting `(r, c)` itself.
    fn run_beyond(&self, r: i32, c: i32, dr: i32, dc: i32, player: Cell) -> (n: i32)
        requires
            -1000 <= r <= 1000,
            -1000 <= c <= 1000,
            -1 <= dr <= 1,
            -1 <= dc <= 1,
            dr != 0 || dc != 0,
        ensures
            n == run_from(self.grid(), r as int, c as int, dr as int, dc as int, player, 1),
            0 <= n <= 19,
    {
        let ghost g = self.grid();
        let mut count: i32 = 0;
        let mut i: i32 = 1;
        let mut x = r + dr;
        let mut y = c + dc;
        while in_bounds(x, y) && self.get(x, y) == player
            invariant
                1 <= i <= 20,
                g == self.grid(),
                count == i - 1,
                -1000 <= r <= 1000,
                -1000 <= c <= 1000,
                -1 <= dr <= 1,
                -1 <= dc <= 1,
                dr != 0 || dc != 0,
                x == r + dr * i,
                y == c + dc * i,
                i >= 2 ==> on_board(r + dr, c + dc),
                run_from(g, r as int, c as int, dr as int, dc as int, player, 1) == count + run_from(
                    g,
                    r as int,
                    c as int,
                    dr as int,
                    dc as int,
                    player,
                    i as int,
                ),
            decreases 20 - i,
        {
            assert(i <= 19) by (nonlinear_arith)
                requires
                    x == r + dr * i,
                    y == c + dc * i,
                    0 <= x < 19,
                    0 <= y < 19,
                    i >= 2 ==> 0 <= r + dr < 19 && 0 <= c + dc < 19,
                    1 <= i,
                    -1 <= dr <= 1,
                    -1 <= dc <= 1,
                    dr != 0 || dc != 0,
            ;
            count += 1;
            i += 1;
            x = x + dr;
            y = y + dc;
            assert(x == r + dr * i && y == c + dc * i) by (nonlinear_arith)
                requires
                    x == r + dr * (i - 1) + dr,
                    y == c + dc * (i - 1) + dc,
            ;
        }
        count
    }

    /// Five or more stones of `player` in a line through `(row, col)`.
    pub fn has_five_in_a_row_from(&self, row: i32, col: i32, player: Cell) -> (b: bool)
        requires
            -1000 <= row <= 1000,
            -1000 <= col <= 1000,
        ensures
            b == five_through(self.grid(), row as int, col as int, player),
    {
        let mut d: usize = 0;
        while d < 4
            invariant
                0 <= d <= 4,
                -1000 <= row <= 1000,
                -1000 <= col <= 1000,
                forall|e: int| 0 <= e < d ==> !#[trigger] five_along(self.grid(), row as int, col as int, player, e),
            decreases 4 - d,
        {
            let (dx, dy) = scan_dir_at(d);
            let mut count: i32 = 1;
            count += self.run_beyond(row, col, dx, dy, player);
            count += self.run_beyond(row, col, -dx, -dy, player);
            if count >= 5 {
                assert(five_along(self.grid(), row as int, col as int, player, d as int));
                return true;
            }
            d += 1;
        }
        false
    }

    /// The pair `(x0, y0)`-`(x1, y1)` can be captured by `opp`.
    fn is_pair_capturable(&self, x0: i32, y0: i32, x1: i32, y1: i32, _player: Cell, opp: Cell) -> (b: bool)
        requires
            -1000 <= x0 <= 1000,
            -1000 <= y0 <= 1000,
            -1000 <= x1 <= 1000,
            -1000 <= y1 <= 1000,
        ensures
            b == pair_capturable(self.grid(), x0 as int, y0 as int, x1 as int, y1 as int, opp),
    {
        let ddx = x1 - x0;
        let ddy = y1 - y0;
        let dx: i32 = if ddx > 1 { 1 } else if ddx < -1 { -1 } else { ddx };
        let dy: i32 = if ddy > 1 { 1 } else if ddy < -1 { -1 } else { ddy };
        let lx = x0 - dx;
        let ly = y0 - dy;
        let rx = x1 + dx;
        let ry = y1 + dy;
        let pattern_a = in_bounds(lx, ly) && self.get(lx, ly) == opp && in_bounds(rx, ry) && self.get(rx, ry)
            == Cell::Empty;
        let pattern_b = in_bounds(lx, ly) && self.get(lx, ly) == Cell::Empty && in_bounds(rx, ry) && self.get(
            rx,
            ry,
        ) == opp;
        pattern_a || pattern_b
    }

    /// The stone of `player` on `(x, y)` and a neighbour of its colour form a
    /// capturable pair.
    pub fn stone_in_capturable_pair(&self, x: i32, y: i32, player: Cell) -> (b: bool)
        requires
            -100 <= x <= 100,
            -100 <= y <= 100,
        ensures
            b == at_risk(self.grid(), x as int, y as int, player),
    {
        let opp = player.opponent();
        let mut d: usize = 0;
        while d < 4
            invariant
                0 <= d <= 4,
                -100 <= x <= 100,
                -100 <= y <= 100,
                opp == player.other(),
                forall|e: int| 0 <= e < d ==> !#[trigger] risk_along(self.grid(), x as int, y as int, player, e),
            decreases 4 - d,
        {
            let (dx, dy) = scan_dir_at(d);
            let nx = x + dx;
            let ny = y + dy;
            if in_bounds(nx, ny) && self.get(nx, ny) == player {
                if self.is_pair_capturable(x, y, nx, ny, player, opp) {
                    assert(risk_along(self.grid(), x as int, y as int, player, d as int));
                    return true;
                }
            }
            let px = x - dx;
            let py = y - dy;
            if in_bounds(px, py) && self.get(px, py) == player {
                if self.is_pair_capturable(px, py, x, y, player, opp) {
                    assert(risk_along(self.grid(), x as int, y as int, player, d as int));
                    return true;
                }
            }
            assert(!risk_along(self.grid(), x as int, y as int, player, d as int));
            d += 1;
        }
        false
    }

    /// `player` has five stones in a row none of which can be captured.
    pub fn has_uncapturable_five(&self, player: Cell) -> (b: bool)
        ensures
            b == has_safe_five_window(self.grid(), player),
    {
        let ghost g = self.grid();
        let mut row: i32 = 0;
        while row < 19
            invariant
                0 <= row <= 19,
                g == self.grid(),
                forall|x: int, y: int, d: int|
                    0 <= x < row && 0 <= y < 19 && 0 <= d < 4 ==> !#[trigger] safe_five_at(g, x, y, player, d),
            decreases 19 - row,
        {
            let mut col: i32 = 0;
            while col < 19
                invariant
                    0 <= row < 19,
                    0 <= col <= 19,
                    g == self.grid(),
                    forall|x: int, y: int, d: int|
                        ((0 <= x < row && 0 <= y < 19) || (x == row && 0 <= y < col)) && 0 <= d < 4
                            ==> !#[trigger] safe_five_at(g, x, y, player, d),
                decreases 19 - col,
            {
                if self.get(row, col) != player {
                    assert forall|d: int| 0 <= d < 4 implies !#[trigger] safe_five_at(g, row as int, col as int, player, d) by {
                        reveal_with_fuel(window_safe, 5);
                    }
                    col += 1;
                    continue;
                }
                let mut d: usize = 0;
                while d < 4
                    invariant
                        0 <= row < 19,
                        0 <= col < 19,
                        0 <= d <= 4,
                        g == self.grid(),
                        forall|x: int, y: int, e: int|
                            (((0 <= x < row && 0 <= y < 19) || (x == row && 0 <= y < col)) && 0 <= e < 4) || (x
                                == row && y == col && 0 <= e < d) ==> !#[trigger] safe_five_at(g, x, y, player, e),
                    decreases 4 - d,
                {
                    let (dx, dy) = scan_dir_at(d);
                    let mut count: i32 = 0;
                    let mut all_uncapturable = true;
                    let mut i: i32 = 0;
                    while i < 5
                        invariant_except_break
                            all_uncapturable,
                            count == i,
                            window_safe(g, row as int, col as int, dx as int, dy as int, player, i as int),
                        invariant
                            0 <= i <= 5,
                            0 <= row < 19,
                            0 <= col < 19,
                            -1 <= dx <= 1,
                            -1 <= dy <= 1,
                            g == self.grid(),
                        ensures
                            (count == 5 && all_uncapturable) == window_safe(g, row as int, col as int, dx as int, dy as int, player, 5),
                        decreases 5 - i,
                    {
                        assert(-5 <= dx * i <= 5 && -5 <= dy * i <= 5) by (nonlinear_arith)
                            requires
                                -1 <= dx <= 1,
                                -1 <= dy <= 1,
                                0 <= i <= 5,
                        ;
                        let r = row + dx * i;
                        let c = col + dy * i;
                        if !in_bounds(r, c) || self.get(r, c) != player {
                            all_uncapturable = false;
                            proof {
                                lemma_window_safe_mono(g, row as int, col as int, dx as int, dy as int, player, i + 1, 5);
                            }
                            break;
                        }
                        count += 1;
                        if self.stone_in_capturable_pair(r, c, player) {
                            all_uncapturable = false;
                            proof {
                                lemma_window_safe_mono(g, row as int, col as int, dx as int, dy as int, player, i + 1, 5);
                            }
                            break;
                        }
                        i += 1;
                    }
                    if count == 5 && all_uncapturable {
                        assert(safe_five_at(g, row as int, col as int, player, d as int));
                        return true;
                    }
                    d += 1;
                }
                col += 1;
            }
            row += 1;
        }
        assert forall|x: int, y: int, d: int| on_board(x, y) && 0 <= d < 4 implies !#[trigger] safe_five_at(
            g,
            x,
            y,
            player,
            d,
        ) by {}
        false
    }

    /// The winner after a move, if any: `Some(true)` for Black.
    pub fn get_winner(&self) -> (w: Option<bool>)
        ensures
            w == winner(*self),
    {
        let (lrow, lcol) = match self.last_move {
            Some(m) => m,
            None => {
                return None;
            },
        };
        let just_moved = self.opponent_player();
        let just_moved_is_black = !self.is_black_turn;
        let current_is_black = self.is_black_turn;
        if self.captures(just_moved_is_black) >= 5 {
            return Some(just_moved_is_black);
        }
        if self.captures(current_is_black) >= 5 {
            return Some(current_is_black);
        }
        if self.has_five_in_a_row_from(lrow as i32, lcol as i32, just_moved) {
            return Some(just_moved_is_black);
        }
        let current = self.current_player();
        if self.has_uncapturable_five(current) {
            return Some(current_is_black);
        }
        None
    }

    /// Every cell is occupied.
    pub fn is_draw(&self) -> (b: bool)
        ensures
            b == board_full(*self),
    {
        let mut i: usize = 0;
        while i < 361
            invariant
                0 <= i <= 361,
                forall|j: int| 0 <= j < i ==> #[trigger] self.cells[j] != Cell::Empty,
            decreases 361 - i,
        {
            if self.cells[i] == Cell::Empty {
                return false;
            }
            i += 1;
        }
        true
    }

    /// `Some(100000)` if Black has won, `Some(-100000)` if White has,
    /// `Some(0)` on a full board, `None` otherwise.
    pub fn terminal_value(&self) -> (v: Option<i32>)
        ensures
            v == terminal(*self),
    {
        if let Some(winner_is_black) = self.get_winner() {
            if winner_is_black {
                return Some(100_000);
            } else {
                return Some(-100_000);
            }
        }
        if self.is_draw() {
            return Some(0);
        }
        None
    }
}

proof fn lemma_window_safe_mono(g: Grid, r: int, c: int, dr: int, dc: int, p: Cell, n: int, m: int)
    requires
        0 <= n <= m,
        !window_safe(g, r, c, dr, dc, p, n),
    ensures
        !window_safe(g, r, c, dr, dc, p, m),
    decreases m,
{
    if m > n {
        lemma_window_safe_mono(g, r, c, dr, dc, p, n, m - 1);
    }
}

} // verus!
