//! Threat-aware move scoring on the search state: line scans through a
//! candidate cell for both colours, a priority ladder of wins, blocks,
//! forks and captures, and the ordered list of candidate moves.
use vstd::prelude::*;
use crate::search_board::{on_board, Cell, Grid};
use crate::search_board::moves::{all_dir, all_dir_at};
use crate::search_board::recognize::{scan_dir, scan_dir_at};
use crate::search_board::rules::{line_value, short_run};
use crate::search_board::ordering::{close, near_before, near_stone};
use crate::search_state::{idx, in_bounds, SearchState};
use crate::search_state::rules::valid_move;
use crate::sorting::{arranged, stable_order, stably_sorted};

verus! {

/// State of the walk along one side of a candidate cell: stones counted
/// for each colour, open ends, whether a one-cell gap was crossed on this side, stones
/// next to the cell, and which colours are still being followed.
pub struct ScanState {
    pub mc: int,
    pub mo: int,
    pub mgap: bool,
    pub mrun: int,
    pub oc: int,
    pub oo: int,
    pub ogap: bool,
    pub orun: int,
    pub my_active: bool,
    pub my_consec: bool,
    pub opp_active: bool,
    pub opp_consec: bool,
}

pub open spec fn scan_init() -> ScanState {
    ScanState {
        mc: 0,
        mo: 0,
        mgap: false,
        mrun: 0,
        oc: 0,
        oo: 0,
        ogap: false,
        orun: 0,
        my_active: true,
        my_consec: true,
        opp_active: true,
        opp_consec: true,
    }
}

/// How one colour's walk treats an empty cell: a first empty cell followed
/// by a stone of the colour is crossed as a gap; otherwise it is an open end
/// and the walk stops. Returns (open ends, gap, active, consecutive).
pub open spec fn empty_step(active: bool, open: int, gap: bool, consec: bool, next_same: bool) -> (int, bool, bool, bool) {
    if !active {
        (open, gap, active, consec)
    } else if !gap {
        if next_same {
            (open, true, true, false)
        } else {
            (open + 1, gap, false, false)
        }
    } else {
        (open + 1, gap, false, consec)
    }
}

/// One step of the walk at `(x, y)`, looking one cell further along `(dx, dy)`.
pub open spec fn scan_step(g: Grid, me: Cell, opp: Cell, x: int, y: int, dx: int, dy: int, st: ScanState) -> ScanState {
    let cell = g(x, y);
    if cell == me {
        ScanState {
            mc: if st.my_active { st.mc + 1 } else { st.mc },
            mrun: if st.my_active && st.my_consec { st.mrun + 1 } else { st.mrun },
            opp_active: false,
            ..st
        }
    } else if cell == opp {
        ScanState {
            oc: if st.opp_active { st.oc + 1 } else { st.oc },
            orun: if st.opp_active && st.opp_consec { st.orun + 1 } else { st.orun },
            my_active: false,
            ..st
        }
    } else {
        let next_me = on_board(x + dx, y + dy) && g(x + dx, y + dy) == me;
        let next_opp = on_board(x + dx, y + dy) && g(x + dx, y + dy) == opp;
        let m = empty_step(st.my_active, st.mo, st.mgap, st.my_consec, next_me);
        let o = empty_step(st.opp_active, st.oo, st.ogap, st.opp_consec, next_opp);
        ScanState {
            mo: m.0,
            mgap: m.1,
            my_active: m.2,
            my_consec: m.3,
            oo: o.0,
            ogap: o.1,
            opp_active: o.2,
            opp_consec: o.3,
            ..st
        }
    }
}

/// The walk from `(x, y)` on, while a colour is followed and the cell is on
/// the board, with at most `fuel` steps.
pub open spec fn scan_walk(g: Grid, me: Cell, opp: Cell, x: int, y: int, dx: int, dy: int, st: ScanState, fuel: int) -> ScanState
    decreases fuel,
{
    if fuel <= 0 || !(st.my_active || st.opp_active) || !on_board(x, y) {
        st
    } else {
        scan_walk(g, me, opp, x + dx, y + dy, dx, dy, scan_step(g, me, opp, x, y, dx, dy, st), fuel - 1)
    }
}

/// Arguments of a line scan that the `i32` walk can take: a direction that
/// moves, and every step from the cell and from the board kept in range.
pub open spec fn line_args_fit(row: int, col: int, dr: int, dc: int) -> bool {
    &&& dr != 0 || dc != 0
    &&& i32::MIN <= row - dr && row + dr <= i32::MAX
    &&& i32::MIN <= row + dr && row - dr <= i32::MAX
    &&& i32::MIN <= col - dc && col + dc <= i32::MAX
    &&& i32::MIN <= col + dc && col - dc <= i32::MAX
    &&& -(i32::MAX - 19) <= dr <= i32::MAX - 19
    &&& -(i32::MAX - 19) <= dc <= i32::MAX - 19
}

/// The walk along one side of `(r, c)` (it leaves the board within 20 steps).
pub open spec fn side_scan(g: Grid, me: Cell, opp: Cell, r: int, c: int, dr: int, dc: int) -> ScanState {
    scan_walk(g, me, opp, r + dr, c + dc, dr, dc, scan_init(), 20)
}

/// Both sides of `(r, c)` along `(dr, dc)`, the cell counted for each colour:
/// stones of `me` (across at most one gap per side), its open ends, whether
/// the pattern has exactly one internal gap (a gap crossed on one side and
/// not on the other), its stones in a row through the cell; the same for
/// `opp`.
pub open spec fn line_both(g: Grid, me: Cell, opp: Cell, r: int, c: int, dr: int, dc: int) -> (
    int,
    int,
    bool,
    int,
    int,
    int,
    bool,
    int,
) {
    let p = side_scan(g, me, opp, r, c, dr, dc);
    let n = side_scan(g, me, opp, r, c, -dr, -dc);
    (
        1 + p.mc + n.mc,
        p.mo + n.mo,
        p.mgap != n.mgap,
        1 + p.mrun + n.mrun,
        1 + p.oc + n.oc,
        p.oo + n.oo,
        p.ogap != n.ogap,
        1 + p.orun + n.orun,
    )
}

/// The walk state with the two colours' halves exchanged.
pub open spec fn swapped(st: ScanState) -> ScanState {
    ScanState {
        mc: st.oc,
        mo: st.oo,
        mgap: st.ogap,
        mrun: st.orun,
        oc: st.mc,
        oo: st.mo,
        ogap: st.mgap,
        orun: st.mrun,
        my_active: st.opp_active,
        my_consec: st.opp_consec,
        opp_active: st.my_active,
        opp_consec: st.my_consec,
    }
}

/// Walking with the colours exchanged exchanges the halves of the state.
proof fn lemma_scan_walk_swap(g: Grid, me: Cell, opp: Cell, x: int, y: int, dx: int, dy: int, st: ScanState, fuel: int)
    requires
        me != opp,
    ensures
        scan_walk(g, opp, me, x, y, dx, dy, swapped(st), fuel) == swapped(scan_walk(g, me, opp, x, y, dx, dy, st, fuel)),
    decreases fuel,
{
    if fuel > 0 && (st.my_active || st.opp_active) && on_board(x, y) {
        assert(scan_step(g, opp, me, x, y, dx, dy, swapped(st)) == swapped(scan_step(g, me, opp, x, y, dx, dy, st)));
        lemma_scan_walk_swap(g, me, opp, x + dx, y + dy, dx, dy, scan_step(g, me, opp, x, y, dx, dy, st), fuel - 1);
    }
}

/// The scan of a line is symmetric: exchanging the two colours exchanges
/// the two halves of the result, and reversing the direction changes
/// nothing.
pub proof fn lemma_line_both_symmetric(g: Grid, me: Cell, opp: Cell, r: int, c: int, dr: int, dc: int)
    requires
        me != opp,
    ensures
        ({
            let a = line_both(g, me, opp, r, c, dr, dc);
            let b = line_both(g, opp, me, r, c, dr, dc);
            b == (a.4, a.5, a.6, a.7, a.0, a.1, a.2, a.3)
        }),
        line_both(g, me, opp, r, c, -dr, -dc) == line_both(g, me, opp, r, c, dr, dc),
{
    assert(swapped(scan_init()) == scan_init());
    lemma_scan_walk_swap(g, me, opp, r + dr, c + dc, dr, dc, scan_init(), 20);
    lemma_scan_walk_swap(g, me, opp, r - dr, c - dc, -dr, -dc, scan_init(), 20);
    assert(-(-dr) == dr && -(-dc) == dc);
}

/// Threats a move makes and blocks, summed over directions.
pub struct Threats {
    pub my_five: bool,
    pub opp_five: bool,
    pub my_open4: int,
    pub opp_open4: int,
    pub my_closed4: int,
    pub opp_closed4: int,
    pub my_open3: int,
    pub opp_open3: int,
    pub my_closed3: int,
    pub opp_closed3: int,
    pub my_two: int,
    pub my_dev: int,
    pub opp_dev: int,
}

pub open spec fn one_if(b: bool) -> int {
    if b {
        1
    } else {
        0
    }
}

/// `t` with the threats of one direction's line scan `l` added.
pub open spec fn add_line(t: Threats, l: (int, int, bool, int, int, int, bool, int)) -> Threats {
    let (mc, mo, mgap, mcon, oc, oo, ogap, ocon) = l;
    Threats {
        my_five: t.my_five || mcon >= 5,
        opp_five: t.opp_five || ocon >= 5,
        my_open4: t.my_open4 + one_if(mcon < 5 && mc >= 5 && mgap) + one_if(mc == 4 && mo == 2),
        opp_open4: t.opp_open4 + one_if(ocon < 5 && oc >= 5 && ogap) + one_if(oc == 4 && oo == 2),
        my_closed4: t.my_closed4 + one_if(mc == 4 && mo == 1),
        opp_closed4: t.opp_closed4 + one_if(oc == 4 && oo == 1),
        my_open3: t.my_open3 + one_if(mc == 3 && mo == 2),
        opp_open3: t.opp_open3 + one_if(oc == 3 && oo == 2),
        my_closed3: t.my_closed3 + one_if(mc == 3 && mo == 1),
        opp_closed3: t.opp_closed3 + one_if(oc == 3 && oo == 1),
        my_two: t.my_two + (if mc == 2 {
            if mo == 2 {
                500int
            } else if mo == 1 {
                150
            } else {
                0
            }
        } else {
            0
        }) + (if oc == 2 && oo == 2 {
            200int
        } else {
            0
        }),
        my_dev: t.my_dev + one_if(mc >= 2 && mo >= 1),
        opp_dev: t.opp_dev + one_if(oc >= 2 && oo >= 1),
    }
}

pub open spec fn no_threats() -> Threats {
    Threats {
        my_five: false,
        opp_five: false,
        my_open4: 0,
        opp_open4: 0,
        my_closed4: 0,
        opp_closed4: 0,
        my_open3: 0,
        opp_open3: 0,
        my_closed3: 0,
        opp_closed3: 0,
        my_two: 0,
        my_dev: 0,
        opp_dev: 0,
    }
}

/// Threats of `(r, c)` over the scan directions `< n`.
pub open spec fn threats_upto(g: Grid, me: Cell, opp: Cell, r: int, c: int, n: int) -> Threats
    decreases n,
{
    if n <= 0 {
        no_threats()
    } else {
        add_line(
            threats_upto(g, me, opp, r, c, n - 1),
            line_both(g, me, opp, r, c, scan_dir(n - 1).0, scan_dir(n - 1).1),
        )
    }
}

/// `player` on `(r, c)` brackets an opposing pair in direction `(dx, dy)`.
pub open spec fn brackets(g: Grid, r: int, c: int, dx: int, dy: int, player: Cell) -> bool {
    &&& on_board(r + dx, c + dy)
    &&& on_board(r + 2 * dx, c + 2 * dy)
    &&& on_board(r + 3 * dx, c + 3 * dy)
    &&& g(r + dx, c + dy) == player.other()
    &&& g(r + 2 * dx, c + 2 * dy) == player.other()
    &&& g(r + 3 * dx, c + 3 * dy) == player
}

/// Captures `player` would make on `(r, c)`, over the neighbour directions `< n`.
pub open spec fn captures_at(g: Grid, r: int, c: int, player: Cell, n: int) -> int
    decreases n,
{
    if n <= 0 {
        0
    } else {
        captures_at(g, r, c, player, n - 1) + one_if(brackets(g, r, c, all_dir(n - 1).0, all_dir(n - 1).1, player))
    }
}

/// Placing `player` on `(r, c)` leaves the new stone and its neighbour in
/// direction `(dx, dy)` between an opposing stone behind and an empty cell beyond.
pub open spec fn exposes(g: Grid, r: int, c: int, dx: int, dy: int, player: Cell) -> bool {
    &&& on_board(r - dx, c - dy)
    &&& on_board(r + dx, c + dy)
    &&& on_board(r + 2 * dx, c + 2 * dy)
    &&& g(r - dx, c - dy) == player.other()
    &&& g(r + dx, c + dy) == player
    &&& g(r + 2 * dx, c + 2 * dy) == Cell::Empty
}

/// Pairs the move would expose, over the neighbour directions `< n`, each
/// direction checked forward and backward.
pub open spec fn exposures(g: Grid, r: int, c: int, player: Cell, n: int) -> int
    decreases n,
{
    if n <= 0 {
        0
    } else {
        let d = all_dir(n - 1);
        exposures(g, r, c, player, n - 1) + one_if(exposes(g, r, c, d.0, d.1, player)) + one_if(
            exposes(g, r, c, -d.0, -d.1, player),
        )
    }
}

/// Neighbours of colour `me` along the scan directions `< n`, both ways.
pub open spec fn neighbours(g: Grid, r: int, c: int, me: Cell, n: int) -> int
    decreases n,
{
    if n <= 0 {
        0
    } else {
        let d = scan_dir(n - 1);
        neighbours(g, r, c, me, n - 1) + one_if(on_board(r - d.0, c - d.1) && g(r - d.0, c - d.1) == me)
            + one_if(on_board(r + d.0, c + d.1) && g(r + d.0, c + d.1) == me)
    }
}

/// Base value of a capturing move: by captured pairs after it, `total`.
pub open spec fn capture_base(total: int, held: int) -> int {
    if total >= 5 {
        890_000
    } else if total == 4 {
        850_000
    } else if total == 3 {
        842_000
    } else if held >= 1 {
        812_000
    } else {
        805_000
    }
}

/// Base value of a move that blocks a capture, by the opponent's pairs.
pub open spec fn block_base(opp_caps: int) -> int {
    if opp_caps >= 3 {
        855_000
    } else if opp_caps == 2 {
        845_000
    } else if opp_caps == 1 {
        825_000
    } else {
        815_000
    }
}

/// Penalty per exposed pair, by the opponent's captured pairs.
pub open spec fn exposure_weight(opp_caps: int) -> int {
    if opp_caps >= 3 {
        150_000
    } else if opp_caps == 2 {
        80_000
    } else if opp_caps == 1 {
        40_000
    } else {
        20_000
    }
}

pub open spec fn abs_int(v: int) -> int {
    if v < 0 {
        -v
    } else {
        v
    }
}

/// Value of a quiet move: near the centre, next to own stones, developing
/// own lines or disrupting the opponent's, less exposed pairs; never below 0.
pub open spec fn quiet_score(s: SearchState, r: int, c: int, t: Threats) -> int {
    let g = s.grid();
    let me = s.to_move();
    let penalty = exposures(g, r, c, me, 8) * exposure_weight(s.caps_of(!s.is_black_turn) as int);
    let center_bonus = (18 - (abs_int(r - 9) + abs_int(c - 9))) * 25;
    let proximity = 200 * neighbours(g, r, c, me, 4);
    let development = if t.my_dev <= 1 {
        0int
    } else if t.my_dev == 2 {
        50_000
    } else {
        100_000
    };
    let disruption = if t.opp_dev <= 1 {
        0int
    } else if t.opp_dev == 2 {
        30_000
    } else {
        80_000
    };
    let total = center_bonus + proximity + t.my_two + development + disruption - penalty;
    if total > 0 {
        total
    } else {
        0
    }
}

/// The ordering value of the side to move playing `(r, c)`: immediate
/// wins, capture wins, forks, open fours, blocks, capture urgency, threes,
/// captures, then quiet moves.
pub open spec fn move_score(s: SearchState, r: int, c: int) -> int {
    let g = s.grid();
    let me = s.to_move();
    let opp = me.other();
    let t = threats_upto(g, me, opp, r, c, 4);
    let my_fours = t.my_open4 + t.my_closed4;
    let opp_fours = t.opp_open4 + t.opp_closed4;
    let my_cap = captures_at(g, r, c, me, 8);
    let my_caps = s.caps_of(s.is_black_turn) as int;
    let opp_cap = captures_at(g, r, c, opp, 8);
    let opp_caps = s.caps_of(!s.is_black_turn) as int;
    if t.my_five {
        900_000
    } else if t.opp_five {
        895_000
    } else if my_cap > 0 && my_caps + my_cap >= 5 {
        890_000
    } else if opp_cap > 0 && opp_caps + opp_cap >= 5 {
        885_000
    } else if my_fours >= 2 {
        880_000
    } else if my_fours >= 1 && t.my_open3 >= 1 {
        878_000
    } else if t.my_open4 >= 1 {
        870_000
    } else if opp_fours >= 2 {
        868_000
    } else if opp_fours >= 1 && t.opp_open3 >= 1 {
        866_000
    } else if t.opp_open4 >= 1 {
        860_000
    } else if opp_cap > 0 && opp_caps >= 3 {
        855_000
    } else if opp_cap > 0 && opp_caps >= 2 {
        845_000
    } else if t.my_open3 >= 2 {
        840_000
    } else if t.opp_open3 >= 2 {
        838_000
    } else if t.my_closed4 >= 1 {
        830_000
    } else if t.opp_closed4 >= 1 {
        820_000
    } else if t.my_open3 >= 1 {
        810_000
    } else if t.opp_open3 >= 1 {
        800_000
    } else if t.my_closed3 >= 1 {
        795_000
    } else if t.opp_closed3 >= 1 {
        790_000
    } else if my_cap > 0 {
        capture_base(my_caps + my_cap, my_caps) + my_cap * 1_000
    } else if opp_cap > 0 {
        block_base(opp_caps) + opp_cap * 1_000
    } else {
        quiet_score(s, r, c, t)
    }
}

/// Ordering value of `(r, c)` for `player` along scan direction `d`: the
/// line of up to four stones on each side, and captures both ways.
pub open spec fn position_dir_value(g: Grid, r: int, c: int, player: Cell, d: int) -> int {
    let dr = scan_dir(d).0;
    let dc = scan_dir(d).1;
    let count = 1 + short_run(g, r, c, dr, dc, player, 1) + short_run(g, r, c, -dr, -dc, player, 1);
    line_value(count) + 50_000 * one_if(brackets(g, r, c, dr, dc, player)) + 50_000 * one_if(
        brackets(g, r, c, -dr, -dc, player),
    )
}

/// Ordering value of `(r, c)` for `player` over the scan directions `< n`.
pub open spec fn position_score(g: Grid, r: int, c: int, player: Cell, n: int) -> int
    decreases n,
{
    if n <= 0 {
        0
    } else {
        position_score(g, r, c, player, n - 1) + position_dir_value(g, r, c, player, n - 1)
    }
}

impl SearchState {
    /// `player` on `(row, col)` brackets an opposing pair in direction `(dx, dy)`.
    pub fn can_capture(&self, row: usize, col: usize, dx: i32, dy: i32, player: Cell) -> (b: bool)
        requires
            i32::MIN + 3 <= row as i32 <= i32::MAX - 3,
            i32::MIN + 3 <= col as i32 <= i32::MAX - 3,
            -1 <= dx <= 1,
            -1 <= dy <= 1,
        ensures
            b == brackets(self.grid(), (row as i32) as int, (col as i32) as int, dx as int, dy as int, player),
    {
        let opp = player.opponent();
        let r1 = row as i32 + dx;
        let c1 = col as i32 + dy;
        let r2 = row as i32 + 2 * dx;
        let c2 = col as i32 + 2 * dy;
        let r3 = row as i32 + 3 * dx;
        let c3 = col as i32 + 3 * dy;
        in_bounds(r1, c1) && in_bounds(r2, c2) && in_bounds(r3, c3) && self.get(r1, c1) == opp && self.get(r2, c2)
            == opp && self.get(r3, c3) == player
    }

    /// How many pairs `player` would capture by playing `(row, col)`.
    pub fn count_captures_at(&self, row: i32, col: i32, player: Cell) -> (n: i32)
        requires
            0 <= row <= 1000,
            0 <= col <= 1000,
        ensures
            n == captures_at(self.grid(), row as int, col as int, player, 8),
            0 <= n <= 8,
    {
        let mut count: i32 = 0;
        let mut d: usize = 0;
        while d < 8
            invariant
                0 <= d <= 8,
                0 <= row <= 1000,
                0 <= col <= 1000,
                count == captures_at(self.grid(), row as int, col as int, player, d as int),
                0 <= count <= d,
            decreases 8 - d,
        {
            let (dx, dy) = all_dir_at(d);
            if self.can_capture(row as usize, col as usize, dx, dy, player) {
                count += 1;
            }
            d += 1;
        }
        count
    }

    /// How many pairs of `player` playing `(row, col)` would expose to capture.
    pub fn count_vulnerability_at(&self, row: i32, col: i32, player: Cell) -> (n: i32)
        requires
            -1000 <= row <= 1000,
            -1000 <= col <= 1000,
        ensures
            n == exposures(self.grid(), row as int, col as int, player, 8),
            0 <= n <= 16,
    {
        let opp = player.opponent();
        let mut vuln: i32 = 0;
        let mut d: usize = 0;
        while d < 8
            invariant
                0 <= d <= 8,
                -1000 <= row <= 1000,
                -1000 <= col <= 1000,
                opp == player.other(),
                vuln == exposures(self.grid(), row as int, col as int, player, d as int),
                0 <= vuln <= 2 * d,
            decreases 8 - d,
        {
            let (dx, dy) = all_dir_at(d);
            {
                let r1 = row - dx;
                let c1 = col - dy;
                let r2 = row + dx;
                let c2 = col + dy;
                let r3 = row + 2 * dx;
                let c3 = col + 2 * dy;
                if in_bounds(r1, c1) && in_bounds(r2, c2) && in_bounds(r3, c3) && self.get(r1, c1) == opp
                    && self.get(r2, c2) == player && self.get(r3, c3) == Cell::Empty {
                    vuln += 1;
                }
            }
            {
                let r1 = row + dx;
                let c1 = col + dy;
                let r2 = row - dx;
                let c2 = col - dy;
                let r3 = row - 2 * dx;
                let c3 = col - 2 * dy;
                if in_bounds(r1, c1) && in_bounds(r2, c2) && in_bounds(r3, c3) && self.get(r1, c1) == opp
                    && self.get(r2, c2) == player && self.get(r3, c3) == Cell::Empty {
                    vuln += 1;
                }
            }
            d += 1;
        }
        vuln
    }

    /// The walk along one side of `(row, col)` in direction `(dr, dc)`.
    fn scan_side(&self, me: Cell, opp: Cell, row: i32, col: i32, dr: i32, dc: i32) -> (res: (
        i32,
        i32,
        bool,
        i32,
        i32,
        i32,
        bool,
        i32,
    ))
        requires
            line_args_fit(row as int, col as int, dr as int, dc as int),
        ensures
            res.0 == side_scan(self.grid(), me, opp, row as int, col as int, dr as int, dc as int).mc,
            res.1 == side_scan(self.grid(), me, opp, row as int, col as int, dr as int, dc as int).mo,
            res.2 == side_scan(self.grid(), me, opp, row as int, col as int, dr as int, dc as int).mgap,
            res.3 == side_scan(self.grid(), me, opp, row as int, col as int, dr as int, dc as int).mrun,
            res.4 == side_scan(self.grid(), me, opp, row as int, col as int, dr as int, dc as int).oc,
            res.5 == side_scan(self.grid(), me, opp, row as int, col as int, dr as int, dc as int).oo,
            res.6 == side_scan(self.grid(), me, opp, row as int, col as int, dr as int, dc as int).ogap,
            res.7 == side_scan(self.grid(), me, opp, row as int, col as int, dr as int, dc as int).orun,
            0 <= res.0 <= 19,
            0 <= res.1 <= 1,
            0 <= res.3 <= 19,
            0 <= res.4 <= 19,
            0 <= res.5 <= 1,
            0 <= res.7 <= 19,
    {
        let ghost g = self.grid();
        let mut mc: i32 = 0;
        let mut mo: i32 = 0;
        let mut mgap = false;
        let mut mrun: i32 = 0;
        let mut oc: i32 = 0;
        let mut oo: i32 = 0;
        let mut ogap = false;
        let mut orun: i32 = 0;
        let mut my_active = true;
        let mut my_consec = true;
        let mut opp_active = true;
        let mut opp_consec = true;
        let mut r = row + dr;
        let mut c = col + dc;
        let mut i: i32 = 1;
        while (my_active || opp_active) && in_bounds(r, c)
            invariant
                1 <= i <= 20,
                g == self.grid(),
                line_args_fit(row as int, col as int, dr as int, dc as int),
                r == row + dr * i,
                c == col + dc * i,
                i >= 2 ==> on_board(row + dr, col + dc),
                0 <= mc < i,
                0 <= mrun < i,
                0 <= oc < i,
                0 <= orun < i,
                0 <= mo <= 1,
                0 <= oo <= 1,
                my_active ==> mo == 0,
                opp_active ==> oo == 0,
                scan_walk(
                    g,
                    me,
                    opp,
                    r as int,
                    c as int,
                    dr as int,
                    dc as int,
                    (ScanState {
                        mc: mc as int,
                        mo: mo as int,
                        mgap: mgap,
                        mrun: mrun as int,
                        oc: oc as int,
                        oo: oo as int,
                        ogap: ogap,
                        orun: orun as int,
                        my_active: my_active,
                        my_consec: my_consec,
                        opp_active: opp_active,
                        opp_consec: opp_consec,
                    }),
                    21 - i,
                ) == side_scan(g, me, opp, row as int, col as int, dr as int, dc as int),
            decreases 20 - i,
        {
            assert(i <= 19) by (nonlinear_arith)
                requires
                    r == row + dr * i,
                    c == col + dc * i,
                    0 <= r < 19,
                    0 <= c < 19,
                    i >= 2 ==> 0 <= row + dr < 19 && 0 <= col + dc < 19,
                    1 <= i,
                    dr != 0 || dc != 0,
            ;
            let cell = self.get(r, c);
            if cell == me {
                if my_active {
                    mc += 1;
                    if my_consec {
                        mrun += 1;
                    }
                }
                if opp_active {
                    opp_active = false;
                }
            } else if cell == opp {
                if opp_active {
                    oc += 1;
                    if opp_consec {
                        orun += 1;
                    }
                }
                if my_active {
                    my_active = false;
                }
            } else {
                let nr = r + dr;
                let nc = c + dc;
                if my_active {
                    if !mgap {
                        my_consec = false;
                        if in_bounds(nr, nc) && self.get(nr, nc) == me {
                            mgap = true;
                        } else {
                            mo += 1;
                            my_active = false;
                        }
                    } else {
                        mo += 1;
                        my_active = false;
                    }
                }
                if opp_active {
                    if !ogap {
                        opp_consec = false;
                        if in_bounds(nr, nc) && self.get(nr, nc) == opp {
                            ogap = true;
                        } else {
                            oo += 1;
                            opp_active = false;
                        }
                    } else {
                        oo += 1;
                        opp_active = false;
                    }
                }
            }
            r += dr;
            c += dc;
            i += 1;
            assert(r == row + dr * i && c == col + dc * i) by (nonlinear_arith)
                requires
                    r == row + dr * (i - 1) + dr,
                    c == col + dc * (i - 1) + dc,
            ;
        }
        (mc, mo, mgap, mrun, oc, oo, ogap, orun)
    }

    /// Scan both colours through the empty cell `(row, col)` along
    /// `(dr, dc)`: stones of `me` counting the cell (across at most one
    /// gap per side), open ends, whether the pattern has exactly one
    /// internal gap, stones in a row through the cell; then the same for
    /// `opp`.
    pub fn count_line_both(&self, me: Cell, opp: Cell, row: i32, col: i32, dr: i32, dc: i32) -> (res: (
        i32,
        i32,
        bool,
        i32,
        i32,
        i32,
        bool,
        i32,
    ))
        requires
            line_args_fit(row as int, col as int, dr as int, dc as int),
        ensures
            (res.0 as int, res.1 as int, res.2, res.3 as int, res.4 as int, res.5 as int, res.6, res.7 as int)
                == line_both(self.grid(), me, opp, row as int, col as int, dr as int, dc as int),
            1 <= res.0 <= 39,
            0 <= res.1 <= 2,
            1 <= res.3 <= 39,
            1 <= res.4 <= 39,
            0 <= res.5 <= 2,
            1 <= res.7 <= 39,
    {
        let p = self.scan_side(me, opp, row, col, dr, dc);
        let n = self.scan_side(me, opp, row, col, -dr, -dc);
        let mc = 1 + p.0 + n.0;
        let mo = p.1 + n.1;
        let m_gap = p.2 != n.2;
        let mc_consec = 1 + p.3 + n.3;
        let oc = 1 + p.4 + n.4;
        let oo = p.5 + n.5;
        let o_gap = p.6 != n.6;
        let oc_consec = 1 + p.7 + n.7;
        (mc, mo, m_gap, mc_consec, oc, oo, o_gap, oc_consec)
    }
}

/// Running totals of the threats of a move, direction by direction.
struct ThreatTally {
    my_five: bool,
    opp_five: bool,
    my_open_four_count: i32,
    opp_open_four_count: i32,
    my_closed_four_count: i32,
    opp_closed_four_count: i32,
    my_open_three_count: i32,
    opp_open_three_count: i32,
    my_closed_three_count: i32,
    opp_closed_three_count: i32,
    my_two_score: i32,
    my_developing_dirs: i32,
    opp_developing_dirs: i32,
}

impl ThreatTally {
    spec fn threats(self) -> Threats {
        Threats {
            my_five: self.my_five,
            opp_five: self.opp_five,
            my_open4: self.my_open_four_count as int,
            opp_open4: self.opp_open_four_count as int,
            my_closed4: self.my_closed_four_count as int,
            opp_closed4: self.opp_closed_four_count as int,
            my_open3: self.my_open_three_count as int,
            opp_open3: self.opp_open_three_count as int,
            my_closed3: self.my_closed_three_count as int,
            opp_closed3: self.opp_closed_three_count as int,
            my_two: self.my_two_score as int,
            my_dev: self.my_developing_dirs as int,
            opp_dev: self.opp_developing_dirs as int,
        }
    }

    /// The totals after `d` directions.
    spec fn bounded(self, d: int) -> bool {
        &&& 0 <= self.my_open_four_count <= 2 * d
        &&& 0 <= self.opp_open_four_count <= 2 * d
        &&& 0 <= self.my_closed_four_count <= d
        &&& 0 <= self.opp_closed_four_count <= d
        &&& 0 <= self.my_open_three_count <= d
        &&& 0 <= self.opp_open_three_count <= d
        &&& 0 <= self.my_closed_three_count <= d
        &&& 0 <= self.opp_closed_three_count <= d
        &&& 0 <= self.my_two_score <= 700 * d
        &&& 0 <= self.my_developing_dirs <= d
        &&& 0 <= self.opp_developing_dirs <= d
    }

    /// Add the threats of one direction's line scan.
    fn add(&mut self, l: (i32, i32, bool, i32, i32, i32, bool, i32), d: Ghost<int>)
        requires
            old(self).bounded(d@),
            0 <= d@ < 4,
        ensures
            final(self).bounded(d@ + 1),
            final(self).threats() == add_line(
                old(self).threats(),
                (l.0 as int, l.1 as int, l.2, l.3 as int, l.4 as int, l.5 as int, l.6, l.7 as int),
            ),
    {
        let (mc, mo, mc_gap, mc_consec, oc, oo, oc_gap, oc_consec) = l;
        let my_gap_four: i32 = if mc_consec < 5 && mc >= 5 && mc_gap { 1 } else { 0 };
        let my_open_four: i32 = if mc == 4 && mo == 2 { 1 } else { 0 };
        let my_closed_four: i32 = if mc == 4 && mo == 1 { 1 } else { 0 };
        let my_open_three: i32 = if mc == 3 && mo == 2 { 1 } else { 0 };
        let my_closed_three: i32 = if mc == 3 && mo == 1 { 1 } else { 0 };
        let my_two: i32 = if mc == 2 {
            if mo == 2 {
                500
            } else if mo == 1 {
                150
            } else {
                0
            }
        } else {
            0
        };
        let opp_gap_four: i32 = if oc_consec < 5 && oc >= 5 && oc_gap { 1 } else { 0 };
        let opp_open_four: i32 = if oc == 4 && oo == 2 { 1 } else { 0 };
        let opp_closed_four: i32 = if oc == 4 && oo == 1 { 1 } else { 0 };
        let opp_open_three: i32 = if oc == 3 && oo == 2 { 1 } else { 0 };
        let opp_closed_three: i32 = if oc == 3 && oo == 1 { 1 } else { 0 };
        let opp_two: i32 = if oc == 2 && oo == 2 { 200 } else { 0 };
        let my_dev: i32 = if mc >= 2 && mo >= 1 { 1 } else { 0 };
        let opp_dev: i32 = if oc >= 2 && oo >= 1 { 1 } else { 0 };
        self.my_five = self.my_five || mc_consec >= 5;
        self.opp_five = self.opp_five || oc_consec >= 5;
        self.my_open_four_count = self.my_open_four_count + my_gap_four + my_open_four;
        self.opp_open_four_count = self.opp_open_four_count + opp_gap_four + opp_open_four;
        self.my_closed_four_count = self.my_closed_four_count + my_closed_four;
        self.opp_closed_four_count = self.opp_closed_four_count + opp_closed_four;
        self.my_open_three_count = self.my_open_three_count + my_open_three;
        self.opp_open_three_count = self.opp_open_three_count + opp_open_three;
        self.my_closed_three_count = self.my_closed_three_count + my_closed_three;
        self.opp_closed_three_count = self.opp_closed_three_count + opp_closed_three;
        self.my_two_score = self.my_two_score + my_two + opp_two;
        self.my_developing_dirs = self.my_developing_dirs + my_dev;
        self.opp_developing_dirs = self.opp_developing_dirs + opp_dev;
    }
}

impl SearchState {
    /// The threats of `(r, c)` over the four scan directions.
    fn threat_tally(&self, me: Cell, opp: Cell, r: i32, c: i32) -> (t: ThreatTally)
        requires
            0 <= r <= 255,
            0 <= c <= 255,
        ensures
            t.bounded(4),
            t.threats() == threats_upto(self.grid(), me, opp, r as int, c as int, 4),
    {
        let ghost g = self.grid();
        let mut t = ThreatTally {
            my_five: false,
            opp_five: false,
            my_open_four_count: 0,
            opp_open_four_count: 0,
            my_closed_four_count: 0,
            opp_closed_four_count: 0,
            my_open_three_count: 0,
            opp_open_three_count: 0,
            my_closed_three_count: 0,
            opp_closed_three_count: 0,
            my_two_score: 0,
            my_developing_dirs: 0,
            opp_developing_dirs: 0,
        };
        let mut d: usize = 0;
        while d < 4
            invariant
                0 <= d <= 4,
                g == self.grid(),
                0 <= r <= 255,
                0 <= c <= 255,
                t.bounded(d as int),
                t.threats() == threats_upto(g, me, opp, r as int, c as int, d as int),
            decreases 4 - d,
        {
            let (dr, dc) = scan_dir_at(d);
            let line = self.count_line_both(me, opp, r, c, dr, dc);
            t.add(line, Ghost(d as int));
            d += 1;
        }
        t
    }

    /// Value of `(r, c)` as a quiet move for the side to move.
    fn quiet_value(&self, r: i32, c: i32, t: &ThreatTally) -> (v: i32)
        requires
            0 <= r <= 255,
            0 <= c <= 255,
            t.bounded(4),
        ensures
            v == quiet_score(*self, r as int, c as int, t.threats()),
            0 <= v <= 200_000,
    {
        let ghost g = self.grid();
        let me = self.current_player();
        let my_two_score = t.my_two_score;
        let my_developing_dirs = t.my_developing_dirs;
        let opp_developing_dirs = t.opp_developing_dirs;
        let vuln = self.count_vulnerability_at(r, c, me);
        let opp_cap_progress = self.captures(!self.is_black_turn) as i32;
        let weight: i32 = if opp_cap_progress >= 3 {
            150_000
        } else if opp_cap_progress == 2 {
            80_000
        } else if opp_cap_progress == 1 {
            40_000
        } else {
            20_000
        };
        assert(0 <= vuln * weight <= 16 * 150_000) by (nonlinear_arith)
            requires
                0 <= vuln <= 16,
                0 <= weight <= 150_000,
        ;
        let vuln_penalty = vuln * weight;

        let center: i32 = 9;
        let dist_r = if r - center < 0 { center - r } else { r - center };
        let dist_c = if c - center < 0 { center - c } else { c - center };
        let center_bonus = (18 - (dist_r + dist_c)) * 25;

        let mut proximity: i32 = 0;
        let mut k: usize = 0;
        while k < 4
            invariant
                0 <= k <= 4,
                g == self.grid(),
                me == self.to_move(),
                0 <= r <= 255,
                0 <= c <= 255,
                proximity == 200 * neighbours(g, r as int, c as int, me, k as int),
                0 <= proximity <= 400 * k,
            decreases 4 - k,
        {
            let (dr, dc) = scan_dir_at(k);
            let nr = r - dr;
            let nc = c - dc;
            if in_bounds(nr, nc) && self.get(nr, nc) == me {
                proximity += 200;
            }
            let nr = r + dr;
            let nc = c + dc;
            if in_bounds(nr, nc) && self.get(nr, nc) == me {
                proximity += 200;
            }
            k += 1;
        }

        let development_bonus: i32 = if my_developing_dirs <= 1 {
            0
        } else if my_developing_dirs == 2 {
            50_000
        } else {
            100_000
        };
        let disruption_bonus: i32 = if opp_developing_dirs <= 1 {
            0
        } else if opp_developing_dirs == 2 {
            30_000
        } else {
            80_000
        };

        let total = center_bonus + proximity + my_two_score + development_bonus + disruption_bonus - vuln_penalty;
        if total > 0 {
            total
        } else {
            0
        }
    }


    /// Threat-aware ordering value of the side to move playing `(row, col)`.
    pub fn score_move(&self, row: u8, col: u8) -> (v: i32)
        ensures
            v == move_score(*self, row as int, col as int),
            0 <= v <= 900_000,
    {
        let ghost g = self.grid();
        let me = self.current_player();
        let opp = self.opponent_player();
        let r = row as i32;
        let c = col as i32;

        let t = self.threat_tally(me, opp, r, c);
        let my_five = t.my_five;
        let opp_five = t.opp_five;
        let my_open_four_count = t.my_open_four_count;
        let opp_open_four_count = t.opp_open_four_count;
        let my_closed_four_count = t.my_closed_four_count;
        let opp_closed_four_count = t.opp_closed_four_count;
        let my_open_three_count = t.my_open_three_count;
        let opp_open_three_count = t.opp_open_three_count;
        let my_closed_three_count = t.my_closed_three_count;
        let opp_closed_three_count = t.opp_closed_three_count;
        let my_two_score = t.my_two_score;
        let my_developing_dirs = t.my_developing_dirs;
        let opp_developing_dirs = t.opp_developing_dirs;

        let my_total_fours = my_open_four_count + my_closed_four_count;
        let opp_total_fours = opp_open_four_count + opp_closed_four_count;

        if my_five {
            return 900_000;
        }
        if opp_five {
            return 895_000;
        }

        let my_cap_count = self.count_captures_at(r, c, me);
        let my_caps = self.captures(self.is_black_turn) as i32;
        if my_cap_count > 0 && my_caps + my_cap_count >= 5 {
            return 890_000;
        }
        let opp_cap_count = self.count_captures_at(r, c, opp);
        let opp_caps = self.captures(!self.is_black_turn) as i32;
        if opp_cap_count > 0 && opp_caps + opp_cap_count >= 5 {
            return 885_000;
        }

        if my_total_fours >= 2 {
            return 880_000;
        }
        if my_total_fours >= 1 && my_open_three_count >= 1 {
            return 878_000;
        }
        if my_open_four_count >= 1 {
            return 870_000;
        }
        if opp_total_fours >= 2 {
            return 868_000;
        }
        if opp_total_fours >= 1 && opp_open_three_count >= 1 {
            return 866_000;
        }
        if opp_open_four_count >= 1 {
            return 860_000;
        }
        if opp_cap_count > 0 && opp_caps >= 3 {
            return 855_000;
        }
        if opp_cap_count > 0 && opp_caps >= 2 {
            return 845_000;
        }
        if my_open_three_count >= 2 {
            return 840_000;
        }
        if opp_open_three_count >= 2 {
            return 838_000;
        }
        if my_closed_four_count >= 1 {
            return 830_000;
        }
        if opp_closed_four_count >= 1 {
            return 820_000;
        }
        if my_open_three_count >= 1 {
            return 810_000;
        }
        if opp_open_three_count >= 1 {
            return 800_000;
        }
        if my_closed_three_count >= 1 {
            return 795_000;
        }
        if opp_closed_three_count >= 1 {
            return 790_000;
        }

        if my_cap_count > 0 {
            let total = my_caps + my_cap_count;
            let base: i32 = if total >= 5 {
                890_000
            } else if total == 4 {
                850_000
            } else if total == 3 {
                842_000
            } else if my_caps >= 1 {
                812_000
            } else {
                805_000
            };
            return base + my_cap_count * 1_000;
        }

        if opp_cap_count > 0 {
            let base: i32 = if opp_caps >= 3 {
                855_000
            } else if opp_caps == 2 {
                845_000
            } else if opp_caps == 1 {
                825_000
            } else {
                815_000
            };
            return base + opp_cap_count * 1_000;
        }

        self.quiet_value(r, c, &t)
    }

    /// Consecutive stones of `player` from `(row, col)` in direction
    /// `(dx, dy)`, not counting the cell, at most 4.
    pub fn count_stones_dir(&self, row: usize, col: usize, dx: i32, dy: i32, player: Cell) -> (n: i32)
        requires
            i32::MIN + 4 <= row as i32 <= i32::MAX - 4,
            i32::MIN + 4 <= col as i32 <= i32::MAX - 4,
            -1 <= dx <= 1,
            -1 <= dy <= 1,
        ensures
            n == short_run(self.grid(), (row as i32) as int, (col as i32) as int, dx as int, dy as int, player, 1),
            0 <= n <= 4,
    {
        let ghost r0 = (row as i32) as int;
        let ghost c0 = (col as i32) as int;
        let mut count: i32 = 0;
        let mut i: i32 = 1;
        while i < 5
            invariant
                1 <= i <= 5,
                count == i - 1,
                r0 == (row as i32) as int,
                c0 == (col as i32) as int,
                i32::MIN + 4 <= r0 <= i32::MAX - 4,
                i32::MIN + 4 <= c0 <= i32::MAX - 4,
                -1 <= dx <= 1,
                -1 <= dy <= 1,
                short_run(self.grid(), r0, c0, dx as int, dy as int, player, 1) == count + short_run(
                    self.grid(),
                    r0,
                    c0,
                    dx as int,
                    dy as int,
                    player,
                    i as int,
                ),
            ensures
                count == short_run(self.grid(), r0, c0, dx as int, dy as int, player, 1),
                0 <= count <= 4,
            decreases 5 - i,
        {
            assert(-4 <= dx * i <= 4 && -4 <= dy * i <= 4) by (nonlinear_arith)
                requires
                    -1 <= dx <= 1,
                    -1 <= dy <= 1,
                    1 <= i <= 4,
            ;
            let r = row as i32 + dx * i;
            let c = col as i32 + dy * i;
            if !in_bounds(r, c) || self.get(r, c) != player {
                break;
            }
            count += 1;
            i += 1;
        }
        count
    }

    /// Ordering value of `(row, col)` for `player`: lines through the cell
    /// and captures it would make.
    pub fn evaluate_position(&self, row: usize, col: usize, player: Cell) -> (v: i32)
        requires
            i32::MIN + 4 <= row as i32 <= i32::MAX - 4,
            i32::MIN + 4 <= col as i32 <= i32::MAX - 4,
        ensures
            v == position_score(self.grid(), (row as i32) as int, (col as i32) as int, player, 4),
            0 <= v <= 800_000,
    {
        let mut score: i32 = 0;
        let mut d: usize = 0;
        while d < 4
            invariant
                0 <= d <= 4,
                i32::MIN + 4 <= row as i32 <= i32::MAX - 4,
                i32::MIN + 4 <= col as i32 <= i32::MAX - 4,
                score == position_score(self.grid(), (row as i32) as int, (col as i32) as int, player, d as int),
                0 <= score <= 200_000 * d,
            decreases 4 - d,
        {
            let (dx, dy) = scan_dir_at(d);
            let mut count: i32 = 1;
            count += self.count_stones_dir(row, col, dx, dy, player);
            count += self.count_stones_dir(row, col, -dx, -dy, player);
            score += if count >= 5 {
                100_000
            } else if count == 4 {
                10_000
            } else if count == 3 {
                1_000
            } else if count == 2 {
                100
            } else {
                0
            };
            if self.can_capture(row, col, dx, dy, player) {
                score += 50_000;
            }
            if self.can_capture(row, col, -dx, -dy, player) {
                score += 50_000;
            }
            d += 1;
        }
        score
    }
}

/// `(x, y)` is a candidate move: near a stone and legal for the side to move.
pub open spec fn is_move_candidate(s: SearchState, x: int, y: int, rad: int) -> bool {
    near_stone(s.grid(), x, y, rad) && valid_move(s, x, y)
}

/// The candidates on the cell indices `< n`, in index order, with their
/// ordering values.
pub open spec fn scored_upto(s: SearchState, rad: int, n: int) -> Seq<(u8, u8, i32)>
    decreases n,
{
    if n <= 0 {
        Seq::empty()
    } else {
        let prev = scored_upto(s, rad, n - 1);
        let x = (n - 1) / 19;
        let y = (n - 1) % 19;
        if is_move_candidate(s, x, y, rad) {
            prev.push((x as u8, y as u8, move_score(s, x, y) as i32))
        } else {
            prev
        }
    }
}

pub open spec fn scored_candidates(s: SearchState, rad: int) -> Seq<(u8, u8, i32)> {
    scored_upto(s, rad, 361)
}

/// Sort key putting higher values first.
pub open spec fn descending_key(m: (u8, u8, i32)) -> i32 {
    (-(m.2 as int)) as i32
}

pub open spec fn board_empty(s: SearchState) -> bool {
    forall|i: int| 0 <= i < 361 ==> #[trigger] s.cells[i] == Cell::Empty
}

/// `out` is the answer of the candidate search with radius `rad`: the centre
/// on an empty board, otherwise every candidate with its value, highest
/// value first and, among equal values, in cell order.
pub open spec fn ordered_candidates(s: SearchState, rad: int, out: Seq<(u8, u8, i32)>) -> bool {
    if board_empty(s) {
        out == seq![(9u8, 9u8, 0i32)]
    } else {
        stably_sorted(
            out,
            scored_candidates(s, rad),
            scored_candidates(s, rad).map_values(|m: (u8, u8, i32)| descending_key(m)),
        )
    }
}

proof fn lemma_near_step(g: Grid, x: int, y: int, rad: int, r: int)
    requires
        0 <= r < 18,
    ensures
        near_before(g, x, y, rad, r + 1, 0) == near_before(g, x, y, rad, r, 19),
{
}

impl SearchState {
    /// Candidate moves within `radius` of a stone, each with its ordering
    /// value, highest first; the centre on an empty board.
    pub fn get_candidate_moves_scored(&self, radius: usize) -> (moves: Vec<(u8, u8, i32)>)
        requires
            radius <= usize::MAX - 20,
        ensures
            ordered_candidates(*self, radius as int, moves@),
    {
        let ghost g = self.grid();
        let ghost rad = radius as int;
        let mut has_stone = false;
        let mut i: usize = 0;
        while i < 361
            invariant
                0 <= i <= 361,
                !has_stone ==> forall|j: int| 0 <= j < i ==> #[trigger] self.cells[j] == Cell::Empty,
                has_stone ==> !board_empty(*self),
            decreases 361 - i,
        {
            if self.cells[i] != Cell::Empty {
                has_stone = true;
            }
            i += 1;
        }
        if !has_stone {
            let center: u8 = 9;
            let only = vec![(center, center, 0)];
            assert(only@ =~= seq![(9u8, 9u8, 0i32)]);
            return only;
        }

        let mut seen = [false; 361];
        let mut row: usize = 0;
        while row < 19
            invariant
                0 <= row <= 19,
                radius <= usize::MAX - 20,
                rad == radius,
                g == self.grid(),
                forall|x: int, y: int|
                    on_board(x, y) ==> #[trigger] seen[19 * x + y] == near_before(g, x, y, rad, row as int, 0),
            decreases 19 - row,
        {
            let mut col: usize = 0;
            while col < 19
                invariant
                    0 <= row < 19,
                    0 <= col <= 19,
                    radius <= usize::MAX - 20,
                    rad == radius,
                    g == self.grid(),
                    forall|x: int, y: int|
                        on_board(x, y) ==> #[trigger] seen[19 * x + y] == near_before(g, x, y, rad, row as int, col as int),
                decreases 19 - col,
            {
                if self.cells[idx(row, col)] != Cell::Empty {
                    let start_row = if row >= radius { row - radius } else { 0 };
                    let end_row = if row + radius + 1 < 19 { row + radius + 1 } else { 19 };
                    let start_col = if col >= radius { col - radius } else { 0 };
                    let end_col = if col + radius + 1 < 19 { col + radius + 1 } else { 19 };
                    let ghost base = seen;
                    let mut r = start_row;
                    while r < end_row
                        invariant
                            start_row <= r <= end_row <= 19,
                            start_col <= end_col <= 19,
                            forall|x: int, y: int|
                                on_board(x, y) ==> #[trigger] seen[19 * x + y] == (base[19 * x + y] || (
                                start_row <= x < r && start_col <= y < end_col)),
                        decreases end_row - r,
                    {
                        let mut c = start_col;
                        while c < end_col
                            invariant
                                start_row <= r < end_row <= 19,
                                start_col <= c <= end_col <= 19,
                                forall|x: int, y: int|
                                    on_board(x, y) ==> #[trigger] seen[19 * x + y] == (base[19 * x + y] || (
                                    start_row <= x < r && start_col <= y < end_col) || (x == r && start_col <= y
                                    < c)),
                            decreases end_col - c,
                        {
                            seen[idx(r, c)] = true;
                            proof {
                                assert forall|x: int, y: int| on_board(x, y) && !(x == r && y == c) implies
                                    19 * x + y != 19 * r + c by {}
                            }
                            c += 1;
                        }
                        r += 1;
                    }
                    proof {
                        assert(g(row as int, col as int) != Cell::Empty);
                        assert forall|x: int, y: int| on_board(x, y) implies #[trigger] seen[19 * x + y]
                            == near_before(g, x, y, rad, row as int, col + 1) by {
                            assert(near_before(g, x, y, rad, row as int, col + 1) == (near_before(g, x, y, rad, row as int, col as int) || (g(row as int, col as int) != Cell::Empty && on_board(row as int, col as int) && close(x, y, row as int, col as int, rad))));
                        }
                    }
                } else {
                    proof {
                        assert(g(row as int, col as int) == Cell::Empty);
                        assert forall|x: int, y: int| on_board(x, y) implies #[trigger] seen[19 * x + y]
                            == near_before(g, x, y, rad, row as int, col + 1) by {
                            assert(near_before(g, x, y, rad, row as int, col + 1) == near_before(g, x, y, rad, row as int, col as int));
                        }
                    }
                }
                col += 1;
            }
            proof {
                assert forall|x: int, y: int| on_board(x, y) implies #[trigger] seen[19 * x + y]
                    == near_before(g, x, y, rad, row + 1, 0) by {
                    if row < 18 {
                        lemma_near_step(g, x, y, rad, row as int);
                    }
                }
            }
            row += 1;
        }
        assert forall|x: int, y: int| on_board(x, y) implies #[trigger] seen[19 * x + y] == near_stone(g, x, y, rad) by {
            assert(near_before(g, x, y, rad, 19, 0) == near_before(g, x, y, rad, 18, 19));
        }

        let mut moves: Vec<(u8, u8, i32)> = Vec::new();
        let mut i: usize = 0;
        while i < 361
            invariant
                0 <= i <= 361,
                rad == radius,
                g == self.grid(),
                forall|x: int, y: int| on_board(x, y) ==> #[trigger] seen[19 * x + y] == near_stone(g, x, y, rad),
                moves@ == scored_upto(*self, rad, i as int),
                forall|j: int| #![trigger moves@[j]] 0 <= j < moves@.len() ==> 0 <= moves@[j].2 <= 900_000,
            decreases 361 - i,
        {
            let row = i / 19;
            let col = i % 19;
            proof {
                assert(19 * row + col == i);
                assert(seen[19 * (row as int) + (col as int)] == seen[i as int]);
                assert(g(row as int, col as int) == self.cells[i as int]);
            }
            if !seen[i] || self.cells[i] != Cell::Empty {
                i += 1;
                continue;
            }
            if !self.is_valid_move(row as i32, col as i32) {
                i += 1;
                continue;
            }
            let score = self.score_move(row as u8, col as u8);
            moves.push((row as u8, col as u8, score));
            i += 1;
        }
        let ghost cands = moves@;

        let n = moves.len();
        let mut keys: Vec<i32> = Vec::new();
        let mut k: usize = 0;
        while k < n
            invariant
                0 <= k <= n,
                n == moves.len(),
                moves@ == cands,
                cands == scored_candidates(*self, rad),
                forall|j: int| #![trigger cands[j]] 0 <= j < cands.len() ==> 0 <= cands[j].2 <= 900_000,
                keys@ == cands.take(k as int).map_values(|m: (u8, u8, i32)| descending_key(m)),
            decreases n - k,
        {
            assert(0 <= cands[k as int].2 <= 900_000);
            keys.push(-moves[k].2);
            proof {
                assert(cands.take(k + 1) =~= cands.take(k as int).push(cands[k as int]));
                assert(keys@ =~= cands.take(k + 1).map_values(|m: (u8, u8, i32)| descending_key(m)));
            }
            k += 1;
        }

        let order = stable_order(&keys);
        let mut result: Vec<(u8, u8, i32)> = Vec::new();
        let mut j: usize = 0;
        while j < n
            invariant
                0 <= j <= n,
                n == moves.len(),
                order@.len() == n,
                forall|m: int| 0 <= m < n ==> #[trigger] order@[m] < n,
                result@ == order@.take(j as int).map_values(|t: usize| moves@[t as int]),
            decreases n - j,
        {
            result.push(moves[order[j]]);
            proof {
                assert(order@.take(j + 1) =~= order@.take(j as int).push(order@[j as int]));
            }
            j += 1;
        }
        proof {
            assert(cands.take(n as int) =~= cands);
            assert(order@.take(n as int) =~= order@);
            assert(arranged(result@, cands, keys@, order@));
        }
        result
    }

    /// The moves of `get_candidate_moves_scored`, without their values.
    pub fn get_candidate_moves(&self, radius: usize) -> (moves: Vec<(u8, u8)>)
        requires
            radius <= usize::MAX - 20,
        ensures
            exists|scored: Seq<(u8, u8, i32)>|
                #[trigger] ordered_candidates(*self, radius as int, scored) && moves@ == scored.map_values(
                    |m: (u8, u8, i32)| (m.0, m.1),
                ),
    {
        let scored = self.get_candidate_moves_scored(radius);
        let mut moves: Vec<(u8, u8)> = Vec::new();
        let mut i: usize = 0;
        while i < scored.len()
            invariant
                0 <= i <= scored.len(),
                moves@ == scored@.take(i as int).map_values(|m: (u8, u8, i32)| (m.0, m.1)),
            decreases scored.len() - i,
        {
            let (r, c, _) = scored[i];
            moves.push((r, c));
            proof {
                assert(scored@.take(i + 1) =~= scored@.take(i as int).push(scored@[i as int]));
                assert(moves@ =~= scored@.take(i + 1).map_values(|m: (u8, u8, i32)| (m.0, m.1)));
            }
            i += 1;
        }
        proof {
            assert(scored@.take(scored.len() as int) =~= scored@);
        }
        moves
    }
}

} // verus!
