//! The pattern recognizer: rays, the classification table, anchors, and the
//! full-board and local counting scans.
use vstd::prelude::*;
use crate::search_board::{at, on_board, Cell, Grid, PatternCounts, PatternKind, SearchBoard};

verus! {

/// One ray walked outward from an anchor.
#[derive(Clone, Copy)]
pub struct LineScan {
    pub contig_my: i32,
    pub end_open: bool,
    pub total_my: i32,
    pub empty_count: i32,
    /// Bit `i-1` is set when the cell at offset `i` along the ray held my stone.
    pub stones: u32,
}

/// A classified formation, anchored on its first stone.
pub struct Formation {
    pub color: Cell,
    pub kind: PatternKind,
    /// Bit `k` marks a stone `k` cells along the direction from the anchor.
    pub mask: u32,
}

/// The ray from `(x0, y0)` in direction `sign * (dx, dy)`, continued from
/// offset `i` with the given running totals. It stops at the edge, at a stone
/// of the other colour, or once two empties have been passed (`end_open`
/// then tells whether the cell after them is on the board and not hostile).
pub open spec fn ray_from(
    g: Grid,
    me: Cell,
    sign: int,
    dx: int,
    dy: int,
    x0: int,
    y0: int,
    i: int,
    contig: int,
    done: bool,
    total: int,
    empty: int,
    stones: u32,
) -> LineScan
    decreases 21 - i,
{
    let x = x0 + dx * i * sign;
    let y = y0 + dy * i * sign;
    let stop = LineScan {
        contig_my: contig as i32,
        end_open: false,
        total_my: total as i32,
        empty_count: empty as i32,
        stones,
    };
    if i > 20 {
        stop
    } else if !on_board(x, y) || at(g, x, y) == me.other() {
        LineScan { end_open: empty == 2, ..stop }
    } else if empty == 2 {
        LineScan { end_open: true, ..stop }
    } else if at(g, x, y) == me {
        ray_from(
            g,
            me,
            sign,
            dx,
            dy,
            x0,
            y0,
            i + 1,
            if done { contig } else { contig + 1 },
            done,
            total + 1,
            empty,
            if i < 32 { stones | (1u32 << ((i - 1) as u32)) } else { stones },
        )
    } else {
        ray_from(g, me, sign, dx, dy, x0, y0, i + 1, contig, true, total, empty + 1, stones)
    }
}

/// The whole ray from `(x0, y0)`.
pub open spec fn ray(
    g: Grid,
    me: Cell,
    sign: int,
    dx: int,
    dy: int,
    x0: int,
    y0: int,
) -> LineScan {
    ray_from(g, me, sign, dx, dy, x0, y0, 1, 0, false, 0, 0, 0)
}

/// The classification table for the two rays around a cell; `center` is 1
/// when the cell holds (or is taken to hold) my stone.
pub open spec fn kind_of(plus: LineScan, minus: LineScan, center: int) -> Option<PatternKind> {
    let total = plus.total_my + minus.total_my + center;
    let contig_total = if center != 0 {
        plus.contig_my + minus.contig_my + center
    } else if plus.contig_my >= minus.contig_my {
        plus.contig_my as int
    } else {
        minus.contig_my as int
    };
    let empty = plus.empty_count + minus.empty_count + (1 - center);
    if contig_total == 5 && center != 0 {
        Some(PatternKind::FiveRow)
    } else if contig_total == 4 && plus.empty_count > 0 && minus.empty_count > 0 {
        Some(PatternKind::OpenFour)
    } else if total == 4 && (plus.end_open || minus.end_open) {
        Some(PatternKind::BlockFour)
    } else if total == 4 && empty == 1 {
        Some(PatternKind::BlockFour)
    } else if (contig_total == 3 && empty >= 3) || (total == 3 && empty >= 3 && plus.end_open
        && minus.end_open) {
        Some(PatternKind::FreeThree)
    } else if total == 3 && empty >= 2 {
        Some(PatternKind::OpenThree)
    } else if total == 2 && plus.empty_count > 0 && minus.empty_count > 0 {
        Some(PatternKind::OpenTwo)
    } else {
        None
    }
}

/// The four scan directions.
pub open spec fn scan_dir(d: int) -> (int, int) {
    if d == 0 {
        (1, 0)
    } else if d == 1 {
        (0, 1)
    } else if d == 2 {
        (1, 1)
    } else {
        (1, -1)
    }
}

/// The formation anchored on the stone at `(r, c)` along `(dr, dc)`: only the
/// first stone of a formation (no stone of its colour on the backward ray)
/// reports it.
pub open spec fn formation_at(g: Grid, r: int, c: int, dr: int, dc: int) -> Option<
    (Cell, PatternKind),
> {
    if !on_board(r, c) || at(g, r, c) == Cell::Empty {
        None
    } else {
        let me = at(g, r, c);
        let minus = ray(g, me, -1, dr, dc, r, c);
        if minus.stones != 0 {
            None
        } else {
            match kind_of(ray(g, me, 1, dr, dc, r, c), minus, 1) {
                Some(k) => Some((me, k)),
                None => None,
            }
        }
    }
}

/// Whether the formation at an anchor is of `kind` and goes to the Black
/// counter (`is_black`) or the White one.
pub open spec fn hit(f: Option<(Cell, PatternKind)>, is_black: bool, kind: PatternKind) -> int {
    match f {
        Some((col, k)) => if k == kind && (col == Cell::Black) == is_black {
            1
        } else {
            0
        },
        None => 0,
    }
}

/// Counts after adding the formation `f` to the Black (`is_black`) or White
/// counter.
pub open spec fn tally(acc: PatternCounts, f: Option<(Cell, PatternKind)>, is_black: bool) -> PatternCounts {
    match f {
        Some((col, k)) => if (col == Cell::Black) == is_black {
            acc.bump(k)
        } else {
            acc
        },
        None => acc,
    }
}

/// Formations anchored on cells before `(r, c)` in row-major order, over all
/// four directions (and, on `(r, c)` itself, directions `< nd`).
pub open spec fn board_tally(
    g: Grid,
    is_black: bool,
    r: int,
    c: int,
    nd: int,
) -> PatternCounts
    decreases r, c, nd,
{
    if r <= 0 && c <= 0 && nd <= 0 {
        PatternCounts::zero()
    } else if nd > 0 {
        let d = scan_dir(nd - 1);
        tally(board_tally(g, is_black, r, c, nd - 1), formation_at(g, r, c, d.0, d.1), is_black)
    } else if c > 0 {
        board_tally(g, is_black, r, c - 1, 4)
    } else {
        board_tally(g, is_black, r - 1, 18, 4)
    }
}

/// Counts of every formation on the board for one colour.
pub open spec fn full_counts(g: Grid, is_black: bool) -> PatternCounts {
    board_tally(g, is_black, 18, 18, 4)
}

/// Radius of the neighbourhood that `make_move` rescans.
pub open spec fn local_radius() -> int {
    8
}

/// Formations anchored on the four lines through `(ar, ac)` within distance
/// `local_radius()`: directions `< d` fully, and offsets `< k` of direction `d`.
pub open spec fn local_tally(
    g: Grid,
    is_black: bool,
    ar: int,
    ac: int,
    d: int,
    k: int,
) -> PatternCounts
    decreases d, k + 9,
{
    if d <= 0 && k <= -8 {
        PatternCounts::zero()
    } else if k > -8 {
        let dir = scan_dir(d);
        let kk = k - 1;
        tally(
            local_tally(g, is_black, ar, ac, d, k - 1),
            formation_at(g, ar + dir.0 * kk, ac + dir.1 * kk, dir.0, dir.1),
            is_black,
        )
    } else {
        local_tally(g, is_black, ar, ac, d - 1, 9)
    }
}

/// Counts of the formations a change at `(ar, ac)` could alter.
pub open spec fn local_counts(g: Grid, is_black: bool, ar: int, ac: int) -> PatternCounts {
    local_tally(g, is_black, ar, ac, 3, 9)
}

pub proof fn lemma_bump_within(acc: PatternCounts, k: PatternKind, n: int)
    requires
        acc.within(n),
        n < 1_000_000,
    ensures
        acc.bump(k).within(n + 1),
        forall|j: PatternKind| #[trigger] acc.bump(k).count(j) == acc.count(j) + if j == k { 1int } else { 0 },
{
    assert forall|j: PatternKind| #[trigger] acc.bump(k).count(j) == acc.count(j) + if j == k { 1int } else { 0 } by {
        assert(0 <= acc.count(j) <= n);
    }
    assert forall|j: PatternKind| 0 <= #[trigger] acc.bump(k).count(j) <= n + 1 by {
        assert(0 <= acc.count(j) <= n);
    }
}

pub proof fn lemma_tally_within(acc: PatternCounts, f: Option<(Cell, PatternKind)>, is_black: bool, n: int)
    requires
        acc.within(n),
        0 <= n < 1_000_000,
    ensures
        tally(acc, f, is_black).within(n + 1),
{
    match f {
        Some((col, k)) => {
            if (col == Cell::Black) == is_black {
                lemma_bump_within(acc, k, n);
            } else {
                assert forall|j: PatternKind| 0 <= #[trigger] acc.count(j) <= n + 1 by {
                    assert(0 <= acc.count(j) <= n);
                }
            }
        },
        None => {
            assert forall|j: PatternKind| 0 <= #[trigger] acc.count(j) <= n + 1 by {
                assert(0 <= acc.count(j) <= n);
            }
        },
    }
}

pub proof fn lemma_board_tally_within(g: Grid, is_black: bool, r: int, c: int, nd: int)
    requires
        0 <= r < 19,
        0 <= c < 19,
        0 <= nd <= 4,
    ensures
        board_tally(g, is_black, r, c, nd).within(76 * r + 4 * c + nd),
    decreases r, c, nd,
{
    if r <= 0 && c <= 0 && nd <= 0 {
    } else if nd > 0 {
        lemma_board_tally_within(g, is_black, r, c, nd - 1);
        let d = scan_dir(nd - 1);
        lemma_tally_within(
            board_tally(g, is_black, r, c, nd - 1),
            formation_at(g, r, c, d.0, d.1),
            is_black,
            76 * r + 4 * c + nd - 1,
        );
    } else if c > 0 {
        lemma_board_tally_within(g, is_black, r, c - 1, 4);
    } else {
        lemma_board_tally_within(g, is_black, r - 1, 18, 4);
    }
}

pub proof fn lemma_local_tally_within(g: Grid, is_black: bool, ar: int, ac: int, d: int, k: int)
    requires
        0 <= d < 4,
        -8 <= k <= 9,
    ensures
        local_tally(g, is_black, ar, ac, d, k).within(17 * d + k + 8),
    decreases d, k + 9,
{
    if d <= 0 && k <= -8 {
    } else if k > -8 {
        lemma_local_tally_within(g, is_black, ar, ac, d, k - 1);
        let dir = scan_dir(d);
        let kk = k - 1;
        lemma_tally_within(
            local_tally(g, is_black, ar, ac, d, k - 1),
            formation_at(g, ar + dir.0 * kk, ac + dir.1 * kk, dir.0, dir.1),
            is_black,
            17 * d + k - 1 + 8,
        );
    } else {
        lemma_local_tally_within(g, is_black, ar, ac, d - 1, 9);
    }
}

/// The full-board counts are between 0 and the number of anchors.
pub proof fn lemma_full_counts_within(g: Grid, is_black: bool)
    ensures
        full_counts(g, is_black).within(1444),
{
    lemma_board_tally_within(g, is_black, 18, 18, 4);
}

/// The local counts are between 0 and the number of local anchors.
pub proof fn lemma_local_counts_within(g: Grid, is_black: bool, ar: int, ac: int)
    ensures
        local_counts(g, is_black, ar, ac).within(68),
{
    lemma_local_tally_within(g, is_black, ar, ac, 3, 9);
}

proof fn lemma_or_bit_nonzero(s: u32, k: u32)
    requires
        k < 32,
    ensures
        s | (1u32 << k) != 0,
{
    assert(s | (1u32 << k) != 0) by (bit_vector)
        requires
            k < 32,
    ;
}

/// A ray's stone mask is empty exactly when it passed none of my stones.
pub proof fn lemma_ray_stones(
    g: Grid,
    me: Cell,
    sign: int,
    dx: int,
    dy: int,
    x0: int,
    y0: int,
    i: int,
    contig: int,
    done: bool,
    total: int,
    empty: int,
    stones: u32,
)
    requires
        1 <= i <= 21,
        stones == 0 <==> total == 0,
        0 <= contig <= total < i,
        0 <= empty <= 2,
    ensures
        ({
            let s = ray_from(g, me, sign, dx, dy, x0, y0, i, contig, done, total, empty, stones);
            &&& (s.stones == 0 <==> s.total_my == 0)
            &&& 0 <= s.contig_my <= s.total_my <= 20
            &&& 0 <= s.empty_count <= 2
        }),
    decreases 21 - i,
{
    let x = x0 + dx * i * sign;
    let y = y0 + dy * i * sign;
    if i > 20 {
    } else if !on_board(x, y) || at(g, x, y) == me.other() {
    } else if empty == 2 {
    } else if at(g, x, y) == me {
        let ns = if i < 32 {
            stones | (1u32 << ((i - 1) as u32))
        } else {
            stones
        };
        if i < 32 {
            lemma_or_bit_nonzero(stones, (i - 1) as u32);
        }
        lemma_ray_stones(
            g,
            me,
            sign,
            dx,
            dy,
            x0,
            y0,
            i + 1,
            if done { contig } else { contig + 1 },
            done,
            total + 1,
            empty,
            ns,
        );
    } else {
        lemma_ray_stones(g, me, sign, dx, dy, x0, y0, i + 1, contig, true, total, empty + 1, stones);
    }
}

impl SearchBoard {
    /// Walk one ray outward from `(x0, y0)`.
    pub fn scan_line_as(&self, me: Cell, sign: i32, dx: i32, dy: i32, x0: i32, y0: i32) -> (s:
        LineScan)
        requires
            on_board(x0 as int, y0 as int),
            sign == 1 || sign == -1,
            -1 <= dx <= 1,
            -1 <= dy <= 1,
            dx != 0 || dy != 0,
        ensures
            s == ray(self.grid(), me, sign as int, dx as int, dy as int, x0 as int, y0 as int),
            0 <= s.contig_my <= s.total_my <= 20,
            0 <= s.empty_count <= 2,
            s.stones == 0 <==> s.total_my == 0,
    {
        let opponent = me.opponent();
        let mut contig_my: i32 = 0;
        let mut end_open = false;
        let mut contig_done = false;
        let mut total_my: i32 = 0;
        let mut empty_count: i32 = 0;
        let mut stones: u32 = 0;
        let mut i: i32 = 1;
        let ghost spec_result = ray(self.grid(), me, sign as int, dx as int, dy as int, x0 as int, y0 as int);
        proof {
            lemma_ray_stones(self.grid(), me, sign as int, dx as int, dy as int, x0 as int, y0 as int, 1, 0, false, 0, 0, 0);
        }
        loop
            invariant_except_break
                !end_open,
                spec_result == ray_from(
                    self.grid(),
                    me,
                    sign as int,
                    dx as int,
                    dy as int,
                    x0 as int,
                    y0 as int,
                    i as int,
                    contig_my as int,
                    contig_done,
                    total_my as int,
                    empty_count as int,
                    stones,
                ),
            invariant
                1 <= i <= 20,
                0 <= contig_my <= total_my < i,
                0 <= empty_count <= 2,
                stones == 0 <==> total_my == 0,
                on_board(x0 as int, y0 as int),
                sign == 1 || sign == -1,
                -1 <= dx <= 1,
                -1 <= dy <= 1,
                dx != 0 || dy != 0,
                opponent == me.other(),
                spec_result == ray(self.grid(), me, sign as int, dx as int, dy as int, x0 as int, y0 as int),
            ensures
                spec_result == (LineScan { contig_my, end_open, total_my, empty_count, stones }),
            decreases 20 - i,
        {
            assert(-20 <= dx * i <= 20 && -20 <= dy * i <= 20) by (nonlinear_arith)
                requires
                    -1 <= dx <= 1,
                    -1 <= dy <= 1,
                    1 <= i <= 20,
            ;
            let sx: i32 = dx * i;
            let sy: i32 = dy * i;
            assert(-20 <= sx * sign <= 20 && -20 <= sy * sign <= 20) by (nonlinear_arith)
                requires
                    -20 <= sx <= 20,
                    -20 <= sy <= 20,
                    sign == 1 || sign == -1,
            ;
            let x = x0 + sx * sign;
            let y = y0 + sy * sign;
            assert(x == x0 + dx * i * sign && y == y0 + dy * i * sign) by (nonlinear_arith)
                requires
                    sx == dx * i,
                    sy == dy * i,
                    x == x0 + sx * sign,
                    y == y0 + sy * sign,
            ;
            if i >= 19 {
                assert(!on_board(x as int, y as int)) by (nonlinear_arith)
                    requires
                        x == x0 + dx * i * sign,
                        y == y0 + dy * i * sign,
                        i >= 19,
                        sign == 1 || sign == -1,
                        -1 <= dx <= 1,
                        -1 <= dy <= 1,
                        dx != 0 || dy != 0,
                        0 <= x0 < 19,
                        0 <= y0 < 19,
                ;
            }
            if !Self::in_bounds(x, y) || self.get(x, y) == opponent {
                if empty_count == 2 {
                    end_open = true;
                }
                break;
            } else if empty_count == 2 {
                end_open = true;
                break;
            }
            if self.get(x, y) == me {
                if !contig_done {
                    contig_my += 1;
                }
                total_my += 1;
                if i < 32 {
                    proof {
                        lemma_or_bit_nonzero(stones, (i - 1) as u32);
                    }
                    stones = stones | (1u32 << ((i - 1) as u32));
                }
            } else {
                contig_done = true;
                empty_count += 1;
            }
            i += 1;
        }
        LineScan { contig_my, end_open, total_my, empty_count, stones }
    }

    /// Classify the formation anchored on the stone at `(r, c)` along
    /// `(dr, dc)`, if `(r, c)` is its first stone.
    pub fn classify_at(&self, r: i32, c: i32, dr: i32, dc: i32) -> (f: Option<Formation>)
        requires
            -100 <= r <= 100,
            -100 <= c <= 100,
            -1 <= dr <= 1,
            -1 <= dc <= 1,
            dr != 0 || dc != 0,
        ensures
            match f {
                Some(fm) => formation_at(self.grid(), r as int, c as int, dr as int, dc as int) == Some(
                    (fm.color, fm.kind),
                ),
                None => formation_at(self.grid(), r as int, c as int, dr as int, dc as int).is_none(),
            },
            f matches Some(fm) ==> fm.mask == (1u32 | (ray(
                self.grid(),
                at(self.grid(), r as int, c as int),
                1,
                dr as int,
                dc as int,
                r as int,
                c as int,
            ).stones << 1u32)),
    {
        if !Self::in_bounds(r, c) {
            return None;
        }
        let me = self.get(r, c);
        if me == Cell::Empty {
            return None;
        }
        let minus = self.scan_line_as(me, -1, dr, dc, r, c);
        if minus.stones != 0 {
            return None;
        }
        let plus = self.scan_line_as(me, 1, dr, dc, r, c);
        match classify(&plus, &minus, 1) {
            Some(kind) => {
                let mask = 1u32 | (plus.stones << 1u32);
                Some(Formation { color: me, kind, mask })
            },
            None => None,
        }
    }
}

/// The classification table.
pub fn classify(plus: &LineScan, minus: &LineScan, center_stone: i32) -> (k: Option<PatternKind>)
    requires
        0 <= plus.contig_my <= plus.total_my <= 20,
        0 <= minus.contig_my <= minus.total_my <= 20,
        0 <= plus.empty_count <= 2,
        0 <= minus.empty_count <= 2,
        0 <= center_stone <= 1,
    ensures
        k == kind_of(*plus, *minus, center_stone as int),
{
    let total = plus.total_my + minus.total_my + center_stone;
    let contig_total = if center_stone != 0 {
        plus.contig_my + minus.contig_my + center_stone
    } else if plus.contig_my >= minus.contig_my {
        plus.contig_my
    } else {
        minus.contig_my
    };
    let empty = plus.empty_count + minus.empty_count + (1 - center_stone);
    if contig_total == 5 && center_stone != 0 {
        Some(PatternKind::FiveRow)
    } else if contig_total == 4 && plus.empty_count > 0 && minus.empty_count > 0 {
        Some(PatternKind::OpenFour)
    } else if total == 4 && (plus.end_open || minus.end_open) {
        Some(PatternKind::BlockFour)
    } else if total == 4 && empty == 1 {
        Some(PatternKind::BlockFour)
    } else if (contig_total == 3 && empty >= 3) || (total == 3 && empty >= 3 && plus.end_open
        && minus.end_open) {
        Some(PatternKind::FreeThree)
    } else if total == 3 && empty >= 2 {
        Some(PatternKind::OpenThree)
    } else if total == 2 && plus.empty_count > 0 && minus.empty_count > 0 {
        Some(PatternKind::OpenTwo)
    } else {
        None
    }
}


/// The scan direction with index `d` (`(1,0)`, `(0,1)`, `(1,1)`, `(1,-1)`).
pub fn scan_dir_at(d: usize) -> (r: (i32, i32))
    requires
        d < 4,
    ensures
        r.0 as int == scan_dir(d as int).0,
        r.1 as int == scan_dir(d as int).1,
{
    if d == 0 {
        (1, 0)
    } else if d == 1 {
        (0, 1)
    } else if d == 2 {
        (1, 1)
    } else {
        (1, -1)
    }
}

/// One more formation of `kind`.
pub fn bump_count(counts: &mut PatternCounts, kind: PatternKind, n: Ghost<int>)
    requires
        old(counts).within(n@),
        0 <= n@ < 1_000_000,
    ensures
        *final(counts) == old(counts).bump(kind),
{
    proof {
        assert(0 <= old(counts).count(kind) <= n@);
    }
    match kind {
        PatternKind::OpenTwo => counts.open_twos += 1,
        PatternKind::OpenThree => counts.open_threes += 1,
        PatternKind::FreeThree => counts.free_threes += 1,
        PatternKind::BlockFour => counts.block_fours += 1,
        PatternKind::OpenFour => counts.open_fours += 1,
        PatternKind::FiveRow => counts.five_rows += 1,
    }
}

/// Collects formation counts for both colours.
pub struct CountSink {
    pub black: PatternCounts,
    pub white: PatternCounts,
}

impl CountSink {
    /// Count a formation of `color` and `kind`: Black's go to `black`, every
    /// other colour to `white`.
    pub fn hit(&mut self, color: Cell, kind: PatternKind, n: Ghost<int>)
        requires
            old(self).black.within(n@),
            old(self).white.within(n@),
            0 <= n@ < 1_000_000,
        ensures
            final(self).black == tally(old(self).black, Some((color, kind)), true),
            final(self).white == tally(old(self).white, Some((color, kind)), false),
    {
        if color == Cell::Black {
            bump_count(&mut self.black, kind, n);
        } else {
            bump_count(&mut self.white, kind, n);
        }
    }
}

impl SearchBoard {
    /// Report the formation anchored at `(r, c)` along `(dr, dc)` to `sink`.
    pub fn emit_at(&self, r: i32, c: i32, dr: i32, dc: i32, sink: &mut CountSink, n: Ghost<int>)
        requires
            -100 <= r <= 100,
            -100 <= c <= 100,
            -1 <= dr <= 1,
            -1 <= dc <= 1,
            dr != 0 || dc != 0,
            old(sink).black.within(n@),
            old(sink).white.within(n@),
            0 <= n@ < 1_000_000,
        ensures
            final(sink).black == tally(
                old(sink).black,
                formation_at(self.grid(), r as int, c as int, dr as int, dc as int),
                true,
            ),
            final(sink).white == tally(
                old(sink).white,
                formation_at(self.grid(), r as int, c as int, dr as int, dc as int),
                false,
            ),
    {
        match self.classify_at(r, c, dr, dc) {
            Some(f) => sink.hit(f.color, f.kind, n),
            None => {},
        }
    }

    /// Every formation on the board, both colours, in one pass.
    pub fn scan_all(&self, sink: &mut CountSink)
        requires
            old(sink).black == PatternCounts::zero(),
            old(sink).white == PatternCounts::zero(),
        ensures
            final(sink).black == full_counts(self.grid(), true),
            final(sink).white == full_counts(self.grid(), false),
    {
        let mut r: i32 = 0;
        while r < 19
            invariant
                0 <= r <= 19,
                sink.black == board_tally(self.grid(), true, r as int, 0, 0),
                sink.white == board_tally(self.grid(), false, r as int, 0, 0),
            decreases 19 - r,
        {
            let mut c: i32 = 0;
            while c < 19
                invariant
                    0 <= r < 19,
                    0 <= c <= 19,
                    c == 0 ==> sink.black == board_tally(self.grid(), true, r as int, 0, 0),
                    c == 0 ==> sink.white == board_tally(self.grid(), false, r as int, 0, 0),
                    c > 0 ==> sink.black == board_tally(self.grid(), true, r as int, c - 1, 4),
                    c > 0 ==> sink.white == board_tally(self.grid(), false, r as int, c - 1, 4),
                decreases 19 - c,
            {
                let mut d: usize = 0;
                while d < 4
                    invariant
                        0 <= r < 19,
                        0 <= c < 19,
                        0 <= d <= 4,
                        sink.black == board_tally(self.grid(), true, r as int, c as int, d as int),
                        sink.white == board_tally(self.grid(), false, r as int, c as int, d as int),
                    decreases 4 - d,
                {
                    proof {
                        lemma_board_tally_within(self.grid(), true, r as int, c as int, d as int);
                        lemma_board_tally_within(self.grid(), false, r as int, c as int, d as int);
                    }
                    let (dr, dc) = scan_dir_at(d);
                    self.emit_at(r, c, dr, dc, sink, Ghost(76 * r + 4 * c + d));
                    d += 1;
                }
                c += 1;
            }
            r += 1;
        }
    }

    /// Every formation whose classification a change at `(ar, ac)` could
    /// alter: anchors on the four lines through it within `local_radius()`.
    pub fn scan_around(&self, ar: i32, ac: i32, sink: &mut CountSink)
        requires
            on_board(ar as int, ac as int),
            old(sink).black == PatternCounts::zero(),
            old(sink).white == PatternCounts::zero(),
        ensures
            final(sink).black == local_counts(self.grid(), true, ar as int, ac as int),
            final(sink).white == local_counts(self.grid(), false, ar as int, ac as int),
    {
        let mut d: usize = 0;
        while d < 4
            invariant
                on_board(ar as int, ac as int),
                0 <= d <= 4,
                d < 4 ==> sink.black == local_tally(self.grid(), true, ar as int, ac as int, d as int, -8),
                d < 4 ==> sink.white == local_tally(self.grid(), false, ar as int, ac as int, d as int, -8),
                d == 4 ==> sink.black == local_tally(self.grid(), true, ar as int, ac as int, 3, 9),
                d == 4 ==> sink.white == local_tally(self.grid(), false, ar as int, ac as int, 3, 9),
            decreases 4 - d,
        {
            let (dr, dc) = scan_dir_at(d);
            let mut k: i32 = -8;
            while k <= 8
                invariant
                    on_board(ar as int, ac as int),
                    0 <= d < 4,
                    -8 <= k <= 9,
                    dr as int == scan_dir(d as int).0,
                    dc as int == scan_dir(d as int).1,
                    sink.black == local_tally(self.grid(), true, ar as int, ac as int, d as int, k as int),
                    sink.white == local_tally(self.grid(), false, ar as int, ac as int, d as int, k as int),
                decreases 9 - k,
            {
                proof {
                    lemma_local_tally_within(self.grid(), true, ar as int, ac as int, d as int, k as int);
                    lemma_local_tally_within(self.grid(), false, ar as int, ac as int, d as int, k as int);
                }
                self.emit_at(ar + dr * k, ac + dc * k, dr, dc, sink, Ghost(17 * d + k + 8));
                k += 1;
            }
            d += 1;
        }
    }

    /// Counts of the formations around `(ar, ac)`, for Black and for White.
    pub fn sb_local_patterns(&self, ar: i32, ac: i32) -> (res: (PatternCounts, PatternCounts))
        requires
            on_board(ar as int, ac as int),
        ensures
            res.0 == local_counts(self.grid(), true, ar as int, ac as int),
            res.1 == local_counts(self.grid(), false, ar as int, ac as int),
    {
        let mut sink = CountSink { black: PatternCounts::default(), white: PatternCounts::default() };
        self.scan_around(ar, ac, &mut sink);
        (sink.black, sink.white)
    }

    /// Counts of every formation on the board, for Black and for White.
    pub fn sb_scan_patterns(&self) -> (res: (PatternCounts, PatternCounts))
        ensures
            res.0 == full_counts(self.grid(), true),
            res.1 == full_counts(self.grid(), false),
    {
        let mut sink = CountSink { black: PatternCounts::default(), white: PatternCounts::default() };
        self.scan_all(&mut sink);
        (sink.black, sink.white)
    }
}

} // verus!
