//! Why rescanning the neighbourhood of a move is enough: away from a fresh
//! stone, no formation changes as long as no colour has five in a row.
use vstd::prelude::*;
use crate::search_board::{at, on_board, Cell, Grid, PatternKind};
use crate::search_board::recognize::{formation_at, kind_of, ray, ray_from, scan_dir, LineScan};
use crate::search_board::rules::{has_five, run_from, run_start};

verus! {

/// The last offset whose cell the ray from offset `i` (with `empty` empty
/// cells passed) reads. The cell after the second empty cell is never
/// needed: the ray ends there whatever it holds.
pub open spec fn ray_reach(g: Grid, me: Cell, sign: int, dx: int, dy: int, x0: int, y0: int, i: int, empty: int) -> int
    decreases 21 - i,
{
    let x = x0 + dx * i * sign;
    let y = y0 + dy * i * sign;
    if i > 20 || empty == 2 {
        i - 1
    } else if !on_board(x, y) || at(g, x, y) == me.other() {
        i
    } else if at(g, x, y) == me {
        ray_reach(g, me, sign, dx, dy, x0, y0, i + 1, empty)
    } else {
        ray_reach(g, me, sign, dx, dy, x0, y0, i + 1, empty + 1)
    }
}

/// A ray reads at least up to the offset before the one it starts from.
pub proof fn lemma_reach_ge(g: Grid, me: Cell, sign: int, dx: int, dy: int, x0: int, y0: int, i: int, empty: int)
    ensures
        ray_reach(g, me, sign, dx, dy, x0, y0, i, empty) >= i - 1,
    decreases 21 - i,
{
    let x = x0 + dx * i * sign;
    let y = y0 + dy * i * sign;
    if i > 20 || empty == 2 {
    } else if !on_board(x, y) || at(g, x, y) == me.other() {
    } else if at(g, x, y) == me {
        lemma_reach_ge(g, me, sign, dx, dy, x0, y0, i + 1, empty);
    } else {
        lemma_reach_ge(g, me, sign, dx, dy, x0, y0, i + 1, empty + 1);
    }
}

/// Two grids that agree on every cell a ray reads give the same ray.
pub proof fn lemma_ray_frame(
    g: Grid,
    g2: Grid,
    me: Cell,
    sign: int,
    dx: int,
    dy: int,
    x0: int,
    y0: int,
    i: int,
    contig: int,
    done: bool,
    total: int,
    empty: int,
    stones: u32,
)
    requires
        forall|j: int|
            i <= j <= ray_reach(g, me, sign, dx, dy, x0, y0, i, empty) ==> #[trigger] g2(
                x0 + dx * j * sign,
                y0 + dy * j * sign,
            ) == g(x0 + dx * j * sign, y0 + dy * j * sign),
    ensures
        ray_from(g, me, sign, dx, dy, x0, y0, i, contig, done, total, empty, stones) == ray_from(
            g2,
            me,
            sign,
            dx,
            dy,
            x0,
            y0,
            i,
            contig,
            done,
            total,
            empty,
            stones,
        ),
        ray_reach(g, me, sign, dx, dy, x0, y0, i, empty) == ray_reach(g2, me, sign, dx, dy, x0, y0, i, empty),
    decreases 21 - i,
{
    let x = x0 + dx * i * sign;
    let y = y0 + dy * i * sign;
    if i > 20 || empty == 2 {
    } else {
        lemma_reach_ge(g, me, sign, dx, dy, x0, y0, i + 1, empty);
        lemma_reach_ge(g, me, sign, dx, dy, x0, y0, i + 1, empty + 1);
        assert(i <= ray_reach(g, me, sign, dx, dy, x0, y0, i, empty));
        assert(g2(x0 + dx * i * sign, y0 + dy * i * sign) == g(x0 + dx * i * sign, y0 + dy * i * sign));
        if !on_board(x, y) || at(g, x, y) == me.other() {
        } else if at(g, x, y) == me {
            lemma_ray_frame(
                g,
                g2,
                me,
                sign,
                dx,
                dy,
                x0,
                y0,
                i + 1,
                if done { contig } else { contig + 1 },
                done,
                total + 1,
                empty,
                if i < 32 { stones | (1u32 << ((i - 1) as u32)) } else { stones },
            );
        } else {
            lemma_ray_frame(g, g2, me, sign, dx, dy, x0, y0, i + 1, contig, true, total, empty + 1, stones);
        }
    }
}

/// Once a stone has been seen, the ray's stone mask stays nonzero; without
/// any, the running totals come out unchanged.
pub proof fn lemma_ray_stones(
    g: Grid,
    me: Cell,
    sign: int,
    dx: int,
    dy: int,
    x0: int,
    y0: int,
    i: int,
    contig: int,
    done: bool,
    total: int,
    empty: int,
    stones: u32,
)
    requires
        1 <= i <= 21,
        0 <= contig <= total <= i - 1,
        0 <= empty <= 2,
    ensures
        stones != 0 ==> ray_from(g, me, sign, dx, dy, x0, y0, i, contig, done, total, empty, stones).stones != 0,
        ray_from(g, me, sign, dx, dy, x0, y0, i, contig, done, total, empty, stones).stones == 0 ==> (ray_from(
            g,
            me,
            sign,
            dx,
            dy,
            x0,
            y0,
            i,
            contig,
            done,
            total,
            empty,
            stones,
        ).total_my == total && ray_from(g, me, sign, dx, dy, x0, y0, i, contig, done, total, empty, stones).contig_my
            == contig && ray_reach(g, me, sign, dx, dy, x0, y0, i, empty) <= i + 1 - empty),
        done ==> ray_from(g, me, sign, dx, dy, x0, y0, i, contig, done, total, empty, stones).contig_my == contig,
        ray_from(g, me, sign, dx, dy, x0, y0, i, contig, done, total, empty, stones).total_my >= total,
        ray_from(g, me, sign, dx, dy, x0, y0, i, contig, done, total, empty, stones).empty_count >= empty,
    decreases 21 - i,
{
    let x = x0 + dx * i * sign;
    let y = y0 + dy * i * sign;
    if i > 20 {
    } else if !on_board(x, y) || at(g, x, y) == me.other() {
    } else if empty == 2 {
    } else if at(g, x, y) == me {
        let ns = if i < 32 { stones | (1u32 << ((i - 1) as u32)) } else { stones };
        if i < 32 {
            let k = (i - 1) as u32;
            assert(stones | (1u32 << k) != 0) by (bit_vector)
                requires
                    k < 32,
            ;
        } else {
            assert(false);
        }
        lemma_ray_stones(g, me, sign, dx, dy, x0, y0, i + 1, if done { contig } else { contig + 1 }, done, total + 1, empty, ns);
        if stones != 0 {
            assert(stones | (1u32 << ((i - 1) as u32)) != 0) by {
                let k = (i - 1) as u32;
                assert(stones != 0 ==> stones | (1u32 << k) != 0) by (bit_vector);
            }
        }
    } else {
        lemma_ray_stones(g, me, sign, dx, dy, x0, y0, i + 1, contig, true, total, empty + 1, stones);
    }
}

pub proof fn lemma_run_from_nonneg(g: Grid, r: int, c: int, dr: int, dc: int, p: Cell, i: int)
    ensures
        run_from(g, r, c, dr, dc, p, i) >= 0,
    decreases 20 - i,
{
    if !(i >= 20 || !on_board(r + dr * i, c + dc * i) || g(r + dr * i, c + dc * i) != p) {
        lemma_run_from_nonneg(g, r, c, dr, dc, p, i + 1);
    }
}

/// Position of a cell along scan direction `d`, decreasing when stepping
/// back along it.
pub open spec fn along(d: int, x: int, y: int) -> int {
    if d == 0 {
        x
    } else if d == 1 {
        y
    } else if d == 2 {
        x + y
    } else {
        x - y + 18
    }
}

/// Five stones of `p` in a row along scan direction `d` from `(x, y)` make a
/// five for `has_five`.
pub proof fn lemma_five_window(g: Grid, p: Cell, x: int, y: int, d: int)
    requires
        0 <= d < 4,
        forall|j: int|
            0 <= j < 5 ==> #[trigger] on_board(x + scan_dir(d).0 * j, y + scan_dir(d).1 * j) && g(
                x + scan_dir(d).0 * j,
                y + scan_dir(d).1 * j,
            ) == p,
    ensures
        has_five(g, p),
    decreases along(d, x, y) + 40,
{
    let dr = scan_dir(d).0;
    let dc = scan_dir(d).1;
    assert(on_board(x + dr * 0, y + dc * 0));
    assert(x + dr * 0 == x && y + dc * 0 == y);
    if on_board(x - dr, y - dc) && g(x - dr, y - dc) == p {
        assert forall|j: int|
            0 <= j < 5 implies #[trigger] on_board((x - dr) + scan_dir(d).0 * j, (y - dc) + scan_dir(d).1 * j) && g(
            (x - dr) + scan_dir(d).0 * j,
            (y - dc) + scan_dir(d).1 * j,
        ) == p by {
            if j > 0 {
                assert(on_board(x + dr * (j - 1), y + dc * (j - 1)));
                assert((x - dr) + dr * j == x + dr * (j - 1)) by (nonlinear_arith);
                assert((y - dc) + dc * j == y + dc * (j - 1)) by (nonlinear_arith);
            } else {
                assert((x - dr) + dr * j == x - dr) by (nonlinear_arith)
                    requires
                        j == 0,
                ;
                assert((y - dc) + dc * j == y - dc) by (nonlinear_arith)
                    requires
                        j == 0,
                ;
            }
        }
        lemma_five_window(g, p, x - dr, y - dc, d);
    } else {
        assert(run_start(g, x, y, dr, dc, p));
        assert(on_board(x + dr * 1, y + dc * 1));
        assert(on_board(x + dr * 2, y + dc * 2));
        assert(on_board(x + dr * 3, y + dc * 3));
        assert(on_board(x + dr * 4, y + dc * 4));
        assert(g(x + dr * 0, y + dc * 0) == p);
        assert(g(x + dr * 1, y + dc * 1) == p);
        assert(g(x + dr * 2, y + dc * 2) == p);
        assert(g(x + dr * 3, y + dc * 3) == p);
        assert(g(x + dr * 4, y + dc * 4) == p);
        lemma_run_from_nonneg(g, x, y, dr, dc, p, 5);
        reveal_with_fuel(run_from, 6);
        assert(run_from(g, x, y, dr, dc, p, 0) >= 5);
        assert(run_start(g, x, y, scan_dir(d).0, scan_dir(d).1, p));
    }
}

/// No five stones of `p` in a row along scan direction `d` start at offset
/// `s` from `(x0, y0)`.
pub proof fn lemma_no_window(g: Grid, p: Cell, x0: int, y0: int, d: int, s: int)
    requires
        0 <= d < 4,
        !has_five(g, p),
    ensures
        !(forall|j: int|
            0 <= j < 5 ==> #[trigger] on_board(
                x0 + scan_dir(d).0 * (s + j) * 1,
                y0 + scan_dir(d).1 * (s + j) * 1,
            ) && g(x0 + scan_dir(d).0 * (s + j) * 1, y0 + scan_dir(d).1 * (s + j) * 1) == p),
{
    let dr = scan_dir(d).0;
    let dc = scan_dir(d).1;
    let x = x0 + dr * s * 1;
    let y = y0 + dc * s * 1;
    if forall|j: int|
        0 <= j < 5 ==> #[trigger] on_board(x0 + dr * (s + j) * 1, y0 + dc * (s + j) * 1) && g(
            x0 + dr * (s + j) * 1,
            y0 + dc * (s + j) * 1,
        ) == p {
        assert forall|j: int|
            0 <= j < 5 implies #[trigger] on_board(x + scan_dir(d).0 * j, y + scan_dir(d).1 * j) && g(
            x + scan_dir(d).0 * j,
            y + scan_dir(d).1 * j,
        ) == p by {
            assert(on_board(x0 + dr * (s + j) * 1, y0 + dc * (s + j) * 1));
            assert(x + dr * j == x0 + dr * (s + j) * 1) by (nonlinear_arith)
                requires
                    x == x0 + dr * s * 1,
            ;
            assert(y + dc * j == y0 + dc * (s + j) * 1) by (nonlinear_arith)
                requires
                    y == y0 + dc * s * 1,
            ;
        }
        lemma_five_window(g, p, x, y, d);
    }
}

/// Without a five of `me`, the forward ray of a stone of `me` reads at most
/// nine cells, and reads the ninth only when the ray holds three stones, an
/// empty cell and four stones before it.
pub proof fn lemma_forward_reach(g: Grid, me: Cell, x0: int, y0: int, d: int)
    requires
        0 <= d < 4,
        on_board(x0, y0),
        g(x0, y0) == me,
        me != Cell::Empty,
        !has_five(g, me),
    ensures
        ray_reach(g, me, 1, scan_dir(d).0, scan_dir(d).1, x0, y0, 1, 0) <= 9,
        ray_reach(g, me, 1, scan_dir(d).0, scan_dir(d).1, x0, y0, 1, 0) == 9 ==> {
            let dx = scan_dir(d).0;
            let dy = scan_dir(d).1;
            &&& g(x0 + dx * 1 * 1, y0 + dy * 1 * 1) == me
            &&& g(x0 + dx * 2 * 1, y0 + dy * 2 * 1) == me
            &&& g(x0 + dx * 3 * 1, y0 + dy * 3 * 1) == me
            &&& on_board(x0 + dx * 4 * 1, y0 + dy * 4 * 1)
            &&& g(x0 + dx * 4 * 1, y0 + dy * 4 * 1) == Cell::Empty
            &&& g(x0 + dx * 5 * 1, y0 + dy * 5 * 1) == me
            &&& g(x0 + dx * 6 * 1, y0 + dy * 6 * 1) == me
            &&& g(x0 + dx * 7 * 1, y0 + dy * 7 * 1) == me
            &&& g(x0 + dx * 8 * 1, y0 + dy * 8 * 1) == me
        },
{
    let dx = scan_dir(d).0;
    let dy = scan_dir(d).1;
    lemma_no_window(g, me, x0, y0, d, 0);
    lemma_no_window(g, me, x0, y0, d, 1);
    lemma_no_window(g, me, x0, y0, d, 2);
    lemma_no_window(g, me, x0, y0, d, 3);
    lemma_no_window(g, me, x0, y0, d, 4);
    lemma_no_window(g, me, x0, y0, d, 5);
    assert(x0 + dx * 0 * 1 == x0 && y0 + dy * 0 * 1 == y0);
    assert(me.other() != me);
    reveal_with_fuel(ray_reach, 12);
}

/// The cell `o` steps from `(pr, pc)` along scan direction `d`.
pub open spec fn line_point(pr: int, pc: int, d: int, o: int) -> (int, int) {
    (pr + scan_dir(d).0 * o, pc + scan_dir(d).1 * o)
}

/// `(x, y)` is within eight cells of `(pr, pc)` along scan direction `d`.
pub open spec fn in_window(pr: int, pc: int, d: int, x: int, y: int) -> bool {
    exists|o: int| -8 <= o <= 8 && #[trigger] line_point(pr, pc, d, o) == (x, y)
}

/// A formation whose forward ray runs three stones, an empty cell and four
/// stones: an open four when the backward ray has an empty cell, else none.
proof fn lemma_kind_long(p1: LineScan, p2: LineScan, m: LineScan)
    requires
        p1.contig_my == 3,
        p2.contig_my == 3,
        p1.total_my >= 7,
        p2.total_my >= 7,
        p1.total_my <= 30,
        p2.total_my <= 30,
        p1.empty_count >= 1,
        p2.empty_count >= 1,
        p1.empty_count <= 2,
        p2.empty_count <= 2,
        m.contig_my == 0,
        m.total_my == 0,
        0 <= m.empty_count <= 2,
    ensures
        kind_of(p1, m, 1) == kind_of(p2, m, 1),
{
}

/// Changing one empty cell changes no formation anchored on a cell that is
/// not within eight cells of it along the formation's direction, provided
/// neither colour has five in a row.
pub proof fn lemma_formation_far(g: Grid, g2: Grid, pr: int, pc: int, x: int, y: int, d: int)
    requires
        0 <= d < 4,
        on_board(pr, pc),
        g(pr, pc) == Cell::Empty,
        forall|a: int, b: int| !(a == pr && b == pc) ==> #[trigger] g2(a, b) == g(a, b),
        !has_five(g, Cell::Black),
        !has_five(g, Cell::White),
        !in_window(pr, pc, d, x, y),
    ensures
        formation_at(g, x, y, scan_dir(d).0, scan_dir(d).1) == formation_at(g2, x, y, scan_dir(d).0, scan_dir(d).1),
{
    let dr = scan_dir(d).0;
    let dc = scan_dir(d).1;
    assert(line_point(pr, pc, d, 0) != (x, y));
    if !on_board(x, y) || g(x, y) == Cell::Empty {
        assert(g2(x, y) == g(x, y));
        return;
    }
    let me = g(x, y);
    assert(g2(x, y) == me);
    // Where the changed cell can sit on the two rays.
    assert forall|j: int| 1 <= j <= 8 implies !(#[trigger] (x + dr * j * 1) == pr && y + dc * j * 1 == pc) by {
        if x + dr * j * 1 == pr && y + dc * j * 1 == pc {
            assert(x == pr + dr * (-j) && y == pc + dc * (-j)) by (nonlinear_arith)
                requires
                    x + dr * j * 1 == pr,
                    y + dc * j * 1 == pc,
            ;
            assert(line_point(pr, pc, d, -j) == (x, y));
        }
    }
    assert forall|j: int| 1 <= j <= 8 implies !(#[trigger] (x + dr * j * -1) == pr && y + dc * j * -1 == pc) by {
        if x + dr * j * -1 == pr && y + dc * j * -1 == pc {
            assert(x == pr + dr * j && y == pc + dc * j) by (nonlinear_arith)
                requires
                    x + dr * j * -1 == pr,
                    y + dc * j * -1 == pc,
            ;
            assert(line_point(pr, pc, d, j) == (x, y));
        }
    }
    let minus = ray(g, me, -1, dr, dc, x, y);
    let minus2 = ray(g2, me, -1, dr, dc, x, y);
    lemma_ray_stones(g, me, -1, dr, dc, x, y, 1, 0, false, 0, 0, 0);
    lemma_ray_stones(g2, me, -1, dr, dc, x, y, 1, 0, false, 0, 0, 0);
    if minus.stones == 0 {
        lemma_ray_frame(g, g2, me, -1, dr, dc, x, y, 1, 0, false, 0, 0, 0);
    } else {
        if minus2.stones == 0 {
            lemma_ray_frame(g2, g, me, -1, dr, dc, x, y, 1, 0, false, 0, 0, 0);
        }
        return;
    }
    // The backward rays agree and hold no stone.
    let plus = ray(g, me, 1, dr, dc, x, y);
    let plus2 = ray(g2, me, 1, dr, dc, x, y);
    lemma_forward_reach(g, me, x, y, d);
    let reach = ray_reach(g, me, 1, dr, dc, x, y, 1, 0);
    if reach < 9 || !(x + dr * 9 * 1 == pr && y + dc * 9 * 1 == pc) {
        assert forall|j: int|
            1 <= j <= reach implies #[trigger] g2(x + dr * j * 1, y + dc * j * 1) == g(x + dr * j * 1, y + dc * j * 1) by {
            if j <= 8 {
                assert(!((x + dr * j * 1) == pr && y + dc * j * 1 == pc));
            }
        }
        lemma_ray_frame(g, g2, me, 1, dr, dc, x, y, 1, 0, false, 0, 0, 0);
        return;
    }
    // The changed cell is the ninth cell read: both rays see three stones,
    // an empty cell and four stones first.
    assert forall|j: int| 1 <= j <= 8 implies #[trigger] g2(x + dr * j * 1, y + dc * j * 1) == g(
        x + dr * j * 1,
        y + dc * j * 1,
    ) by {
        assert(!((x + dr * j * 1) == pr && y + dc * j * 1 == pc));
    }
    assert(g2(x + dr * 1 * 1, y + dc * 1 * 1) == me);
    assert(g2(x + dr * 2 * 1, y + dc * 2 * 1) == me);
    assert(g2(x + dr * 3 * 1, y + dc * 3 * 1) == me);
    assert(g2(x + dr * 4 * 1, y + dc * 4 * 1) == Cell::Empty);
    assert(g2(x + dr * 5 * 1, y + dc * 5 * 1) == me);
    assert(g2(x + dr * 6 * 1, y + dc * 6 * 1) == me);
    assert(g2(x + dr * 7 * 1, y + dc * 7 * 1) == me);
    assert(g2(x + dr * 8 * 1, y + dc * 8 * 1) == me);
    assert(on_board(x + dr * 1 * 1, y + dc * 1 * 1));
    assert(on_board(x + dr * 2 * 1, y + dc * 2 * 1));
    assert(on_board(x + dr * 3 * 1, y + dc * 3 * 1));
    assert(on_board(x + dr * 5 * 1, y + dc * 5 * 1));
    assert(on_board(x + dr * 6 * 1, y + dc * 6 * 1));
    assert(on_board(x + dr * 7 * 1, y + dc * 7 * 1));
    assert(on_board(x + dr * 8 * 1, y + dc * 8 * 1));
    assert(me.other() != me);
    let s9 = ((((((0u32 | (1u32 << 0u32)) | (1u32 << 1u32)) | (1u32 << 2u32)) | (1u32 << 4u32)) | (1u32 << 5u32)) | (
    1u32 << 6u32)) | (1u32 << 7u32);
    reveal_with_fuel(ray_from, 10);
    assert(plus == ray_from(g, me, 1, dr, dc, x, y, 9, 3, true, 7, 1, s9));
    assert(plus2 == ray_from(g2, me, 1, dr, dc, x, y, 9, 3, true, 7, 1, s9));
    lemma_ray_stones(g, me, 1, dr, dc, x, y, 9, 3, true, 7, 1, s9);
    lemma_ray_stones(g2, me, 1, dr, dc, x, y, 9, 3, true, 7, 1, s9);
    lemma_ray_bounds(g, me, 1, dr, dc, x, y, 9, 3, true, 7, 1, s9);
    lemma_ray_bounds(g2, me, 1, dr, dc, x, y, 9, 3, true, 7, 1, s9);
    lemma_ray_bounds(g, me, -1, dr, dc, x, y, 1, 0, false, 0, 0, 0);
    lemma_kind_long(plus, plus2, minus);
}

/// The running totals of a ray stay small.
pub proof fn lemma_ray_bounds(
    g: Grid,
    me: Cell,
    sign: int,
    dx: int,
    dy: int,
    x0: int,
    y0: int,
    i: int,
    contig: int,
    done: bool,
    total: int,
    empty: int,
    stones: u32,
)
    requires
        1 <= i <= 21,
        0 <= contig <= total <= i - 1,
        0 <= empty <= 2,
    ensures
        0 <= ray_from(g, me, sign, dx, dy, x0, y0, i, contig, done, total, empty, stones).total_my <= 21,
        0 <= ray_from(g, me, sign, dx, dy, x0, y0, i, contig, done, total, empty, stones).empty_count <= 2,
    decreases 21 - i,
{
    let x = x0 + dx * i * sign;
    let y = y0 + dy * i * sign;
    if i > 20 {
    } else if !on_board(x, y) || at(g, x, y) == me.other() {
    } else if empty == 2 {
    } else if at(g, x, y) == me {
        lemma_ray_bounds(
            g,
            me,
            sign,
            dx,
            dy,
            x0,
            y0,
            i + 1,
            if done { contig } else { contig + 1 },
            done,
            total + 1,
            empty,
            if i < 32 { stones | (1u32 << ((i - 1) as u32)) } else { stones },
        );
    } else {
        lemma_ray_bounds(g, me, sign, dx, dy, x0, y0, i + 1, contig, true, total, empty + 1, stones);
    }
}

} // verus!
