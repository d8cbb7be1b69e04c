//! The same formation scan as the counters, keeping each formation's cells:
//! the coordinate lists shown for a game position.
use vstd::prelude::*;
use crate::search_board::{at, on_board, Cell, Grid, PatternKind, SearchBoard};
use crate::search_board::recognize::{formation_at, ray, scan_dir, scan_dir_at};

verus! {

/// Cells of formations of each kind, for one colour.
pub struct PlayerRanges {
    pub open_two: Vec<Vec<(i32, i32)>>,
    pub open_three: Vec<Vec<(i32, i32)>>,
    pub free_three: Vec<Vec<(i32, i32)>>,
    pub open_four: Vec<Vec<(i32, i32)>>,
    pub block_four: Vec<Vec<(i32, i32)>>,
    pub five_row: Vec<Vec<(i32, i32)>>,
}

/// The cell lists of a list of vectors.
pub open spec fn lists(v: Seq<Vec<(i32, i32)>>) -> Seq<Seq<(i32, i32)>> {
    v.map_values(|x: Vec<(i32, i32)>| x@)
}

impl PlayerRanges {
    /// The formations of `kind`.
    pub open spec fn list(self, kind: PatternKind) -> Seq<Seq<(i32, i32)>> {
        match kind {
            PatternKind::OpenTwo => lists(self.open_two@),
            PatternKind::OpenThree => lists(self.open_three@),
            PatternKind::FreeThree => lists(self.free_three@),
            PatternKind::OpenFour => lists(self.open_four@),
            PatternKind::BlockFour => lists(self.block_four@),
            PatternKind::FiveRow => lists(self.five_row@),
        }
    }

    pub fn new() -> (p: PlayerRanges)
        ensures
            forall|k: PatternKind| #[trigger] p.list(k) == Seq::<Seq<(i32, i32)>>::empty(),
    {
        let p = PlayerRanges {
            open_two: Vec::new(),
            open_three: Vec::new(),
            free_three: Vec::new(),
            open_four: Vec::new(),
            block_four: Vec::new(),
            five_row: Vec::new(),
        };
        assert forall|k: PatternKind| #[trigger] p.list(k) == Seq::<Seq<(i32, i32)>>::empty() by {
            assert(p.list(k) =~= Seq::<Seq<(i32, i32)>>::empty());
        }
        p
    }

    /// The formations of `kind`, taken out.
    pub fn into_list(self, kind: PatternKind) -> (v: Vec<Vec<(i32, i32)>>)
        ensures
            lists(v@) == self.list(kind),
    {
        match kind {
            PatternKind::OpenTwo => self.open_two,
            PatternKind::OpenThree => self.open_three,
            PatternKind::FreeThree => self.free_three,
            PatternKind::OpenFour => self.open_four,
            PatternKind::BlockFour => self.block_four,
            PatternKind::FiveRow => self.five_row,
        }
    }

    /// Add `cells` to the formations of `kind`.
    pub fn add(&mut self, kind: PatternKind, cells: Vec<(i32, i32)>)
        ensures
            forall|k: PatternKind| #[trigger] final(self).list(k) == if k == kind {
                old(self).list(k).push(cells@)
            } else {
                old(self).list(k)
            },
    {
        match kind {
            PatternKind::OpenTwo => self.open_two.push(cells),
            PatternKind::OpenThree => self.open_three.push(cells),
            PatternKind::FreeThree => self.free_three.push(cells),
            PatternKind::OpenFour => self.open_four.push(cells),
            PatternKind::BlockFour => self.block_four.push(cells),
            PatternKind::FiveRow => self.five_row.push(cells),
        }
        assert forall|k: PatternKind| #[trigger] self.list(k) == if k == kind {
            old(self).list(k).push(cells@)
        } else {
            old(self).list(k)
        } by {
            if k == kind {
                assert(self.list(k) =~= old(self).list(k).push(cells@));
            }
        }
    }
}

/// Position just past the highest set bit of `m` among bits `< n`.
pub open spec fn top_bit(m: u32, n: int) -> int
    decreases n,
{
    if n <= 0 {
        0
    } else if (m >> ((n - 1) as u32)) & 1u32 == 1u32 {
        n
    } else {
        top_bit(m, n - 1)
    }
}

/// Number of bits of `m` up to its highest set bit.
pub open spec fn bit_length(m: u32) -> int {
    top_bit(m, 32)
}

/// The cells reported for the formation anchored at `(r, c)` along
/// `(dr, dc)`: its stones' span, plus the empty cell before and the empty
/// cell after it where the board has one.
pub open spec fn formation_cells(g: Grid, r: int, c: int, dr: int, dc: int) -> Seq<(i32, i32)> {
    let mask = 1u32 | (ray(g, at(g, r, c), 1, dr, dc, r, c).stones << 1u32);
    let span = bit_length(mask);
    let back = on_board(r - dr, c - dc) && g(r - dr, c - dc) == Cell::Empty;
    let ahead = on_board(r + dr * span, c + dc * span) && g(r + dr * span, c + dc * span) == Cell::Empty;
    let (sr, sc) = if back {
        (r - dr, c - dc)
    } else {
        (r, c)
    };
    let len = span + (if back {
        1int
    } else {
        0
    }) + (if ahead {
        1int
    } else {
        0
    });
    Seq::new(len as nat, |i: int| ((sr + dr * i) as i32, (sc + dc * i) as i32))
}

/// `acc` with the cells of the formation at `(r, c)` along `(dr, dc)`
/// added, if it is of `kind` and of Black (`is_black`) or White.
pub open spec fn with_range(
    acc: Seq<Seq<(i32, i32)>>,
    g: Grid,
    r: int,
    c: int,
    dr: int,
    dc: int,
    is_black: bool,
    kind: PatternKind,
) -> Seq<Seq<(i32, i32)>> {
    match formation_at(g, r, c, dr, dc) {
        Some((col, k)) => if k == kind && (col == Cell::Black) == is_black {
            acc.push(formation_cells(g, r, c, dr, dc))
        } else {
            acc
        },
        None => acc,
    }
}

/// Cells of the formations of `kind` anchored before `(r, c)` in row-major
/// order (and, on `(r, c)` itself, in directions `< nd`), in scan order.
pub open spec fn board_ranges(g: Grid, is_black: bool, kind: PatternKind, r: int, c: int, nd: int) -> Seq<
    Seq<(i32, i32)>,
>
    decreases r, c, nd,
{
    if r <= 0 && c <= 0 && nd <= 0 {
        Seq::empty()
    } else if nd > 0 {
        let d = scan_dir(nd - 1);
        with_range(board_ranges(g, is_black, kind, r, c, nd - 1), g, r, c, d.0, d.1, is_black, kind)
    } else if c > 0 {
        board_ranges(g, is_black, kind, r, c - 1, 4)
    } else {
        board_ranges(g, is_black, kind, r - 1, 18, 4)
    }
}

/// Cells of every formation of `kind` on the board for one colour.
pub open spec fn all_ranges(g: Grid, is_black: bool, kind: PatternKind) -> Seq<Seq<(i32, i32)>> {
    board_ranges(g, is_black, kind, 18, 18, 4)
}

/// Position just past the highest set bit of `m`.
pub fn bit_len(m: u32) -> (n: i32)
    ensures
        n == bit_length(m),
        0 <= n <= 32,
{
    let mut k: u32 = 32;
    while k > 0
        invariant
            0 <= k <= 32,
            top_bit(m, 32) == top_bit(m, k as int),
        decreases k,
    {
        if (m >> (k - 1)) & 1u32 == 1u32 {
            return k as i32;
        }
        k -= 1;
    }
    0
}

/// Collects the cells of formations for both colours.
pub struct RangeSink {
    pub black: PlayerRanges,
    pub white: PlayerRanges,
}

impl SearchBoard {
    /// Add the cells of the formation anchored at `(r, c)` along `(dr, dc)`
    /// to `sink`.
    pub fn emit_range_at(&self, r: i32, c: i32, dr: i32, dc: i32, sink: &mut RangeSink)
        requires
            -100 <= r <= 100,
            -100 <= c <= 100,
            -1 <= dr <= 1,
            -1 <= dc <= 1,
            dr != 0 || dc != 0,
        ensures
            forall|k: PatternKind| #[trigger] final(sink).black.list(k) == with_range(
                old(sink).black.list(k),
                self.grid(),
                r as int,
                c as int,
                dr as int,
                dc as int,
                true,
                k,
            ),
            forall|k: PatternKind| #[trigger] final(sink).white.list(k) == with_range(
                old(sink).white.list(k),
                self.grid(),
                r as int,
                c as int,
                dr as int,
                dc as int,
                false,
                k,
            ),
    {
        match self.classify_at(r, c, dr, dc) {
            Some(f) => {
                let span = bit_len(f.mask);
                let mut sr = r;
                let mut sc = c;
                let mut len = span;
                let br = r - dr;
                let bc = c - dc;
                let back = Self::in_bounds(br, bc) && self.get(br, bc) == Cell::Empty;
                if back {
                    sr = br;
                    sc = bc;
                    len += 1;
                }
                assert(-32 <= dr * span <= 32 && -32 <= dc * span <= 32) by (nonlinear_arith)
                    requires
                        -1 <= dr <= 1,
                        -1 <= dc <= 1,
                        0 <= span <= 32,
                ;
                let ar = r + dr * span;
                let ac = c + dc * span;
                let ahead = Self::in_bounds(ar, ac) && self.get(ar, ac) == Cell::Empty;
                if ahead {
                    len += 1;
                }
                let ghost want = formation_cells(self.grid(), r as int, c as int, dr as int, dc as int);
                let mut cells: Vec<(i32, i32)> = Vec::new();
                let mut i: i32 = 0;
                while i < len
                    invariant
                        0 <= i <= len,
                        0 <= len <= 34,
                        -101 <= sr <= 101,
                        -101 <= sc <= 101,
                        -1 <= dr <= 1,
                        -1 <= dc <= 1,
                        len == want.len(),
                        forall|j: int| 0 <= j < want.len() ==> #[trigger] want[j] == ((sr + dr * j) as i32, (sc + dc * j) as i32),
                        cells@ == want.take(i as int),
                    decreases len - i,
                {
                    assert(-34 <= dr * i <= 34 && -34 <= dc * i <= 34) by (nonlinear_arith)
                        requires
                            -1 <= dr <= 1,
                            -1 <= dc <= 1,
                            0 <= i <= 34,
                    ;
                    cells.push((sr + dr * i, sc + dc * i));
                    proof {
                        assert(want.take(i + 1) =~= want.take(i as int).push(want[i as int]));
                    }
                    i += 1;
                }
                proof {
                    assert(want.take(len as int) =~= want);
                }
                if f.color == Cell::Black {
                    sink.black.add(f.kind, cells);
                } else {
                    sink.white.add(f.kind, cells);
                }
            },
            None => {},
        }
    }

    /// Every formation's cells, both colours, in one pass.
    pub fn scan_all_ranges(&self, sink: &mut RangeSink)
        requires
            forall|k: PatternKind| #[trigger] old(sink).black.list(k) == Seq::<Seq<(i32, i32)>>::empty(),
            forall|k: PatternKind| #[trigger] old(sink).white.list(k) == Seq::<Seq<(i32, i32)>>::empty(),
        ensures
            forall|k: PatternKind| #[trigger] final(sink).black.list(k) == all_ranges(self.grid(), true, k),
            forall|k: PatternKind| #[trigger] final(sink).white.list(k) == all_ranges(self.grid(), false, k),
    {
        let mut r: i32 = 0;
        while r < 19
            invariant
                0 <= r <= 19,
                forall|k: PatternKind| #[trigger] sink.black.list(k) == board_ranges(self.grid(), true, k, r as int, 0, 0),
                forall|k: PatternKind| #[trigger] sink.white.list(k) == board_ranges(self.grid(), false, k, r as int, 0, 0),
            decreases 19 - r,
        {
            let mut c: i32 = 0;
            while c < 19
                invariant
                    0 <= r < 19,
                    0 <= c <= 19,
                    c == 0 ==> forall|k: PatternKind| #[trigger] sink.black.list(k) == board_ranges(
                        self.grid(),
                        true,
                        k,
                        r as int,
                        0,
                        0,
                    ),
                    c == 0 ==> forall|k: PatternKind| #[trigger] sink.white.list(k) == board_ranges(
                        self.grid(),
                        false,
                        k,
                        r as int,
                        0,
                        0,
                    ),
                    c > 0 ==> forall|k: PatternKind| #[trigger] sink.black.list(k) == board_ranges(
                        self.grid(),
                        true,
                        k,
                        r as int,
                        c - 1,
                        4,
                    ),
                    c > 0 ==> forall|k: PatternKind| #[trigger] sink.white.list(k) == board_ranges(
                        self.grid(),
                        false,
                        k,
                        r as int,
                        c - 1,
                        4,
                    ),
                decreases 19 - c,
            {
                let mut d: usize = 0;
                while d < 4
                    invariant
                        0 <= r < 19,
                        0 <= c < 19,
                        0 <= d <= 4,
                        forall|k: PatternKind| #[trigger] sink.black.list(k) == board_ranges(
                            self.grid(),
                            true,
                            k,
                            r as int,
                            c as int,
                            d as int,
                        ),
                        forall|k: PatternKind| #[trigger] sink.white.list(k) == board_ranges(
                            self.grid(),
                            false,
                            k,
                            r as int,
                            c as int,
                            d as int,
                        ),
                    decreases 4 - d,
                {
                    let (dr, dc) = scan_dir_at(d);
                    self.emit_range_at(r, c, dr, dc, sink);
                    d += 1;
                }
                c += 1;
            }
            r += 1;
        }
    }

    /// The cells of every formation on the board, for Black and for White.
    pub fn sb_collect_patterns(&self) -> (res: (PlayerRanges, PlayerRanges))
        ensures
            forall|k: PatternKind| #[trigger] res.0.list(k) == all_ranges(self.grid(), true, k),
            forall|k: PatternKind| #[trigger] res.1.list(k) == all_ranges(self.grid(), false, k),
    {
        let mut sink = RangeSink { black: PlayerRanges::new(), white: PlayerRanges::new() };
        self.scan_all_ranges(&mut sink);
        (sink.black, sink.white)
    }
}

} // verus!
