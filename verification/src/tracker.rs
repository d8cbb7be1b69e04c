//! A game state that keeps, besides the board, the lists of formations each
//! player holds: free threes, open twos, threes and fours, and fives. Every
//! move updates the lists where the board changed: formations through a
//! cell that changes are dropped, new ones through the placed stone (or
//! next to captured stones) are added.
use vstd::prelude::*;
use crate::gomoku::{cap_dir, cap_dir_at, MoveResult, Stone};
use crate::search_board::recognize::{scan_dir, scan_dir_at};
use crate::search_board::rules::{three_dir, three_dir_at};

verus! {

/// A board as a function from coordinates to stones.
pub type Board = spec_fn(int, int) -> Stone;

/// A formation: the cells it spans.
pub type Pattern = Seq<(i32, i32)>;

/// `(x, y)` lies on an `n`x`n` board.
pub open spec fn on(n: int, x: int, y: int) -> bool {
    0 <= x < n && 0 <= y < n
}

/// The formation lists of one player.
pub struct Formations {
    pub free_three: Vec<Vec<(i32, i32)>>,
    pub five_row: Vec<Vec<(i32, i32)>>,
    pub open_two: Vec<Vec<(i32, i32)>>,
    pub open_three: Vec<Vec<(i32, i32)>>,
    pub open_four: Vec<Vec<(i32, i32)>>,
}

/// The cell lists of a list of vectors.
pub open spec fn pats(v: Seq<Vec<(i32, i32)>>) -> Seq<Pattern> {
    v.map_values(|x: Vec<(i32, i32)>| x@)
}

impl Formations {
    pub fn new() -> (f: Formations)
        ensures
            pats(f.free_three@) == Seq::<Pattern>::empty(),
            pats(f.five_row@) == Seq::<Pattern>::empty(),
            pats(f.open_two@) == Seq::<Pattern>::empty(),
            pats(f.open_three@) == Seq::<Pattern>::empty(),
            pats(f.open_four@) == Seq::<Pattern>::empty(),
    {
        let f = Formations {
            free_three: Vec::new(),
            five_row: Vec::new(),
            open_two: Vec::new(),
            open_three: Vec::new(),
            open_four: Vec::new(),
        };
        assert(pats(f.free_three@) =~= Seq::<Pattern>::empty());
        assert(pats(f.five_row@) =~= Seq::<Pattern>::empty());
        assert(pats(f.open_two@) =~= Seq::<Pattern>::empty());
        assert(pats(f.open_three@) =~= Seq::<Pattern>::empty());
        assert(pats(f.open_four@) =~= Seq::<Pattern>::empty());
        f
    }
}

/// A game in progress, with its formation lists.
pub struct Gomoku {
    pub size: usize,
    /// `board[x][y]`.
    pub board: Vec<Vec<Stone>>,
    pub current_player: Stone,
    pub opponent_player: Stone,
    pub black_captures: i32,
    pub white_captures: i32,
    pub black: Formations,
    pub white: Formations,
    pub win_capture_count: i32,
    pub current_move: Option<(i32, i32)>,
}

impl Gomoku {
    /// A square board of at most 46340 rows (so that its cell count fits an
    /// `i32`), and the two players are Black and White in some order.
    pub open spec fn wf(self) -> bool {
        &&& self.size <= 46340
        &&& self.board@.len() == self.size
        &&& forall|r: int| 0 <= r < self.size ==> #[trigger] self.board@[r]@.len() == self.size
        &&& ((self.current_player == Stone::Black && self.opponent_player == Stone::White) || (self.current_player
            == Stone::White && self.opponent_player == Stone::Black))
    }

    pub open spec fn n(self) -> int {
        self.size as int
    }

    /// The stone on `(x, y)`; `Empty` off the board.
    pub open spec fn stone(self, x: int, y: int) -> Stone {
        if on(self.size as int, x, y) {
            self.board@[x]@[y]
        } else {
            Stone::Empty
        }
    }

    /// The board as a function.
    pub open spec fn cells(self) -> Board {
        |x: int, y: int| self.stone(x, y)
    }

    /// A new game on a `size`x`size` board, Black (`X`) to move.
    pub fn new(size: usize) -> (g: Gomoku)
        requires
            size <= 46340,
        ensures
            g.wf(),
            g.size == size,
            forall|x: int, y: int| #[trigger] g.stone(x, y) == Stone::Empty,
            g.current_player == Stone::Black,
            g.opponent_player == Stone::White,
            g.black_captures == 0,
            g.white_captures == 0,
            pats(g.black.free_three@).len() == 0 && pats(g.white.free_three@).len() == 0,
            pats(g.black.five_row@).len() == 0 && pats(g.white.five_row@).len() == 0,
            pats(g.black.open_two@).len() == 0 && pats(g.white.open_two@).len() == 0,
            pats(g.black.open_three@).len() == 0 && pats(g.white.open_three@).len() == 0,
            pats(g.black.open_four@).len() == 0 && pats(g.white.open_four@).len() == 0,
            g.win_capture_count == 5,
            g.current_move is None,
    {
        let mut board: Vec<Vec<Stone>> = Vec::new();
        let mut r: usize = 0;
        while r < size
            invariant
                0 <= r <= size,
                board@.len() == r,
                forall|i: int| 0 <= i < r ==> #[trigger] board@[i]@.len() == size,
                forall|i: int, j: int| 0 <= i < r && 0 <= j < size ==> #[trigger] board@[i]@[j] == Stone::Empty,
            decreases size - r,
        {
            let mut row: Vec<Stone> = Vec::new();
            let mut c: usize = 0;
            while c < size
                invariant
                    0 <= c <= size,
                    row@.len() == c,
                    forall|j: int| 0 <= j < c ==> #[trigger] row@[j] == Stone::Empty,
                decreases size - c,
            {
                row.push(Stone::Empty);
                c += 1;
            }
            board.push(row);
            r += 1;
        }
        Gomoku {
            size,
            board,
            current_player: Stone::Black,
            opponent_player: Stone::White,
            black_captures: 0,
            white_captures: 0,
            black: Formations::new(),
            white: Formations::new(),
            win_capture_count: 5,
            current_move: None,
        }
    }

    pub fn is_on_board(&self, x: i32, y: i32) -> (b: bool)
        requires
            self.wf(),
        ensures
            b == on(self.size as int, x as int, y as int),
    {
        x >= 0 && y >= 0 && (x as usize) < self.size && (y as usize) < self.size
    }

    /// The stone on `(x, y)`, which is on the board.
    pub fn at(&self, x: i32, y: i32) -> (s: Stone)
        requires
            self.wf(),
            on(self.size as int, x as int, y as int),
        ensures
            s == self.stone(x as int, y as int),
    {
        self.board[x as usize][y as usize]
    }
}

/// The walk of `count_free_three` from offset `i`: stones of `me` and empty
/// cells along `sign * (dx, dy)` from `(x0, y0)`, stopping at the edge, at a
/// stone of `opp`, or once two empty cells were passed; whether an empty
/// cell came before one of the stones.
pub open spec fn three_walk(
    n: int,
    b: Board,
    me: Stone,
    opp: Stone,
    sign: int,
    dx: int,
    dy: int,
    x0: int,
    y0: int,
    i: int,
    my: int,
    empty: int,
    hole: bool,
) -> (int, int, bool)
    decreases n + 2 - i,
{
    let x = x0 + dx * i * sign;
    let y = y0 + dy * i * sign;
    if i > n + 1 || !on(n, x, y) || b(x, y) == opp || empty == 2 {
        (my, empty, hole)
    } else if b(x, y) == me {
        three_walk(n, b, me, opp, sign, dx, dy, x0, y0, i + 1, my + 1, empty, hole || empty > 0)
    } else {
        three_walk(n, b, me, opp, sign, dx, dy, x0, y0, i + 1, my, empty + 1, hole)
    }
}

/// The walk of `count_open`: the run of `me` along `sign * (dx, dy)` from
/// `(x0, y0)` from offset `i`, and whether the cell after it is empty.
pub open spec fn open_walk(n: int, b: Board, me: Stone, sign: int, dx: int, dy: int, x0: int, y0: int, i: int, my: int) -> (
    int,
    bool,
)
    decreases n + 2 - i,
{
    let x = x0 + dx * i * sign;
    let y = y0 + dy * i * sign;
    if i <= n + 1 && on(n, x, y) && b(x, y) == me {
        open_walk(n, b, me, sign, dx, dy, x0, y0, i + 1, my + 1)
    } else {
        (my, on(n, x, y) && b(x, y) == Stone::Empty)
    }
}

/// Offsets of at least `n + 1` cells from an on-board cell leave an
/// `n`x`n` board in any direction but none.
proof fn lemma_far_off(n: int, dx: int, dy: int, x0: int, y0: int, i: int, sign: int)
    requires
        on(n, x0, y0),
        -1 <= dx <= 1,
        -1 <= dy <= 1,
        dx != 0 || dy != 0,
        sign == 1 || sign == -1,
        i >= n + 1,
    ensures
        !on(n, x0 + dx * i * sign, y0 + dy * i * sign),
{
    assert(dx * i * sign >= n + 1 || dx * i * sign <= -(n + 1) || dx == 0) by (nonlinear_arith)
        requires
            -1 <= dx <= 1,
            sign == 1 || sign == -1,
            i >= n + 1,
    ;
    assert(dy * i * sign >= n + 1 || dy * i * sign <= -(n + 1) || dy == 0) by (nonlinear_arith)
        requires
            -1 <= dy <= 1,
            sign == 1 || sign == -1,
            i >= n + 1,
    ;
    if dx == 0 {
        assert(dx * i * sign == 0) by (nonlinear_arith)
            requires
                dx == 0,
        ;
    }
    if dy == 0 {
        assert(dy * i * sign == 0) by (nonlinear_arith)
            requires
                dy == 0,
        ;
    }
}

impl Gomoku {
    /// Walk from `(x0, y0)` along `sign * (dx, dy)`: the stones of the side to
    /// move met before the walk stops (at the edge, at an opposing stone, or
    /// after two empty cells), the empty cells met, and whether an empty cell
    /// came before a stone.
    pub fn count_free_three(&self, sign: i32, dx: i32, dy: i32, x0: i32, y0: i32) -> (r: (i32, i32, bool))
        requires
            self.wf(),
            on(self.size as int, x0 as int, y0 as int),
            sign == 1 || sign == -1,
            -1 <= dx <= 1,
            -1 <= dy <= 1,
            dx != 0 || dy != 0,
        ensures
            (r.0 as int, r.1 as int, r.2) == three_walk(
                self.n(),
                self.cells(),
                self.current_player,
                self.opponent_player,
                sign as int,
                dx as int,
                dy as int,
                x0 as int,
                y0 as int,
                1,
                0,
                0,
                false,
            ),
            0 <= r.0 <= self.size,
            0 <= r.1 <= 2,
    {
        let ghost n = self.n();
        let ghost target = three_walk(
            n,
            self.cells(),
            self.current_player,
            self.opponent_player,
            sign as int,
            dx as int,
            dy as int,
            x0 as int,
            y0 as int,
            1,
            0,
            0,
            false,
        );
        let mut my_count: i32 = 0;
        let mut empty_count: i32 = 0;
        let mut i: i32 = 1;
        let mut hole = false;
        loop
            invariant
                self.wf(),
                n == self.n(),
                on(n, x0 as int, y0 as int),
                sign == 1 || sign == -1,
                -1 <= dx <= 1,
                -1 <= dy <= 1,
                dx != 0 || dy != 0,
                1 <= i <= n + 1,
                0 <= my_count < i,
                0 <= empty_count <= 2,
                target == three_walk(
                    n,
                    self.cells(),
                    self.current_player,
                    self.opponent_player,
                    sign as int,
                    dx as int,
                    dy as int,
                    x0 as int,
                    y0 as int,
                    i as int,
                    my_count as int,
                    empty_count as int,
                    hole,
                ),
            ensures
                (my_count as int, empty_count as int, hole) == target,
                0 <= my_count <= n,
                0 <= empty_count <= 2,
            decreases n + 1 - i,
        {
            assert(-(n + 1) <= dx * i * sign <= n + 1 && -(n + 1) <= dy * i * sign <= n + 1 && -(n + 1) <= dx * i <= n + 1
                && -(n + 1) <= dy * i <= n + 1) by (nonlinear_arith)
                requires
                    -1 <= dx <= 1,
                    -1 <= dy <= 1,
                    sign == 1 || sign == -1,
                    1 <= i <= n + 1,
            ;
            let x = x0 + dx * i * sign;
            let y = y0 + dy * i * sign;
            proof {
                if i == n + 1 {
                    lemma_far_off(n, dx as int, dy as int, x0 as int, y0 as int, i as int, sign as int);
                }
            }
            if !self.is_on_board(x, y) || self.at(x, y) == self.opponent_player || empty_count == 2 {
                break;
            }
            if self.at(x, y) == self.current_player {
                if empty_count > 0 {
                    hole = true;
                }
                my_count += 1;
            } else {
                empty_count += 1;
            }
            i += 1;
        }
        (my_count, empty_count, hole)
    }

    /// The run of stones of the side to move from `(x0, y0)` along
    /// `sign * (dx, dy)`, and whether the cell after it is empty.
    pub fn count_open(&self, sign: i32, dx: i32, dy: i32, x0: i32, y0: i32) -> (r: (i32, bool))
        requires
            self.wf(),
            on(self.size as int, x0 as int, y0 as int),
            sign == 1 || sign == -1,
            -1 <= dx <= 1,
            -1 <= dy <= 1,
            dx != 0 || dy != 0,
        ensures
            (r.0 as int, r.1) == open_walk(
                self.n(),
                self.cells(),
                self.current_player,
                sign as int,
                dx as int,
                dy as int,
                x0 as int,
                y0 as int,
                1,
                0,
            ),
            0 <= r.0 <= self.size,
    {
        let ghost n = self.n();
        let ghost target = open_walk(
            n,
            self.cells(),
            self.current_player,
            sign as int,
            dx as int,
            dy as int,
            x0 as int,
            y0 as int,
            1,
            0,
        );
        let mut my_count: i32 = 0;
        let mut i: i32 = 1;
        loop
            invariant
                self.wf(),
                n == self.n(),
                on(n, x0 as int, y0 as int),
                sign == 1 || sign == -1,
                -1 <= dx <= 1,
                -1 <= dy <= 1,
                dx != 0 || dy != 0,
                1 <= i <= n + 1,
                my_count == i - 1,
                target == open_walk(
                    n,
                    self.cells(),
                    self.current_player,
                    sign as int,
                    dx as int,
                    dy as int,
                    x0 as int,
                    y0 as int,
                    i as int,
                    my_count as int,
                ),
            ensures
                1 <= i <= n + 1,
                my_count == i - 1,
                target == (my_count as int, on(n, x0 + dx * i * sign, y0 + dy * i * sign) && self.stone(
                    x0 + dx * i * sign,
                    y0 + dy * i * sign,
                ) == Stone::Empty),
            decreases n + 1 - i,
        {
            assert(-(n + 1) <= dx * i * sign <= n + 1 && -(n + 1) <= dy * i * sign <= n + 1 && -(n + 1) <= dx * i <= n + 1
                && -(n + 1) <= dy * i <= n + 1) by (nonlinear_arith)
                requires
                    -1 <= dx <= 1,
                    -1 <= dy <= 1,
                    sign == 1 || sign == -1,
                    1 <= i <= n + 1,
            ;
            let x = x0 + dx * i * sign;
            let y = y0 + dy * i * sign;
            proof {
                if i == n + 1 {
                    lemma_far_off(n, dx as int, dy as int, x0 as int, y0 as int, i as int, sign as int);
                }
            }
            if !self.is_on_board(x, y) || self.at(x, y) != self.current_player {
                break;
            }
            my_count += 1;
            i += 1;
        }
        assert(-(n + 1) <= dx * i * sign <= n + 1 && -(n + 1) <= dy * i * sign <= n + 1 && -(n + 1) <= dx * i <= n + 1
                && -(n + 1) <= dy * i <= n + 1) by (nonlinear_arith)
            requires
                -1 <= dx <= 1,
                -1 <= dy <= 1,
                sign == 1 || sign == -1,
                1 <= i <= n + 1,
        ;
        let x = x0 + dx * i * sign;
        let y = y0 + dy * i * sign;
        let open = self.is_on_board(x, y) && self.at(x, y) == Stone::Empty;
        (my_count, open)
    }
}

/// The cells `(x0, y0) + k * (dx, dy)` for `k` from `lo` to `hi`.
pub open spec fn segment(x0: int, y0: int, dx: int, dy: int, lo: int, hi: int) -> Pattern {
    Seq::new((hi - lo + 1) as nat, |k: int| ((x0 + dx * (lo + k)) as i32, (y0 + dy * (lo + k)) as i32))
}

/// The cells `(x0, y0) + k * (dx, dy)` for `k` from `lo` to `hi`.
pub fn make_segment(x0: i32, y0: i32, dx: i32, dy: i32, lo: i32, hi: i32) -> (v: Vec<(i32, i32)>)
    requires
        -100000 <= x0 <= 100000,
        -100000 <= y0 <= 100000,
        -1 <= dx <= 1,
        -1 <= dy <= 1,
        -100000 <= lo <= hi + 1,
        hi <= 100000,
    ensures
        v@ == segment(x0 as int, y0 as int, dx as int, dy as int, lo as int, hi as int),
{
    let ghost want = segment(x0 as int, y0 as int, dx as int, dy as int, lo as int, hi as int);
    let mut v: Vec<(i32, i32)> = Vec::new();
    let mut k: i32 = lo;
    while k <= hi
        invariant
            lo <= k <= hi + 1,
            -100000 <= lo,
            hi <= 100000,
            -100000 <= x0 <= 100000,
            -100000 <= y0 <= 100000,
            -1 <= dx <= 1,
            -1 <= dy <= 1,
            want == segment(x0 as int, y0 as int, dx as int, dy as int, lo as int, hi as int),
            v@ == want.take(k - lo),
        decreases hi + 1 - k,
    {
        assert(-100000 <= dx * k <= 100000 && -100000 <= dy * k <= 100000) by (nonlinear_arith)
            requires
                -1 <= dx <= 1,
                -1 <= dy <= 1,
                -100000 <= k <= 100000,
        ;
        v.push((x0 + dx * k, y0 + dy * k));
        proof {
            assert(want.take(k - lo + 1) =~= want.take(k - lo).push(want[k - lo]));
        }
        k += 1;
    }
    proof {
        assert(want.take(hi + 1 - lo) =~= want);
    }
    v
}

/// The free three a stone of `me` on `(x0, y0)` makes along `(dx, dy)`, if
/// any: the cells from its far end on one side to the other.
pub open spec fn move_three_dir(n: int, b: Board, me: Stone, opp: Stone, x0: int, y0: int, dx: int, dy: int) -> Option<
    Pattern,
> {
    let (pm, pe, ph) = three_walk(n, b, me, opp, 1, dx, dy, x0, y0, 1, 0, 0, false);
    let (mm, me_, mh) = three_walk(n, b, me, opp, -1, dx, dy, x0, y0, 1, 0, 0, false);
    if pm + mm == 2 && pe + me_ >= 3 {
        let ame = if ph && me_ == 2 {
            1
        } else {
            me_
        };
        let ape = if mh && pe == 2 {
            1
        } else {
            pe
        };
        Some(segment(x0, y0, dx, dy, -(ame + mm), ape + pm))
    } else {
        None
    }
}

/// The free threes a stone on `(x0, y0)` makes along the first `d` of the
/// four directions.
pub open spec fn move_threes(n: int, b: Board, me: Stone, opp: Stone, x0: int, y0: int, d: int) -> Seq<Pattern>
    decreases d,
{
    if d <= 0 {
        Seq::empty()
    } else {
        let prev = move_threes(n, b, me, opp, x0, y0, d - 1);
        match move_three_dir(n, b, me, opp, x0, y0, three_dir(d - 1).0, three_dir(d - 1).1) {
            Some(p) => prev.push(p),
            None => prev,
        }
    }
}

/// The free threes of `me` that the empty cell `(x0, y0)`, freed by a
/// capture, opens along `(dx, dy)`.
pub open spec fn capture_three_dir(n: int, b: Board, me: Stone, opp: Stone, x0: int, y0: int, dx: int, dy: int) -> Seq<
    Pattern,
> {
    let (pm, pe, ph) = three_walk(n, b, me, opp, 1, dx, dy, x0, y0, 1, 0, 0, false);
    let (mm, me_, mh) = three_walk(n, b, me, opp, -1, dx, dy, x0, y0, 1, 0, 0, false);
    if (pm == 3 && pe == 2) || (mm == 3 && me_ == 2) {
        let plus: Seq<Pattern> = if pm == 3 && pe == 2 {
            seq![segment(x0, y0, dx, dy, 0, pm + pe)]
        } else {
            Seq::empty()
        };
        let minus: Seq<Pattern> = if mm == 3 && me_ == 2 {
            seq![segment(x0, y0, dx, dy, -(mm + me_), 0)]
        } else {
            Seq::empty()
        };
        plus + minus
    } else if !ph && !mh && pm + mm == 3 && pe > 0 && me_ > 0 {
        seq![segment(x0, y0, dx, dy, -(mm + 1), pm + 1)]
    } else {
        Seq::empty()
    }
}

/// The free threes the freed cell `(x0, y0)` opens along the first `d`
/// of the four directions.
pub open spec fn capture_threes(n: int, b: Board, me: Stone, opp: Stone, x0: int, y0: int, d: int) -> Seq<Pattern>
    decreases d,
{
    if d <= 0 {
        Seq::empty()
    } else {
        capture_threes(n, b, me, opp, x0, y0, d - 1) + capture_three_dir(
            n,
            b,
            me,
            opp,
            x0,
            y0,
            three_dir(d - 1).0,
            three_dir(d - 1).1,
        )
    }
}

/// Which list a line through a new stone of `me` on `(x0, y0)` along
/// `(dx, dy)` joins (2 open two, 3 open three, 4 open four, 5 five in a row)
/// and its cells.
pub open spec fn open_dir(n: int, b: Board, me: Stone, x0: int, y0: int, dx: int, dy: int) -> Option<(int, Pattern)> {
    let (pm, po) = open_walk(n, b, me, 1, dx, dy, x0, y0, 1, 0);
    let (mm, mo) = open_walk(n, b, me, -1, dx, dy, x0, y0, 1, 0);
    let total = pm + mm;
    if total == 1 && po && mo {
        Some((2, segment(x0, y0, dx, dy, -(mm + 1), pm + 1)))
    } else if total == 2 && po && mo {
        Some((3, segment(x0, y0, dx, dy, -(mm + 1), pm + 1)))
    } else if total == 3 && (po || mo) {
        Some((4, segment(x0, y0, dx, dy, -(mm + 1), pm + 1)))
    } else if total == 4 {
        Some((5, segment(x0, y0, dx, dy, -mm, pm)))
    } else {
        None
    }
}

/// The lines of list `kind` through a new stone on `(x0, y0)`, over the
/// first `d` of the four scan directions.
pub open spec fn opens(n: int, b: Board, me: Stone, x0: int, y0: int, d: int, kind: int) -> Seq<Pattern>
    decreases d,
{
    if d <= 0 {
        Seq::empty()
    } else {
        let prev = opens(n, b, me, x0, y0, d - 1, kind);
        match open_dir(n, b, me, x0, y0, scan_dir(d - 1).0, scan_dir(d - 1).1) {
            Some((k, p)) => if k == kind {
                prev.push(p)
            } else {
                prev
            },
            None => prev,
        }
    }
}

impl Gomoku {
    /// The free threes a stone of the side to move, already on `(x0, y0)`,
    /// makes.
    pub fn get_free_threes_from_move(&self, x0: i32, y0: i32) -> (v: Vec<Vec<(i32, i32)>>)
        requires
            self.wf(),
            on(self.size as int, x0 as int, y0 as int),
        ensures
            pats(v@) == move_threes(
                self.n(),
                self.cells(),
                self.current_player,
                self.opponent_player,
                x0 as int,
                y0 as int,
                4,
            ),
    {
        let ghost n = self.n();
        let mut out: Vec<Vec<(i32, i32)>> = Vec::new();
        let mut d: usize = 0;
        while d < 4
            invariant
                0 <= d <= 4,
                self.wf(),
                n == self.n(),
                on(n, x0 as int, y0 as int),
                pats(out@) == move_threes(
                    n,
                    self.cells(),
                    self.current_player,
                    self.opponent_player,
                    x0 as int,
                    y0 as int,
                    d as int,
                ),
            decreases 4 - d,
        {
            let (dx, dy) = three_dir_at(d);
            let (plus_my, plus_empty, plus_hole) = self.count_free_three(1, dx, dy, x0, y0);
            let (minus_my, minus_empty, minus_hole) = self.count_free_three(-1, dx, dy, x0, y0);
            if plus_my + minus_my == 2 && plus_empty + minus_empty >= 3 {
                let mut adjusted_plus_empty = plus_empty;
                let mut adjusted_minus_empty = minus_empty;
                if plus_hole && minus_empty == 2 {
                    adjusted_minus_empty = 1;
                }
                if minus_hole && plus_empty == 2 {
                    adjusted_plus_empty = 1;
                }
                let plus_end = adjusted_plus_empty + plus_my;
                let minus_end = adjusted_minus_empty + minus_my;
                let points = make_segment(x0, y0, dx, dy, -minus_end, plus_end);
                let ghost before = out@;
                out.push(points);
                proof {
                    assert(pats(out@) =~= pats(before).push(points@));
                }
            }
            d += 1;
        }
        out
    }

    /// The free threes of the side to move that the freed cell `(x0, y0)`
    /// opens.
    pub fn get_free_threes_from_capture(&self, x0: i32, y0: i32) -> (v: Vec<Vec<(i32, i32)>>)
        requires
            self.wf(),
            on(self.size as int, x0 as int, y0 as int),
        ensures
            pats(v@) == capture_threes(
                self.n(),
                self.cells(),
                self.current_player,
                self.opponent_player,
                x0 as int,
                y0 as int,
                4,
            ),
    {
        let ghost n = self.n();
        let mut out: Vec<Vec<(i32, i32)>> = Vec::new();
        let mut d: usize = 0;
        while d < 4
            invariant
                0 <= d <= 4,
                self.wf(),
                n == self.n(),
                on(n, x0 as int, y0 as int),
                pats(out@) == capture_threes(
                    n,
                    self.cells(),
                    self.current_player,
                    self.opponent_player,
                    x0 as int,
                    y0 as int,
                    d as int,
                ),
            decreases 4 - d,
        {
            let (dx, dy) = three_dir_at(d);
            let (plus_my, plus_empty, plus_hole) = self.count_free_three(1, dx, dy, x0, y0);
            let (minus_my, minus_empty, minus_hole) = self.count_free_three(-1, dx, dy, x0, y0);
            let ghost before = pats(out@);
            if (plus_my == 3 && plus_empty == 2) || (minus_my == 3 && minus_empty == 2) {
                if plus_my == 3 && plus_empty == 2 {
                    let points = make_segment(x0, y0, dx, dy, 0, plus_my + plus_empty);
                    out.push(points);
                }
                if minus_my == 3 && minus_empty == 2 {
                    let points = make_segment(x0, y0, dx, dy, -(minus_my + minus_empty), 0);
                    out.push(points);
                }
            } else if !plus_hole && !minus_hole {
                if plus_my + minus_my == 3 && plus_empty > 0 && minus_empty > 0 {
                    let plus_end = plus_my + 1;
                    let minus_end = minus_my + 1;
                    let points = make_segment(x0, y0, dx, dy, -minus_end, plus_end);
                    out.push(points);
                }
            }
            proof {
                let add = capture_three_dir(
                    n,
                    self.cells(),
                    self.current_player,
                    self.opponent_player,
                    x0 as int,
                    y0 as int,
                    dx as int,
                    dy as int,
                );
                assert(pats(out@) =~= before + add);
            }
            d += 1;
        }
        out
    }
}

/// `list` with each pattern of `new` added unless already there.
pub open spec fn add_unique(list: Seq<Pattern>, new: Seq<Pattern>) -> Seq<Pattern>
    decreases new.len(),
{
    if new.len() == 0 {
        list
    } else {
        let l = add_unique(list, new.drop_last());
        if l.contains(new.last()) {
            l
        } else {
            l.push(new.last())
        }
    }
}

/// `p` without the cell `pos`.
pub open spec fn drop_pos(p: Pattern, pos: (i32, i32)) -> Pattern
    decreases p.len(),
{
    if p.len() == 0 {
        p
    } else {
        let r = drop_pos(p.drop_last(), pos);
        if p.last() == pos {
            r
        } else {
            r.push(p.last())
        }
    }
}

/// The free threes left when `pos` changes: those not through it stay, a
/// seven-cell one with `pos` at an end loses that end, the others go.
pub open spec fn trim_threes(list: Seq<Pattern>, pos: (i32, i32)) -> Seq<Pattern>
    decreases list.len(),
{
    if list.len() == 0 {
        list
    } else {
        let r = trim_threes(list.drop_last(), pos);
        let ft = list.last();
        if !ft.contains(pos) {
            r.push(ft)
        } else if ft.len() == 7 && (ft[0] == pos || ft[6] == pos) {
            r.push(drop_pos(ft, pos))
        } else {
            r
        }
    }
}

/// The patterns of `list` not through `pos`.
pub open spec fn drop_containing(list: Seq<Pattern>, pos: (i32, i32)) -> Seq<Pattern>
    decreases list.len(),
{
    if list.len() == 0 {
        list
    } else {
        let r = drop_containing(list.drop_last(), pos);
        if list.last().contains(pos) {
            r
        } else {
            r.push(list.last())
        }
    }
}

/// `p` holds the cell `pos`.
pub fn has_pos(p: &Vec<(i32, i32)>, pos: (i32, i32)) -> (b: bool)
    ensures
        b == p@.contains(pos),
{
    let mut i: usize = 0;
    while i < p.len()
        invariant
            0 <= i <= p.len(),
            forall|j: int| 0 <= j < i ==> p@[j] != pos,
        decreases p.len() - i,
    {
        let (a, b) = p[i];
        if a == pos.0 && b == pos.1 {
            assert(p@[i as int] == pos);
            return true;
        }
        i += 1;
    }
    false
}

/// `a` and `b` hold the same cells in the same order.
pub fn same_pattern(a: &Vec<(i32, i32)>, b: &Vec<(i32, i32)>) -> (r: bool)
    ensures
        r == (a@ == b@),
{
    if a.len() != b.len() {
        return false;
    }
    let mut i: usize = 0;
    while i < a.len()
        invariant
            0 <= i <= a.len(),
            a.len() == b.len(),
            forall|j: int| 0 <= j < i ==> a@[j] == b@[j],
        decreases a.len() - i,
    {
        let (x0, y0) = a[i];
        let (x1, y1) = b[i];
        if x0 != x1 || y0 != y1 {
            return false;
        }
        i += 1;
    }
    assert(a@ =~= b@);
    true
}

/// A copy of `p`.
pub fn copy_pattern(p: &Vec<(i32, i32)>) -> (v: Vec<(i32, i32)>)
    ensures
        v@ == p@,
{
    let mut v: Vec<(i32, i32)> = Vec::new();
    let mut i: usize = 0;
    while i < p.len()
        invariant
            0 <= i <= p.len(),
            v@ == p@.take(i as int),
        decreases p.len() - i,
    {
        v.push(p[i]);
        proof {
            assert(p@.take(i + 1) =~= p@.take(i as int).push(p@[i as int]));
        }
        i += 1;
    }
    assert(p@.take(p.len() as int) =~= p@);
    v
}

/// `list` holds the pattern `p`.
pub fn contains_pattern(list: &Vec<Vec<(i32, i32)>>, p: &Vec<(i32, i32)>) -> (b: bool)
    ensures
        b == pats(list@).contains(p@),
{
    let mut i: usize = 0;
    while i < list.len()
        invariant
            0 <= i <= list.len(),
            forall|j: int| 0 <= j < i ==> pats(list@)[j] != p@,
        decreases list.len() - i,
    {
        if same_pattern(&list[i], p) {
            assert(pats(list@)[i as int] == p@);
            return true;
        }
        i += 1;
    }
    false
}

/// Add each pattern of `new` to `list` unless it is there already.
pub fn add_unique_into(list: &mut Vec<Vec<(i32, i32)>>, new: Vec<Vec<(i32, i32)>>)
    ensures
        pats(final(list)@) == add_unique(pats(old(list)@), pats(new@)),
{
    let ghost start = pats(list@);
    let mut i: usize = 0;
    while i < new.len()
        invariant
            0 <= i <= new.len(),
            pats(list@) == add_unique(start, pats(new@).take(i as int)),
        decreases new.len() - i,
    {
        let ghost taken = pats(new@).take(i + 1);
        proof {
            assert(taken.drop_last() =~= pats(new@).take(i as int));
            assert(taken.last() == new@[i as int]@);
        }
        if !contains_pattern(list, &new[i]) {
            let p = copy_pattern(&new[i]);
            let ghost before = pats(list@);
            list.push(p);
            proof {
                assert(pats(list@) =~= before.push(p@));
            }
        }
        i += 1;
    }
    proof {
        assert(pats(new@).take(new.len() as int) =~= pats(new@));
    }
}

/// `p` without the cell `pos`.
pub fn without_pos(p: &Vec<(i32, i32)>, pos: (i32, i32)) -> (v: Vec<(i32, i32)>)
    ensures
        v@ == drop_pos(p@, pos),
{
    let mut v: Vec<(i32, i32)> = Vec::new();
    let mut i: usize = 0;
    while i < p.len()
        invariant
            0 <= i <= p.len(),
            v@ == drop_pos(p@.take(i as int), pos),
        decreases p.len() - i,
    {
        proof {
            assert(p@.take(i + 1).drop_last() =~= p@.take(i as int));
        }
        let (a, b) = p[i];
        if !(a == pos.0 && b == pos.1) {
            v.push((a, b));
        }
        i += 1;
    }
    proof {
        assert(p@.take(p.len() as int) =~= p@);
    }
    v
}

/// Update the free-three list for a change at `pos` as `trim_threes` says.
pub fn trim_threes_in(list: &mut Vec<Vec<(i32, i32)>>, pos: (i32, i32))
    ensures
        pats(final(list)@) == trim_threes(pats(old(list)@), pos),
{
    let ghost start = pats(list@);
    let mut out: Vec<Vec<(i32, i32)>> = Vec::new();
    let mut i: usize = 0;
    while i < list.len()
        invariant
            0 <= i <= list.len(),
            start == pats(list@),
            pats(out@) == trim_threes(start.take(i as int), pos),
        decreases list.len() - i,
    {
        proof {
            assert(start.take(i + 1).drop_last() =~= start.take(i as int));
            assert(start.take(i + 1).last() == list@[i as int]@);
        }
        let ft = &list[i];
        let ghost before = pats(out@);
        if !has_pos(ft, pos) {
            out.push(copy_pattern(ft));
            proof {
                assert(pats(out@) =~= before.push(ft@));
            }
        } else if ft.len() == 7 && ((ft[0].0 == pos.0 && ft[0].1 == pos.1) || (ft[6].0 == pos.0 && ft[6].1 == pos.1)) {
            let trimmed = without_pos(ft, pos);
            out.push(trimmed);
            proof {
                assert(pats(out@) =~= before.push(drop_pos(ft@, pos)));
            }
        } else {
            proof {
                assert(!(ft@.len() == 7 && (ft@[0] == pos || ft@[6] == pos)));
            }
        }
        i += 1;
    }
    proof {
        assert(start.take(list.len() as int) =~= start);
    }
    *list = out;
}

/// Drop the patterns through `pos`.
pub fn drop_containing_in(list: &mut Vec<Vec<(i32, i32)>>, pos: (i32, i32))
    ensures
        pats(final(list)@) == drop_containing(pats(old(list)@), pos),
{
    let ghost start = pats(list@);
    let mut out: Vec<Vec<(i32, i32)>> = Vec::new();
    let mut i: usize = 0;
    while i < list.len()
        invariant
            0 <= i <= list.len(),
            start == pats(list@),
            pats(out@) == drop_containing(start.take(i as int), pos),
        decreases list.len() - i,
    {
        proof {
            assert(start.take(i + 1).drop_last() =~= start.take(i as int));
            assert(start.take(i + 1).last() == list@[i as int]@);
        }
        let ft = &list[i];
        if !has_pos(ft, pos) {
            let ghost before = pats(out@);
            out.push(copy_pattern(ft));
            proof {
                assert(pats(out@) =~= before.push(ft@));
            }
        }
        i += 1;
    }
    proof {
        assert(start.take(list.len() as int) =~= start);
    }
    *list = out;
}

/// Append a copy of `p` to `list`.
pub fn push_pattern(list: &mut Vec<Vec<(i32, i32)>>, p: Vec<(i32, i32)>)
    ensures
        pats(final(list)@) == pats(old(list)@).push(p@),
{
    let ghost before = pats(list@);
    list.push(p);
    assert(pats(list@) =~= before.push(p@));
}

/// The formation lists of one player, as sequences of patterns.
#[verifier::ext_equal]
pub struct Lists {
    pub free_three: Seq<Pattern>,
    pub five_row: Seq<Pattern>,
    pub open_two: Seq<Pattern>,
    pub open_three: Seq<Pattern>,
    pub open_four: Seq<Pattern>,
}

/// A game as values: board size, board, players, formation lists, capture
/// counters, captures needed to win and the last move.
#[verifier::ext_equal]
pub struct Model {
    pub n: int,
    pub board: Board,
    pub me: Stone,
    pub opp: Stone,
    pub black: Lists,
    pub white: Lists,
    pub black_caps: int,
    pub white_caps: int,
    pub win: int,
    pub last: Option<(i32, i32)>,
}

impl Formations {
    pub open spec fn lists(self) -> Lists {
        Lists {
            free_three: pats(self.free_three@),
            five_row: pats(self.five_row@),
            open_two: pats(self.open_two@),
            open_three: pats(self.open_three@),
            open_four: pats(self.open_four@),
        }
    }
}

impl Gomoku {
    pub open spec fn model(self) -> Model {
        Model {
            n: self.size as int,
            board: self.cells(),
            me: self.current_player,
            opp: self.opponent_player,
            black: self.black.lists(),
            white: self.white.lists(),
            black_caps: self.black_captures as int,
            white_caps: self.white_captures as int,
            win: self.win_capture_count as int,
            last: self.current_move,
        }
    }
}

/// The lists of player `p`.
pub open spec fn lists_for(m: Model, p: Stone) -> Lists {
    if p == Stone::Black {
        m.black
    } else {
        m.white
    }
}

/// `m` with the lists of player `p` replaced by `l`.
pub open spec fn with_lists(m: Model, p: Stone, l: Lists) -> Model {
    if p == Stone::Black {
        Model { black: l, ..m }
    } else {
        Model { white: l, ..m }
    }
}

/// `m` with `s` on `(x, y)`.
pub open spec fn set_cell(m: Model, x: int, y: int, s: Stone) -> Model {
    Model {
        board: |a: int, b: int| if a == x && b == y && on(m.n, a, b) {
            s
        } else {
            (m.board)(a, b)
        },
        ..m
    }
}

/// The open lines and fives of `l` not through `pos`.
pub open spec fn drop_opens(l: Lists, pos: (i32, i32)) -> Lists {
    Lists {
        open_two: drop_containing(l.open_two, pos),
        open_three: drop_containing(l.open_three, pos),
        open_four: drop_containing(l.open_four, pos),
        five_row: drop_containing(l.five_row, pos),
        ..l
    }
}

/// Both players lose their open lines and fives through `pos`.
pub open spec fn remove_opens_m(m: Model, pos: (i32, i32)) -> Model {
    Model { black: drop_opens(m.black, pos), white: drop_opens(m.white, pos), ..m }
}

/// Player `p`'s free threes are trimmed for a change at `pos`.
pub open spec fn remove_free_three_m(m: Model, pos: (i32, i32), p: Stone) -> Model {
    with_lists(m, p, Lists { free_three: trim_threes(lists_for(m, p).free_three, pos), ..lists_for(m, p) })
}

/// Player `p` gains the free threes of `new` not already listed.
pub open spec fn add_free_threes_m(m: Model, new: Seq<Pattern>, p: Stone) -> Model {
    with_lists(m, p, Lists { free_three: add_unique(lists_for(m, p).free_three, new), ..lists_for(m, p) })
}

/// The side to move gains the open lines and fives through its stone on
/// `(x0, y0)`.
pub open spec fn check_opens_m(m: Model, x0: int, y0: int) -> Model {
    let l = lists_for(m, m.me);
    with_lists(
        m,
        m.me,
        Lists {
            open_two: l.open_two + opens(m.n, m.board, m.me, x0, y0, 4, 2),
            open_three: l.open_three + opens(m.n, m.board, m.me, x0, y0, 4, 3),
            open_four: l.open_four + opens(m.n, m.board, m.me, x0, y0, 4, 4),
            five_row: l.five_row + opens(m.n, m.board, m.me, x0, y0, 4, 5),
            ..l
        },
    )
}

/// Append all of `extra` to `list`.
pub fn append_all(list: &mut Vec<Vec<(i32, i32)>>, extra: Vec<Vec<(i32, i32)>>)
    ensures
        pats(final(list)@) == pats(old(list)@) + pats(extra@),
{
    let ghost start = pats(list@);
    let mut i: usize = 0;
    while i < extra.len()
        invariant
            0 <= i <= extra.len(),
            pats(list@) == start + pats(extra@).take(i as int),
        decreases extra.len() - i,
    {
        let p = copy_pattern(&extra[i]);
        let ghost before = pats(list@);
        list.push(p);
        proof {
            assert(pats(list@) =~= before.push(p@));
            assert(pats(extra@).take(i + 1) =~= pats(extra@).take(i as int).push(extra@[i as int]@));
            assert(pats(list@) =~= start + pats(extra@).take(i + 1));
        }
        i += 1;
    }
    proof {
        assert(pats(extra@).take(extra.len() as int) =~= pats(extra@));
    }
}

impl Formations {
    /// Drop the open lines and fives through `pos`.
    pub fn drop_opens_at(&mut self, pos: (i32, i32))
        ensures
            final(self).lists() == drop_opens(old(self).lists(), pos),
    {
        drop_containing_in(&mut self.open_two, pos);
        drop_containing_in(&mut self.open_three, pos);
        drop_containing_in(&mut self.open_four, pos);
        drop_containing_in(&mut self.five_row, pos);
        assert(self.lists() =~= drop_opens(old(self).lists(), pos));
    }
}

impl Gomoku {
    /// Put `s` on `(x, y)`.
    pub fn set_stone(&mut self, x: usize, y: usize, s: Stone)
        requires
            old(self).wf(),
            x < old(self).size,
            y < old(self).size,
        ensures
            final(self).wf(),
            final(self).model() == set_cell(old(self).model(), x as int, y as int, s),
    {
        let mut row = self.board[x].clone();
        row.set(y, s);
        self.board.set(x, row);
        proof {
            assert forall|a: int, b: int| #[trigger] self.stone(a, b) == (set_cell(old(self).model(), x as int, y as int, s).board)(a, b) by {
                if on(self.size as int, a, b) && a == x && b != y {
                    assert(self.board@[a]@[b] == old(self).board@[a]@[b]);
                }
            }
            assert(self.model() =~= set_cell(old(self).model(), x as int, y as int, s));
        }
    }

    /// Both players lose their open lines and fives through `(x, y)`.
    pub fn remove_opens(&mut self, x: i32, y: i32)
        requires
            old(self).wf(),
        ensures
            final(self).wf(),
            final(self).model() == remove_opens_m(old(self).model(), (x, y)),
    {
        self.black.drop_opens_at((x, y));
        self.white.drop_opens_at((x, y));
        assert(self.model() =~= remove_opens_m(old(self).model(), (x, y)));
    }

    /// Trim `player`'s free threes for a change at `(x, y)`.
    pub fn remove_free_three(&mut self, x: i32, y: i32, player: Stone)
        requires
            old(self).wf(),
        ensures
            final(self).wf(),
            final(self).model() == remove_free_three_m(old(self).model(), (x, y), player),
    {
        if player == Stone::Black {
            trim_threes_in(&mut self.black.free_three, (x, y));
        } else {
            trim_threes_in(&mut self.white.free_three, (x, y));
        }
        assert(self.model() =~= remove_free_three_m(old(self).model(), (x, y), player));
    }

    /// `player` gains the free threes of `new` not already listed.
    pub fn add_free_threes(&mut self, new: Vec<Vec<(i32, i32)>>, player: Stone)
        requires
            old(self).wf(),
        ensures
            final(self).wf(),
            final(self).model() == add_free_threes_m(old(self).model(), pats(new@), player),
    {
        if player == Stone::Black {
            add_unique_into(&mut self.black.free_three, new);
        } else {
            add_unique_into(&mut self.white.free_three, new);
        }
        assert(self.model() =~= add_free_threes_m(old(self).model(), pats(new@), player));
    }

    /// The side to move gains the open twos, threes, fours and fives through
    /// its stone on `(x0, y0)`.
    #[verifier::spinoff_prover]
    #[verifier::rlimit(40)]
    pub fn check_opens(&mut self, x0: i32, y0: i32)
        requires
            old(self).wf(),
            on(old(self).size as int, x0 as int, y0 as int),
        ensures
            final(self).wf(),
            final(self).model() == check_opens_m(old(self).model(), x0 as int, y0 as int),
    {
        let ghost m = self.model();
        let mut twos: Vec<Vec<(i32, i32)>> = Vec::new();
        let mut threes: Vec<Vec<(i32, i32)>> = Vec::new();
        let mut fours: Vec<Vec<(i32, i32)>> = Vec::new();
        let mut fives: Vec<Vec<(i32, i32)>> = Vec::new();
        let mut d: usize = 0;
        while d < 4
            invariant
                0 <= d <= 4,
                self.wf(),
                m == self.model(),
                on(m.n, x0 as int, y0 as int),
                pats(twos@) == opens(m.n, m.board, m.me, x0 as int, y0 as int, d as int, 2),
                pats(threes@) == opens(m.n, m.board, m.me, x0 as int, y0 as int, d as int, 3),
                pats(fours@) == opens(m.n, m.board, m.me, x0 as int, y0 as int, d as int, 4),
                pats(fives@) == opens(m.n, m.board, m.me, x0 as int, y0 as int, d as int, 5),
            decreases 4 - d,
        {
            let (dx, dy) = scan_dir_at(d);
            let (plus_my, plus_open) = self.count_open(1, dx, dy, x0, y0);
            let (minus_my, minus_open) = self.count_open(-1, dx, dy, x0, y0);
            let total_my = plus_my + minus_my;
            if total_my == 1 && plus_open && minus_open {
                let points = make_segment(x0, y0, dx, dy, -(minus_my + 1), plus_my + 1);
                push_pattern(&mut twos, points);
            } else if total_my == 2 && plus_open && minus_open {
                let points = make_segment(x0, y0, dx, dy, -(minus_my + 1), plus_my + 1);
                push_pattern(&mut threes, points);
            } else if total_my == 3 && (plus_open || minus_open) {
                let points = make_segment(x0, y0, dx, dy, -(minus_my + 1), plus_my + 1);
                push_pattern(&mut fours, points);
            } else if total_my == 4 {
                let points = make_segment(x0, y0, dx, dy, -minus_my, plus_my);
                push_pattern(&mut fives, points);
            }
            d += 1;
        }
        if self.current_player == Stone::Black {
            append_all(&mut self.black.open_two, twos);
            append_all(&mut self.black.open_three, threes);
            append_all(&mut self.black.open_four, fours);
            append_all(&mut self.black.five_row, fives);
        } else {
            append_all(&mut self.white.open_two, twos);
            append_all(&mut self.white.open_three, threes);
            append_all(&mut self.white.open_four, fours);
            append_all(&mut self.white.five_row, fives);
        }
        assert(self.model() =~= check_opens_m(m, x0 as int, y0 as int));
    }
}

/// Checking `(x, y)` for a double three: the free threes a stone of the side
/// to move there would make are computed with the stone in place, the cell
/// is emptied again, and unless there are two or more of them they join the
/// side to move's list.
pub open spec fn double_three_m(m: Model, x: int, y: int) -> (Model, bool) {
    let placed = set_cell(m, x, y, m.me);
    let new = move_threes(m.n, placed.board, m.me, m.opp, x, y, 4);
    let cleared = set_cell(m, x, y, Stone::Empty);
    if new.len() > 1 {
        (cleared, true)
    } else {
        (add_free_threes_m(cleared, new, m.me), false)
    }
}

/// Checking a move: off the board, occupied, a double three, or valid (with
/// the double-three check's effect on the lists).
pub open spec fn valid_move_m(m: Model, x: int, y: int) -> (Model, MoveResult) {
    if !on(m.n, x, y) {
        (m, MoveResult::OutOfBoard)
    } else if (m.board)(x, y) != Stone::Empty {
        (m, MoveResult::NotEmpty)
    } else {
        let (m2, dt) = double_three_m(m, x, y);
        (
            m2,
            if dt {
                MoveResult::DoubleThree
            } else {
                MoveResult::Valid
            },
        )
    }
}

/// The side to move on `(x, y)` brackets two opposing stones along `(dx, dy)`.
pub open spec fn brackets_m(m: Model, x: int, y: int, dx: int, dy: int) -> bool {
    &&& on(m.n, x + dx, y + dy)
    &&& (m.board)(x + dx, y + dy) == m.opp
    &&& on(m.n, x + 2 * dx, y + 2 * dy)
    &&& (m.board)(x + 2 * dx, y + 2 * dy) == m.opp
    &&& on(m.n, x + 3 * dx, y + 3 * dy)
    &&& (m.board)(x + 3 * dx, y + 3 * dy) == m.me
}

/// Emptying a cell: the opponent's free threes are trimmed and both
/// players' open lines through it dropped.
pub open spec fn clear_m(m: Model, x: int, y: int) -> Model {
    let pos = (x as i32, y as i32);
    remove_opens_m(remove_free_three_m(set_cell(m, x, y, Stone::Empty), pos, m.opp), pos)
}

/// Capturing the pair after `(x0, y0)` along `(dx, dy)`: both cells are
/// emptied, then the side to move gains the free threes the two freed
/// cells open.
pub open spec fn apply_capture_m(m: Model, x0: int, y0: int, dx: int, dy: int) -> Model {
    let m1 = clear_m(m, x0 + dx, y0 + dy);
    let m2 = clear_m(m1, x0 + 2 * dx, y0 + 2 * dy);
    let new = capture_threes(m2.n, m2.board, m2.me, m2.opp, x0 + dx, y0 + dy, 4) + capture_threes(
        m2.n,
        m2.board,
        m2.me,
        m2.opp,
        x0 + 2 * dx,
        y0 + 2 * dy,
        4,
    );
    add_free_threes_m(m2, new, m.me)
}

/// The captures from `(x0, y0)` over the first `d` capture directions, each
/// applied to the game the earlier ones left, and their number.
pub open spec fn capture_center_m(m: Model, x0: int, y0: int, d: int) -> (Model, int)
    decreases d,
{
    if d <= 0 {
        (m, 0)
    } else {
        let (mp, k) = capture_center_m(m, x0, y0, d - 1);
        let (dx, dy) = cap_dir(d - 1);
        if brackets_m(mp, x0, y0, dx, dy) {
            (apply_capture_m(mp, x0, y0, dx, dy), k + 1)
        } else {
            (mp, k)
        }
    }
}

/// `m` with `k` more pairs captured by `p`.
pub open spec fn add_caps(m: Model, p: Stone, k: int) -> Model {
    if k <= 0 {
        m
    } else if p == Stone::Black {
        Model { black_caps: m.black_caps + k, ..m }
    } else {
        Model { white_caps: m.white_caps + k, ..m }
    }
}

/// Playing `(x, y)`: the move is checked; if valid it becomes the last move,
/// the stone is placed, the opponent's free threes are trimmed and the
/// open lines through the cell dropped, the side to move's new open lines
/// added, and the bracketed pairs captured and counted.
pub open spec fn handle_move_m(m: Model, x: int, y: int) -> (Model, MoveResult, int) {
    let (m1, r) = valid_move_m(m, x, y);
    if r == MoveResult::Valid {
        let pos = (x as i32, y as i32);
        let m2 = Model { last: Some(pos), ..set_cell(m1, x, y, m.me) };
        let m3 = check_opens_m(remove_opens_m(remove_free_three_m(m2, pos, m.opp), pos), x, y);
        let (m4, k) = capture_center_m(m3, x, y, 8);
        (add_caps(m4, m.me, k), r, k)
    } else {
        (m1, r, 0)
    }
}

proof fn lemma_capture_count_bound(m: Model, x0: int, y0: int, d: int)
    requires
        0 <= d <= 8,
    ensures
        0 <= capture_center_m(m, x0, y0, d).1 <= d,
        capture_center_m(m, x0, y0, d).0.me == m.me,
        capture_center_m(m, x0, y0, d).0.opp == m.opp,
        capture_center_m(m, x0, y0, d).0.n == m.n,
        capture_center_m(m, x0, y0, d).0.black_caps == m.black_caps,
        capture_center_m(m, x0, y0, d).0.white_caps == m.white_caps,
    decreases d,
{
    if d > 0 {
        lemma_capture_count_bound(m, x0, y0, d - 1);
    }
}

impl Gomoku {
    /// Whether a stone of the side to move on `(x, y)` would make two or more
    /// free threes; if not, those it makes join its list.
    pub fn is_double_three_move(&mut self, x: i32, y: i32) -> (b: bool)
        requires
            old(self).wf(),
            on(old(self).size as int, x as int, y as int),
        ensures
            final(self).wf(),
            (final(self).model(), b) == double_three_m(old(self).model(), x as int, y as int),
    {
        let ghost m = self.model();
        let me = self.current_player;
        self.set_stone(x as usize, y as usize, me);
        let new = self.get_free_threes_from_move(x, y);
        self.set_stone(x as usize, y as usize, Stone::Empty);
        proof {
            assert(self.model() =~= set_cell(m, x as int, y as int, Stone::Empty));
        }
        if new.len() > 1 {
            true
        } else {
            self.add_free_threes(new, me);
            false
        }
    }

    /// Check a move for the side to move: off the board, occupied, a double
    /// three, or valid.
    pub fn is_valid_move(&mut self, x: i32, y: i32) -> (r: MoveResult)
        requires
            old(self).wf(),
        ensures
            final(self).wf(),
            (final(self).model(), r) == valid_move_m(old(self).model(), x as int, y as int),
    {
        if !self.is_on_board(x, y) {
            return MoveResult::OutOfBoard;
        }
        if self.at(x, y) != Stone::Empty {
            return MoveResult::NotEmpty;
        }
        if self.is_double_three_move(x, y) {
            return MoveResult::DoubleThree;
        }
        MoveResult::Valid
    }

    /// The side to move on `(x0, y0)` brackets two opposing stones along
    /// `(dx, dy)`.
    pub fn is_capture(&self, x0: i32, y0: i32, dx: i32, dy: i32) -> (b: bool)
        requires
            self.wf(),
            i32::MIN <= 3 * dx <= i32::MAX,
            i32::MIN <= 3 * dy <= i32::MAX,
            i32::MIN <= x0 + 3 * dx <= i32::MAX,
            i32::MIN <= y0 + 3 * dy <= i32::MAX,
        ensures
            b == brackets_m(self.model(), x0 as int, y0 as int, dx as int, dy as int),
    {
        let opp = self.opponent_player;
        let x1 = x0 + dx;
        let y1 = y0 + dy;
        if !self.is_on_board(x1, y1) || self.at(x1, y1) != opp {
            return false;
        }
        let x2 = x0 + 2 * dx;
        let y2 = y0 + 2 * dy;
        if !self.is_on_board(x2, y2) || self.at(x2, y2) != opp {
            return false;
        }
        let x3 = x0 + 3 * dx;
        let y3 = y0 + 3 * dy;
        self.is_on_board(x3, y3) && self.at(x3, y3) == self.current_player
    }

    /// Empty `(x, y)`, trim the opponent's free threes and drop the open
    /// lines through it.
    fn clear_cell(&mut self, x: i32, y: i32)
        requires
            old(self).wf(),
            on(old(self).size as int, x as int, y as int),
        ensures
            final(self).wf(),
            final(self).model() == clear_m(old(self).model(), x as int, y as int),
    {
        self.set_stone(x as usize, y as usize, Stone::Empty);
        let opp = self.opponent_player;
        self.remove_free_three(x, y, opp);
        self.remove_opens(x, y);
    }

    /// Capture the pair after `(x0, y0)` along `(dx, dy)`.
    pub fn apply_capture(&mut self, x0: i32, y0: i32, dx: i32, dy: i32)
        requires
            old(self).wf(),
            on(old(self).size as int, x0 as int, y0 as int),
            on(old(self).size as int, x0 + dx, y0 + dy),
            on(old(self).size as int, x0 + 2 * dx, y0 + 2 * dy),
            -1 <= dx <= 1,
            -1 <= dy <= 1,
        ensures
            final(self).wf(),
            final(self).model() == apply_capture_m(old(self).model(), x0 as int, y0 as int, dx as int, dy as int),
    {
        let x1 = x0 + dx;
        let y1 = y0 + dy;
        let x2 = x0 + 2 * dx;
        let y2 = y0 + 2 * dy;
        self.clear_cell(x1, y1);
        self.clear_cell(x2, y2);
        let mut new_free_threes = self.get_free_threes_from_capture(x1, y1);
        let more = self.get_free_threes_from_capture(x2, y2);
        append_all(&mut new_free_threes, more);
        let me = self.current_player;
        self.add_free_threes(new_free_threes, me);
    }

    /// Capture every pair the side to move brackets from `(x0, y0)`, in the
    /// fixed order of directions; the number of pairs.
    pub fn capture_center(&mut self, x0: i32, y0: i32) -> (k: i32)
        requires
            old(self).wf(),
            on(old(self).size as int, x0 as int, y0 as int),
            (if old(self).current_player == Stone::Black {
                old(self).black_captures
            } else {
                old(self).white_captures
            }) <= i32::MAX - 8,
        ensures
            final(self).wf(),
            k == capture_center_m(old(self).model(), x0 as int, y0 as int, 8).1,
            final(self).model() == add_caps(
                capture_center_m(old(self).model(), x0 as int, y0 as int, 8).0,
                old(self).current_player,
                k as int,
            ),
    {
        let ghost m = self.model();
        let mut capture_count: i32 = 0;
        let mut d: usize = 0;
        while d < 8
            invariant
                0 <= d <= 8,
                self.wf(),
                on(self.size as int, x0 as int, y0 as int),
                (self.model(), capture_count as int) == capture_center_m(m, x0 as int, y0 as int, d as int),
                capture_count <= d,
            decreases 8 - d,
        {
            proof {
                lemma_capture_count_bound(m, x0 as int, y0 as int, d as int);
            }
            let (dx, dy) = cap_dir_at(d);
            if self.is_capture(x0, y0, dx, dy) {
                self.apply_capture(x0, y0, dx, dy);
                capture_count += 1;
            }
            d += 1;
        }
        proof {
            lemma_capture_count_bound(m, x0 as int, y0 as int, 8);
        }
        let ghost mid = self.model();
        if capture_count > 0 {
            if self.current_player == Stone::Black {
                self.black_captures = self.black_captures + capture_count;
            } else {
                self.white_captures = self.white_captures + capture_count;
            }
        }
        proof {
            assert(self.model() =~= add_caps(mid, m.me, capture_count as int));
        }
        capture_count
    }

    /// Play `(x, y)` for the side to move if it is a valid move. Returns the move's
    /// outcome and the number of pairs captured.
    pub fn handle_move(&mut self, x: i32, y: i32) -> (r: (MoveResult, i32))
        requires
            old(self).wf(),
            (if old(self).current_player == Stone::Black {
                old(self).black_captures
            } else {
                old(self).white_captures
            }) <= i32::MAX - 8,
        ensures
            final(self).wf(),
            (final(self).model(), r.0, r.1 as int) == handle_move_m(old(self).model(), x as int, y as int),
    {
        let ghost m = self.model();
        let result = self.is_valid_move(x, y);
        let mut capture_count: i32 = 0;
        let ghost m1 = self.model();
        if result == MoveResult::Valid {
            self.current_move = Some((x, y));
            let me = self.current_player;
            let opp = self.opponent_player;
            self.set_stone(x as usize, y as usize, me);
            proof {
                assert(self.model() =~= Model { last: Some((x, y)), ..set_cell(m1, x as int, y as int, m.me) });
            }
            self.remove_free_three(x, y, opp);
            self.remove_opens(x, y);
            self.check_opens(x, y);
            capture_count = self.capture_center(x, y);
        }
        (result, capture_count)
    }
}

/// Number of empty cells in the first `k` cells of the board in row-major
/// order.
pub open spec fn empties_before(n: int, b: Board, k: int) -> int
    decreases k,
{
    if k <= 0 || n <= 0 {
        0
    } else {
        empties_before(n, b, k - 1) + if b((k - 1) / n, (k - 1) % n) == Stone::Empty {
            1int
        } else {
            0
        }
    }
}

/// Captured pairs of `p`.
pub open spec fn caps_of(m: Model, p: Stone) -> int {
    if p == Stone::Black {
        m.black_caps
    } else {
        m.white_caps
    }
}

/// Every cell of `p` is on the board and holds `s`.
pub open spec fn all_of(m: Model, p: Pattern, s: Stone) -> bool {
    forall|j: int| 0 <= j < p.len() ==> on(m.n, #[trigger] p[j].0 as int, p[j].1 as int) && (m.board)(
        p[j].0 as int,
        p[j].1 as int,
    ) == s
}

/// The winner, if the game is decided: after a move, the side to move with
/// enough captures, or the opponent when one of its listed fives is still
/// all its stones.
pub open spec fn winner_m(m: Model) -> Option<Stone> {
    match m.last {
        None => None,
        Some(_) => if caps_of(m, m.me) >= m.win {
            Some(m.me)
        } else if exists|i: int|
            0 <= i < lists_for(m, m.opp).five_row.len() && all_of(m, #[trigger] lists_for(m, m.opp).five_row[i], m.opp) {
            Some(m.opp)
        } else {
            None
        },
    }
}

impl Gomoku {
    /// Number of empty cells.
    pub fn count_empty_spots(&self) -> (k: i32)
        requires
            self.wf(),
        ensures
            k == empties_before(self.n(), self.cells(), self.n() * self.n()),
    {
        let ghost n = self.n();
        let ghost b = self.cells();
        let mut total: i32 = 0;
        let mut r: usize = 0;
        while r < self.size
            invariant
                0 <= r <= self.size,
                self.wf(),
                n == self.n(),
                b == self.cells(),
                total == empties_before(n, b, n * r),
                0 <= total <= n * r,
            decreases self.size - r,
        {
            let mut c: usize = 0;
            while c < self.size
                invariant
                    0 <= r < self.size,
                    0 <= c <= self.size,
                    self.wf(),
                    n == self.n(),
                    b == self.cells(),
                    total == empties_before(n, b, n * r + c),
                    0 <= total <= n * r + c,
                decreases self.size - c,
            {
                proof {
                    let k = n * r + c;
                    assert((k + 1 - 1) / n == r && (k + 1 - 1) % n == c) by {
                        assert(k == r * n + c) by (nonlinear_arith)
                            requires
                                k == n * r + c,
                        ;
                        vstd::arithmetic::div_mod::lemma_fundamental_div_mod_converse(k, n, r as int, c as int);
                    }
                    assert(n * r + c + 1 <= n * n) by (nonlinear_arith)
                        requires
                            r < n,
                            c < n,
                    ;
                    assert(n * n <= 46340 * 46340) by (nonlinear_arith)
                        requires
                            0 <= n <= 46340,
                    ;
                }
                if self.board[r][c] == Stone::Empty {
                    total += 1;
                }
                c += 1;
            }
            assert(n * r + n == n * (r + 1)) by (nonlinear_arith);
            r += 1;
        }
        total
    }

    /// No empty cell is left.
    pub fn check_draw(&self) -> (b: bool)
        requires
            self.wf(),
        ensures
            b == (empties_before(self.n(), self.cells(), self.n() * self.n()) == 0),
    {
        self.count_empty_spots() == 0
    }

    /// The winner's name (`X` or `O`), if the game is decided.
    pub fn get_winner(&self) -> (w: Option<String>)
        requires
            self.wf(),
        ensures
            w is Some == winner_m(self.model()) is Some,
            w matches Some(s) ==> s@ == seq![winner_m(self.model()).unwrap().symbol()],
    {
        let ghost m = self.model();
        if let Some((_x, _y)) = self.current_move {
            let caps = if self.current_player == Stone::Black {
                self.black_captures
            } else {
                self.white_captures
            };
            if caps >= self.win_capture_count {
                return Some(self.current_player.name());
            }
            assert(caps_of(m, m.me) == caps);
            let opp = self.opponent_player;
            let fives = if opp == Stone::Black {
                &self.black.five_row
            } else {
                &self.white.five_row
            };
            assert(pats(fives@) == lists_for(m, m.opp).five_row);
            let mut i: usize = 0;
            while i < fives.len()
                invariant
                    0 <= i <= fives.len(),
                    self.wf(),
                    m == self.model(),
                    opp == m.opp,
                    m.last is Some,
                    caps_of(m, m.me) == caps,
                    caps < self.win_capture_count,
                    pats(fives@) == lists_for(m, m.opp).five_row,
                    forall|k: int| 0 <= k < i ==> !all_of(m, #[trigger] lists_for(m, m.opp).five_row[k], m.opp),
                decreases fives.len() - i,
            {
                let five = &fives[i];
                let ghost p = five@;
                assert(lists_for(m, m.opp).five_row[i as int] == p);
                let mut all_opponent = true;
                let mut j: usize = 0;
                while j < five.len()
                    invariant
                        0 <= j <= five.len(),
                        self.wf(),
                        m == self.model(),
                        opp == m.opp,
                        p == five@,
                        all_opponent == (forall|t: int| 0 <= t < j ==> on(m.n, #[trigger] p[t].0 as int, p[t].1 as int)
                            && (m.board)(p[t].0 as int, p[t].1 as int) == opp),
                    decreases five.len() - j,
                {
                    let (fx, fy) = five[j];
                    let here = self.is_on_board(fx, fy) && self.at(fx, fy) == opp;
                    if !here {
                        all_opponent = false;
                    }
                    proof {
                        if !here {
                            assert(!(on(m.n, p[j as int].0 as int, p[j as int].1 as int) && (m.board)(
                                p[j as int].0 as int,
                                p[j as int].1 as int,
                            ) == opp));
                        }
                    }
                    j += 1;
                }
                if all_opponent {
                    proof {
                        assert(all_of(m, lists_for(m, m.opp).five_row[i as int], m.opp));
                        assert(m.last is Some);
                        assert(caps_of(m, m.me) == caps);
                        assert(winner_m(m) == Some(m.opp));
                    }
                    return Some(opp.name());
                }
                i += 1;
            }
        }
        None
    }

    /// Pass the turn to the other player.
    pub fn switch_player(&mut self)
        requires
            old(self).wf(),
        ensures
            final(self).wf(),
            final(self).model() == (Model { me: old(self).opponent_player, opp: old(self).current_player, ..old(self).model() }),
    {
        if self.current_player == Stone::Black {
            self.current_player = Stone::White;
            self.opponent_player = Stone::Black;
        } else {
            self.current_player = Stone::Black;
            self.opponent_player = Stone::White;
        }
        assert(self.model() =~= Model { me: old(self).opponent_player, opp: old(self).current_player, ..old(self).model() });
    }

    pub fn size(&self) -> (n: usize)
        ensures
            n == self.size,
    {
        self.size
    }

    pub fn current_player(&self) -> (s: String)
        ensures
            s@ == seq![self.current_player.symbol()],
    {
        self.current_player.name()
    }

    pub fn opponent_player(&self) -> (s: String)
        ensures
            s@ == seq![self.opponent_player.symbol()],
    {
        self.opponent_player.name()
    }

    /// Captured pairs per player name, Black first.
    pub fn capture_count(&self) -> (v: Vec<(String, i32)>)
        ensures
            v@.len() == 2,
            v@[0].0@ == seq!['X'] && v@[0].1 == self.black_captures,
            v@[1].0@ == seq!['O'] && v@[1].1 == self.white_captures,
    {
        let mut v: Vec<(String, i32)> = Vec::new();
        v.push((Stone::Black.name(), self.black_captures));
        v.push((Stone::White.name(), self.white_captures));
        v
    }

    pub fn current_move(&self) -> (m: Option<(i32, i32)>)
        ensures
            m == self.current_move,
    {
        self.current_move
    }

    pub fn win_capture_count(&self) -> (k: i32)
        ensures
            k == self.win_capture_count,
    {
        self.win_capture_count
    }

    /// The board as rows of one-character names.
    pub fn board(&self) -> (rows: Vec<Vec<String>>)
        requires
            self.wf(),
        ensures
            rows@.len() == self.size,
            forall|x: int| 0 <= x < self.size ==> #[trigger] rows@[x]@.len() == self.size,
            forall|x: int, y: int|
                0 <= x < self.size && 0 <= y < self.size ==> #[trigger] rows@[x]@[y]@ == seq![self.stone(x, y).symbol()],
    {
        let mut rows: Vec<Vec<String>> = Vec::new();
        let mut r: usize = 0;
        while r < self.size
            invariant
                0 <= r <= self.size,
                self.wf(),
                rows@.len() == r,
                forall|x: int| 0 <= x < r ==> #[trigger] rows@[x]@.len() == self.size,
                forall|x: int, y: int|
                    0 <= x < r && 0 <= y < self.size ==> #[trigger] rows@[x]@[y]@ == seq![self.stone(x, y).symbol()],
            decreases self.size - r,
        {
            let mut row: Vec<String> = Vec::new();
            let mut c: usize = 0;
            while c < self.size
                invariant
                    0 <= r < self.size,
                    0 <= c <= self.size,
                    self.wf(),
                    row@.len() == c,
                    forall|y: int| 0 <= y < c ==> #[trigger] row@[y]@ == seq![self.stone(r as int, y).symbol()],
                decreases self.size - c,
            {
                row.push(self.board[r][c].name());
                c += 1;
            }
            rows.push(row);
            r += 1;
        }
        rows
    }
}

/// A copy of a list of patterns.
pub fn copy_list(list: &Vec<Vec<(i32, i32)>>) -> (v: Vec<Vec<(i32, i32)>>)
    ensures
        pats(v@) == pats(list@),
{
    let mut v: Vec<Vec<(i32, i32)>> = Vec::new();
    let mut i: usize = 0;
    while i < list.len()
        invariant
            0 <= i <= list.len(),
            pats(v@) == pats(list@).take(i as int),
        decreases list.len() - i,
    {
        let ghost before = pats(v@);
        v.push(copy_pattern(&list[i]));
        proof {
            assert(pats(v@) =~= before.push(list@[i as int]@));
            assert(pats(list@).take(i + 1) =~= pats(list@).take(i as int).push(list@[i as int]@));
        }
        i += 1;
    }
    assert(pats(list@).take(list.len() as int) =~= pats(list@));
    v
}

impl Gomoku {
    /// Black's and White's copies of one formation list, by player name.
    fn named(&self, black: &Vec<Vec<(i32, i32)>>, white: &Vec<Vec<(i32, i32)>>) -> (v: Vec<(String, Vec<Vec<(i32, i32)>>)>)
        ensures
            v@.len() == 2,
            v@[0].0@ == seq!['X'] && pats(v@[0].1@) == pats(black@),
            v@[1].0@ == seq!['O'] && pats(v@[1].1@) == pats(white@),
    {
        let mut v: Vec<(String, Vec<Vec<(i32, i32)>>)> = Vec::new();
        v.push((Stone::Black.name(), copy_list(black)));
        v.push((Stone::White.name(), copy_list(white)));
        v
    }

    pub fn free_three_list(&self) -> (v: Vec<(String, Vec<Vec<(i32, i32)>>)>)
        ensures
            v@.len() == 2,
            v@[0].0@ == seq!['X'] && pats(v@[0].1@) == self.model().black.free_three,
            v@[1].0@ == seq!['O'] && pats(v@[1].1@) == self.model().white.free_three,
    {
        self.named(&self.black.free_three, &self.white.free_three)
    }

    pub fn five_row(&self) -> (v: Vec<(String, Vec<Vec<(i32, i32)>>)>)
        ensures
            v@.len() == 2,
            v@[0].0@ == seq!['X'] && pats(v@[0].1@) == self.model().black.five_row,
            v@[1].0@ == seq!['O'] && pats(v@[1].1@) == self.model().white.five_row,
    {
        self.named(&self.black.five_row, &self.white.five_row)
    }

    pub fn open_two(&self) -> (v: Vec<(String, Vec<Vec<(i32, i32)>>)>)
        ensures
            v@.len() == 2,
            v@[0].0@ == seq!['X'] && pats(v@[0].1@) == self.model().black.open_two,
            v@[1].0@ == seq!['O'] && pats(v@[1].1@) == self.model().white.open_two,
    {
        self.named(&self.black.open_two, &self.white.open_two)
    }

    pub fn open_three(&self) -> (v: Vec<(String, Vec<Vec<(i32, i32)>>)>)
        ensures
            v@.len() == 2,
            v@[0].0@ == seq!['X'] && pats(v@[0].1@) == self.model().black.open_three,
            v@[1].0@ == seq!['O'] && pats(v@[1].1@) == self.model().white.open_three,
    {
        self.named(&self.black.open_three, &self.white.open_three)
    }

    pub fn open_four(&self) -> (v: Vec<(String, Vec<Vec<(i32, i32)>>)>)
        ensures
            v@.len() == 2,
            v@[0].0@ == seq!['X'] && pats(v@[0].1@) == self.model().black.open_four,
            v@[1].0@ == seq!['O'] && pats(v@[1].1@) == self.model().white.open_four,
    {
        self.named(&self.black.open_four, &self.white.open_four)
    }
}

/// Cells `(r, c)` for `c` from `c0` up to `c1`.
pub open spec fn row_cells(r: int, c0: int, c1: int) -> Seq<(int, int)> {
    Seq::new(if c1 > c0 {
        (c1 - c0) as nat
    } else {
        0
    }, |k: int| (r, c0 + k))
}

/// Cells of rows `r0` up to `r1`, columns `c0` up to `c1`, row by row.
pub open spec fn window_rows(r0: int, r1: int, c0: int, c1: int) -> Seq<(int, int)>
    decreases r1 - r0,
{
    if r0 >= r1 {
        Seq::empty()
    } else {
        row_cells(r0, c0, c1) + window_rows(r0 + 1, r1, c0, c1)
    }
}

pub open spec fn max0(a: int) -> int {
    if a < 0 {
        0
    } else {
        a
    }
}

pub open spec fn min_n(a: int, n: int) -> int {
    if a < n {
        a
    } else {
        n
    }
}

/// The cells within `rad` of `(row, col)` on an `n`x`n` board, row by row.
pub open spec fn window(n: int, row: int, col: int, rad: int) -> Seq<(int, int)> {
    window_rows(max0(row - rad), min_n(row + rad + 1, n), max0(col - rad), min_n(col + rad + 1, n))
}

/// The cells probed for the stones among the first `k` cells (row-major):
/// each stone's window in turn.
pub open spec fn probes_upto(m: Model, rad: int, k: int) -> Seq<(int, int)>
    decreases k,
{
    if k <= 0 || m.n <= 0 {
        Seq::empty()
    } else {
        let prev = probes_upto(m, rad, k - 1);
        let row = (k - 1) / m.n;
        let col = (k - 1) % m.n;
        if (m.board)(row, col) != Stone::Empty {
            prev + window(m.n, row, col, rad)
        } else {
            prev
        }
    }
}

/// Checking each of `cells` in turn as a move.
pub open spec fn probe_fold(m: Model, cells: Seq<(int, int)>) -> Model
    decreases cells.len(),
{
    if cells.len() == 0 {
        m
    } else {
        let prev = probe_fold(m, cells.drop_last());
        valid_move_m(prev, cells.last().0, cells.last().1).0
    }
}

/// Checking a move leaves the board, its size and the players as they were.
pub proof fn lemma_valid_move_keeps_board(m: Model, x: int, y: int)
    ensures
        valid_move_m(m, x, y).0.n == m.n,
        valid_move_m(m, x, y).0.me == m.me,
        valid_move_m(m, x, y).0.opp == m.opp,
        valid_move_m(m, x, y).0.board == m.board,
{
    if on(m.n, x, y) && (m.board)(x, y) == Stone::Empty {
        let cleared = set_cell(m, x, y, Stone::Empty);
        assert(cleared.board =~= m.board);
    }
}

pub proof fn lemma_probe_fold_keeps_board(m: Model, cells: Seq<(int, int)>)
    ensures
        probe_fold(m, cells).n == m.n,
        probe_fold(m, cells).me == m.me,
        probe_fold(m, cells).opp == m.opp,
        probe_fold(m, cells).board == m.board,
    decreases cells.len(),
{
    if cells.len() > 0 {
        lemma_probe_fold_keeps_board(m, cells.drop_last());
        lemma_valid_move_keeps_board(probe_fold(m, cells.drop_last()), cells.last().0, cells.last().1);
    }
}

/// The outcome of checking a move depends on the board, its size and the
/// players only.
pub proof fn lemma_valid_move_outcome(a: Model, b: Model, x: int, y: int)
    requires
        a.n == b.n,
        a.me == b.me,
        a.opp == b.opp,
        a.board == b.board,
    ensures
        valid_move_m(a, x, y).1 == valid_move_m(b, x, y).1,
{
    assert(set_cell(a, x, y, a.me).board =~= set_cell(b, x, y, b.me).board);
}

/// Checking one more cell extends the fold by one step.
proof fn lemma_probe_fold_push(m: Model, cells: Seq<(int, int)>, c: (int, int))
    ensures
        probe_fold(m, cells.push(c)) == valid_move_m(probe_fold(m, cells), c.0, c.1).0,
{
    assert(cells.push(c).drop_last() =~= cells);
}

/// The moves worth trying in `state`: on an empty board the centre, else
/// every cell within `radius` of a stone where the side to move may play,
/// each once, in row-major order. Each cell is checked as a move in the
/// order of the stones (row-major) and of each stone's window (row by row),
/// with the effect of the double-three check on the free-three lists.
pub fn get_candidate_moves(state: &mut Gomoku, radius: i32) -> (moves: Vec<(usize, usize)>)
    requires
        old(state).wf(),
        radius >= 0,
    ensures
        final(state).wf(),
        empties_before(old(state).n(), old(state).cells(), old(state).n() * old(state).n()) == old(state).n() * old(
            state,
        ).n() ==> *final(state) == *old(state) && moves@ == seq![(9usize, 9usize)],
        empties_before(old(state).n(), old(state).cells(), old(state).n() * old(state).n()) != old(state).n() * old(
            state,
        ).n() ==> {
            let m = old(state).model();
            let probes = probes_upto(m, radius as int, m.n * m.n);
            &&& final(state).model() == probe_fold(m, probes)
            &&& forall|i: int|
                0 <= i < moves@.len() ==> probes.contains((#[trigger] moves@[i].0 as int, moves@[i].1 as int))
                    && valid_move_m(m, moves@[i].0 as int, moves@[i].1 as int).1 == MoveResult::Valid
            &&& forall|x: int, y: int|
                #![trigger valid_move_m(m, x, y)]
                probes.contains((x, y)) && valid_move_m(m, x, y).1 == MoveResult::Valid ==> moves@.contains(
                    (x as usize, y as usize),
                )
            &&& forall|i: int, j: int|
                0 <= i < j < moves@.len() ==> #[trigger] moves@[i].0 * m.n + moves@[i].1 < #[trigger] moves@[j].0 * m.n
                    + moves@[j].1
        },
{
    let empties = state.count_empty_spots();
    let n = state.size;
    proof {
        assert(n * n <= 46340 * 46340) by (nonlinear_arith)
            requires
                n <= 46340,
        ;
        lemma_empties_range(state.n(), state.cells(), state.n() * state.n());
    }
    let nn = n * n;
    if empties as usize == nn {
        let mut only: Vec<(usize, usize)> = Vec::new();
        only.push((9, 9));
        assert(only@ =~= seq![(9usize, 9usize)]);
        return only;
    }
    let ghost m = state.model();
    let ghost rad = radius as int;
    let rad_u = radius as usize;
    assert(n > 0);
    let mut seen: Vec<bool> = Vec::new();
    let mut k: usize = 0;
    while k < nn
        invariant
            0 <= k <= nn,
            nn == n * n,
            seen@.len() == k,
            forall|i: int| 0 <= i < k ==> !#[trigger] seen@[i],
        decreases nn - k,
    {
        seen.push(false);
        k += 1;
    }
    proof {
        lemma_probe_fold_keeps_board(m, Seq::empty());
        assert(probes_upto(m, rad, 0) =~= Seq::<(int, int)>::empty());
        assert(probes_upto(m, rad, n * 0) =~= Seq::<(int, int)>::empty());
        assert forall|x: int, y: int| 0 <= x < n && 0 <= y < n implies #[trigger] seen@[x * n + y] == (probes_upto(
            m,
            rad,
            n * 0,
        ).contains((x, y)) && valid_move_m(m, x, y).1 == MoveResult::Valid) by {
            lemma_cell_index(n as int, x, y);
        }
    }
    let mut row: usize = 0;
    while row < n
        invariant
            0 <= row <= n,
            n == m.n,
            n <= 46340,
            nn == n * n,
            m.n == state.n(),
            rad == radius,
            0 <= radius,
            rad_u == radius,
            state.wf(),
            state.model() == probe_fold(m, probes_upto(m, rad, n * row)),
            seen@.len() == n * n,
            forall|x: int, y: int|
                0 <= x < n && 0 <= y < n ==> #[trigger] seen@[x * n + y] == (probes_upto(m, rad, n * row).contains((x, y))
                    && valid_move_m(m, x, y).1 == MoveResult::Valid),
        decreases n - row,
    {
        let mut col: usize = 0;
        while col < n
            invariant
                0 <= row < n,
                0 <= col <= n,
                n == m.n,
                n <= 46340,
                m.n == state.n(),
                rad == radius,
                0 <= radius,
                rad_u == radius,
                state.wf(),
                state.model() == probe_fold(m, probes_upto(m, rad, n * row + col)),
                seen@.len() == n * n,
                forall|x: int, y: int|
                    0 <= x < n && 0 <= y < n ==> #[trigger] seen@[x * n + y] == (probes_upto(
                        m,
                        rad,
                        n * row + col,
                    ).contains((x, y)) && valid_move_m(m, x, y).1 == MoveResult::Valid),
            decreases n - col,
        {
            let ghost k = n * row + col;
            proof {
                lemma_probe_fold_keeps_board(m, probes_upto(m, rad, k));
                assert(k == row * n + col) by (nonlinear_arith)
                    requires
                        k == n * row + col,
                ;
                vstd::arithmetic::div_mod::lemma_fundamental_div_mod_converse(k, n as int, row as int, col as int);
                assert((k + 1 - 1) / m.n == row && (k + 1 - 1) % m.n == col);
            }
            if state.at(row as i32, col as i32) != Stone::Empty {
                let r0 = row.saturating_sub(rad_u);
                let r1 = if row + rad_u + 1 < n {
                    row + rad_u + 1
                } else {
                    n
                };
                let c0 = col.saturating_sub(rad_u);
                let c1 = if col + rad_u + 1 < n {
                    col + rad_u + 1
                } else {
                    n
                };
                let ghost base = probes_upto(m, rad, k);
                assert(r0 == max0(row - rad) && r1 == min_n(row + rad + 1, n as int));
                assert(c0 == max0(col - rad) && c1 == min_n(col + rad + 1, n as int));
                proof {
                    assert(window_rows(r0 as int, r0 as int, c0 as int, c1 as int) =~= Seq::<(int, int)>::empty());
                    assert(base + window_rows(r0 as int, r0 as int, c0 as int, c1 as int) =~= base);
                }
                let mut r = r0;
                while r < r1
                    invariant
                        r0 <= r <= r1,
                        r1 <= n,
                        c0 <= c1 <= n,
                        n == m.n,
                        n <= 46340,
                        m.n == state.n(),
                        state.wf(),
                        state.model() == probe_fold(m, base + window_rows(r0 as int, r as int, c0 as int, c1 as int)),
                        seen@.len() == n * n,
                        forall|x: int, y: int|
                            0 <= x < n && 0 <= y < n ==> #[trigger] seen@[x * n + y] == ((base + window_rows(
                                r0 as int,
                                r as int,
                                c0 as int,
                                c1 as int,
                            )).contains((x, y)) && valid_move_m(m, x, y).1 == MoveResult::Valid),
                    decreases r1 - r,
                {
                    let ghost wr = base + window_rows(r0 as int, r as int, c0 as int, c1 as int);
                    proof {
                        assert(row_cells(r as int, c0 as int, c0 as int) =~= Seq::<(int, int)>::empty());
                        assert(wr + row_cells(r as int, c0 as int, c0 as int) =~= wr);
                    }
                    let mut c = c0;
                    while c < c1
                        invariant
                            c0 <= c <= c1,
                            r0 <= r < r1,
                            r1 <= n,
                            c1 <= n,
                            n == m.n,
                            n <= 46340,
                            m.n == state.n(),
                            state.wf(),
                            state.model() == probe_fold(m, wr + row_cells(r as int, c0 as int, c as int)),
                            seen@.len() == n * n,
                            forall|x: int, y: int|
                                0 <= x < n && 0 <= y < n ==> #[trigger] seen@[x * n + y] == ((wr + row_cells(
                                    r as int,
                                    c0 as int,
                                    c as int,
                                )).contains((x, y)) && valid_move_m(m, x, y).1 == MoveResult::Valid),
                        decreases c1 - c,
                    {
                        let ghost cur = wr + row_cells(r as int, c0 as int, c as int);
                        let ghost next = wr + row_cells(r as int, c0 as int, c + 1);
                        proof {
                            assert(next =~= cur.push((r as int, c as int)));
                            lemma_probe_fold_keeps_board(m, cur);
                            lemma_valid_move_outcome(probe_fold(m, cur), m, r as int, c as int);
                            lemma_probe_fold_push(m, cur, (r as int, c as int));
                        }
                        let ghost seen_before = seen@;
                        let outcome = state.is_valid_move(r as i32, c as i32);
                        assert(valid_move_m(m, r as int, c as int).1 == outcome);
                        if outcome == MoveResult::Valid {
                            proof {
                                lemma_cell_index(n as int, r as int, c as int);
                            }
                            seen.set(r * n + c, true);
                        }
                        proof {
                            assert forall|x: int, y: int| 0 <= x < n && 0 <= y < n implies #[trigger] seen@[x * n + y] == (
                            next.contains((x, y)) && valid_move_m(m, x, y).1 == MoveResult::Valid) by {
                                lemma_cell_index(n as int, x, y);
                                lemma_cell_index(n as int, r as int, c as int);
                                assert(seen_before[x * n + y] == (cur.contains((x, y)) && valid_move_m(m, x, y).1
                                    == MoveResult::Valid));
                                if x == r && y == c {
                                    assert(next[next.len() - 1] == (x, y));
                                } else {
                                    assert(x * n + y != r * n + c) by (nonlinear_arith)
                                        requires
                                            0 <= x < n,
                                            0 <= y < n,
                                            0 <= r < n,
                                            0 <= c < n,
                                            x != r || y != c,
                                    ;
                                    assert(seen@[x * n + y] == seen_before[x * n + y]);
                                    if next.contains((x, y)) {
                                        let j = choose|j: int| 0 <= j < next.len() && next[j] == (x, y);
                                        assert(j < cur.len());
                                        assert(cur[j] == (x, y));
                                    }
                                    if cur.contains((x, y)) {
                                        let j = choose|j: int| 0 <= j < cur.len() && cur[j] == (x, y);
                                        assert(next[j] == (x, y));
                                    }
                                }
                            }
                        }
                        c += 1;
                    }
                    proof {
                        lemma_window_rows_snoc(r0 as int, r as int, c0 as int, c1 as int);
                        assert(wr + row_cells(r as int, c0 as int, c1 as int) =~= base + window_rows(
                            r0 as int,
                            r + 1,
                            c0 as int,
                            c1 as int,
                        ));
                    }
                    r += 1;
                }
                proof {
                    assert(probes_upto(m, rad, k + 1) == base + window(m.n, row as int, col as int, rad));
                }
            }
            col += 1;
        }
        proof {
            assert(n * row + n == n * (row + 1)) by (nonlinear_arith);
        }
        row += 1;
    }
    let ghost probes = probes_upto(m, rad, n * n);
    let mut moves: Vec<(usize, usize)> = Vec::new();
    let mut i: usize = 0;
    while i < nn
        invariant
            0 <= i <= nn,
            nn == n * n,
            n > 0,
            n == m.n,
            n <= 46340,
            seen@.len() == n * n,
            forall|x: int, y: int|
                0 <= x < n && 0 <= y < n ==> #[trigger] seen@[x * n + y] == (probes.contains((x, y)) && valid_move_m(
                    m,
                    x,
                    y,
                ).1 == MoveResult::Valid),
            forall|t: int| 0 <= t < moves@.len() ==> #[trigger] moves@[t].0 < n && moves@[t].1 < n && moves@[t].0 * n + moves@[t].1 < i
                && seen@[moves@[t].0 * n + moves@[t].1],
            forall|a: int, b: int|
                0 <= a < b < moves@.len() ==> #[trigger] moves@[a].0 * m.n + moves@[a].1 < #[trigger] moves@[b].0 * m.n
                    + moves@[b].1,
            forall|j: int|
                0 <= j < i && #[trigger] seen@[j] ==> moves@.contains(((j / n as int) as usize, (j % n as int) as usize)),
        decreases nn - i,
    {
        if seen[i] {
            let x = i / n;
            let y = i % n;
            proof {
                vstd::arithmetic::div_mod::lemma_fundamental_div_mod(i as int, n as int);
                assert(x * n + y == i) by (nonlinear_arith)
                    requires
                        i == n * (i / n) + i % n,
                        x == i / n,
                        y == i % n,
                ;
                assert(x < n) by (nonlinear_arith)
                    requires
                        i < n * n,
                        x == i / n,
                        n > 0,
                ;
            }
            let ghost before = moves@;
            moves.push((x, y));
            proof {
                assert(moves@[before.len() as int] == (x, y));
                assert forall|j: int| 0 <= j < i + 1 && #[trigger] seen@[j] implies moves@.contains(
                    ((j / n as int) as usize, (j % n as int) as usize),
                ) by {
                    if j < i {
                        let t = choose|t: int| 0 <= t < before.len() && before[t] == ((j / n as int) as usize, (j % n as int) as usize);
                        assert(moves@[t] == before[t]);
                    } else {
                        assert(moves@[before.len() as int] == ((j / n as int) as usize, (j % n as int) as usize));
                    }
                }
            }
        }
        i += 1;
    }
    proof {
        assert forall|x: int, y: int|
            #![trigger valid_move_m(m, x, y)]
            probes.contains((x, y)) && valid_move_m(m, x, y).1 == MoveResult::Valid implies moves@.contains(
                (x as usize, y as usize),
            ) by {
            lemma_probes_on_board(m, rad, n * n, x, y);
            let j = x * n + y;
            lemma_cell_index(n as int, x, y);
            assert(seen@[x * n + y]);
            vstd::arithmetic::div_mod::lemma_fundamental_div_mod_converse(j, n as int, x, y);
            assert(seen@[j]);
        }
        assert forall|t: int| 0 <= t < moves@.len() implies probes.contains((#[trigger] moves@[t].0 as int, moves@[t].1 as int))
            && valid_move_m(m, moves@[t].0 as int, moves@[t].1 as int).1 == MoveResult::Valid by {
            assert(seen@[moves@[t].0 * n + moves@[t].1]);
        }
    }
    moves
}

/// The cell index of an on-board cell is in range.
proof fn lemma_cell_index(n: int, x: int, y: int)
    requires
        0 <= x < n,
        0 <= y < n,
        n <= 46340,
    ensures
        0 <= x * n + y < n * n,
        x * n <= 46340 * 46340,
        n * n <= 46340 * 46340,
{
    assert(0 <= x * n + y < n * n && x * n <= 46340 * 46340 && n * n <= 46340 * 46340) by (nonlinear_arith)
        requires
            0 <= x < n,
            0 <= y < n,
            n <= 46340,
    ;
}

/// The number of empty cells among the first `k` is between 0 and `k`.
proof fn lemma_empties_range(n: int, b: Board, k: int)
    requires
        k >= 0,
    ensures
        0 <= empties_before(n, b, k) <= k,
    decreases k,
{
    if k > 0 && n > 0 {
        lemma_empties_range(n, b, k - 1);
    }
}

/// Appending one more row of cells to a window.
proof fn lemma_window_rows_snoc(r0: int, r: int, c0: int, c1: int)
    requires
        r0 <= r,
    ensures
        window_rows(r0, r + 1, c0, c1) == window_rows(r0, r, c0, c1) + row_cells(r, c0, c1),
    decreases r - r0,
{
    if r0 == r {
        assert(window_rows(r + 1, r + 1, c0, c1) =~= Seq::<(int, int)>::empty());
        assert(window_rows(r0, r + 1, c0, c1) =~= row_cells(r, c0, c1));
        assert(window_rows(r0, r, c0, c1) =~= Seq::<(int, int)>::empty());
        assert(window_rows(r0, r, c0, c1) + row_cells(r, c0, c1) =~= row_cells(r, c0, c1));
    } else {
        lemma_window_rows_snoc(r0 + 1, r, c0, c1);
        assert(row_cells(r0, c0, c1) + (window_rows(r0 + 1, r, c0, c1) + row_cells(r, c0, c1)) =~= (row_cells(
            r0,
            c0,
            c1,
        ) + window_rows(r0 + 1, r, c0, c1)) + row_cells(r, c0, c1));
    }
}

/// Probed cells lie on the board.
proof fn lemma_probes_on_board(m: Model, rad: int, k: int, x: int, y: int)
    requires
        0 <= rad,
        probes_upto(m, rad, k).contains((x, y)),
    ensures
        on(m.n, x, y),
    decreases k,
{
    if k > 0 && m.n > 0 {
        let prev = probes_upto(m, rad, k - 1);
        let row = (k - 1) / m.n;
        let col = (k - 1) % m.n;
        if prev.contains((x, y)) {
            lemma_probes_on_board(m, rad, k - 1, x, y);
        } else if (m.board)(row, col) != Stone::Empty {
            let w = window(m.n, row, col, rad);
            let all = prev + w;
            let j = choose|j: int| 0 <= j < all.len() && all[j] == (x, y);
            if j < prev.len() {
                assert(prev[j] == (x, y));
            } else {
                lemma_window_on_board(
                    max0(row - rad),
                    min_n(row + rad + 1, m.n),
                    max0(col - rad),
                    min_n(col + rad + 1, m.n),
                    m.n,
                    j - prev.len(),
                );
                assert(w[j - prev.len()] == (x, y));
            }
        }
    }
}

/// Every cell of a window within `[0, n)` is on the board.
proof fn lemma_window_on_board(r0: int, r1: int, c0: int, c1: int, n: int, j: int)
    requires
        0 <= r0,
        r1 <= n,
        0 <= c0,
        c1 <= n,
        0 <= j < window_rows(r0, r1, c0, c1).len(),
    ensures
        on(n, window_rows(r0, r1, c0, c1)[j].0, window_rows(r0, r1, c0, c1)[j].1),
    decreases r1 - r0,
{
    if r0 < r1 {
        let first = row_cells(r0, c0, c1);
        if j >= first.len() {
            lemma_window_on_board(r0 + 1, r1, c0, c1, n, j - first.len());
        }
    }
}

pub open spec fn fits(v: int) -> bool {
    i32::MIN <= v <= i32::MAX
}

/// The running sums of `evaluate_player` for `p`: captures at 2000, open
/// twos at 50, open threes at 500, open fours at 1000 and fives at 10000
/// each (list lengths taken as `i32`).
pub open spec fn score_steps(m: Model, p: Stone) -> Seq<int> {
    let l = lists_for(m, p);
    let a = caps_of(m, p) * 2000;
    let b = a + (l.open_two.len() as i32) * 50;
    let c = b + (l.open_three.len() as i32) * 500;
    let d = c + (l.open_four.len() as i32) * 1000;
    let e = d + (l.five_row.len() as i32) * 10000;
    seq![a, (l.open_two.len() as i32) * 50, b, (l.open_three.len() as i32) * 500, c, (l.open_four.len() as i32)
        * 1000, d, (l.five_row.len() as i32) * 10000, e]
}

/// `evaluate_player` of `p`.
pub open spec fn player_score(m: Model, p: Stone) -> int {
    score_steps(m, p)[8]
}

/// Each player's score counts its own captured pairs, 2000 apiece: with the
/// same formation lists, one more pair captured by Black raises Black's
/// score by 2000 and leaves White's unchanged, and likewise for White.
pub proof fn lemma_score_counts_own_captures(m1: Model, m2: Model)
    requires
        m1.black == m2.black,
        m1.white == m2.white,
    ensures
        player_score(m2, Stone::Black) - player_score(m1, Stone::Black) == 2000 * (m2.black_caps - m1.black_caps),
        player_score(m2, Stone::White) - player_score(m1, Stone::White) == 2000 * (m2.white_caps - m1.white_caps),
{
}

/// Every step of `evaluate_player` for `p` fits an `i32`.
pub open spec fn score_fits(m: Model, p: Stone) -> bool {
    forall|i: int| 0 <= i < 9 ==> #[trigger] fits(score_steps(m, p)[i])
}

/// The formation score of `player`: captures and listed formations,
/// weighted.
pub fn evaluate_player(state: &Gomoku, player: Stone) -> (v: i32)
    requires
        score_fits(state.model(), player),
    ensures
        v == player_score(state.model(), player),
{
    let ghost m = state.model();
    let ghost st = score_steps(m, player);
    let caps = if player == Stone::Black {
        state.black_captures
    } else {
        state.white_captures
    };
    let f = if player == Stone::Black {
        &state.black
    } else {
        &state.white
    };
    assert(f.lists() == lists_for(m, player));
    assert(fits(st[0]) && fits(st[1]) && fits(st[2]) && fits(st[3]) && fits(st[4]) && fits(st[5]) && fits(st[6])
        && fits(st[7]) && fits(st[8]));
    let capture_score = caps * 2000;
    let twos = (f.open_two.len() as i32) * 50;
    let threes = (f.open_three.len() as i32) * 500;
    let fours = (f.open_four.len() as i32) * 1000;
    let fives = (f.five_row.len() as i32) * 10000;
    capture_score + twos + threes + fours + fives
}

/// The side to move's formation score minus its opponent's.
pub fn heuristic_evaluation(state: &Gomoku) -> (v: i32)
    requires
        score_fits(state.model(), state.current_player),
        score_fits(state.model(), state.opponent_player),
        fits(player_score(state.model(), state.current_player) - player_score(state.model(), state.opponent_player)),
    ensures
        v == player_score(state.model(), state.current_player) - player_score(state.model(), state.opponent_player),
{
    let current = evaluate_player(state, state.current_player);
    let opponent = evaluate_player(state, state.opponent_player);
    current - opponent
}

} // verus!
