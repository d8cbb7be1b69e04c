//! The game state the players see: a 19x19 board of stones, whose turn it
//! is, capture counters, the last move and the position's Zobrist hash;
//! move validation, captures, the winner and the static evaluation.
use vstd::prelude::*;
use crate::search_board::{on_board, stone_count, stones_before, Cell, Grid, PatternCounts, PatternKind, SearchBoard};
use crate::search_board::ranges::{all_ranges, lists, PlayerRanges};
use crate::search_board::moves::{
    after_grid, all_dir, capture_in, captures_before, cell_key, cleared, lemma_stones_hash_single, player_key, seed_key,
    stones_hash, zobrist,
};
use crate::search_board::lemma_index;
use crate::keys::{lemma_xor_laws, lemma_xor_zero};
use crate::search_board::recognize::{full_counts, lemma_full_counts_within};
use crate::search_board::recognize::scan_dir;
use crate::search_board::rules::{
    capture_bonus, clamp, exposed_along, free_threes_made, has_five, has_safe_five, in_capturable_pair, pair_exposed,
    run_exposed, run_from, run_start, score_of, unbreakable_five, lemma_run_exposed_some, count_if,
    free_three_on_line, lemma_free_threes_count_lines,
};
use crate::constants::HEURISTIC_EVAL_CLAMP;

verus! {

/// Outcome of checking a move.
#[derive(Clone, Copy, Debug, PartialEq, Eq, Structural)]
pub enum MoveResult {
    Valid,
    OutOfBoard,
    NotEmpty,
    DoubleThree,
}

impl MoveResult {
    /// The number of the outcome: 0 valid, 1 off the board, 2 occupied,
    /// 3 double three.
    pub open spec fn code(self) -> i32 {
        match self {
            MoveResult::Valid => 0,
            MoveResult::OutOfBoard => 1,
            MoveResult::NotEmpty => 2,
            MoveResult::DoubleThree => 3,
        }
    }

    pub fn name(&self) -> (s: &'static str)
        ensures
            s@ == match *self {
                MoveResult::Valid => "VALID"@,
                MoveResult::OutOfBoard => "OUT_OF_BOARD"@,
                MoveResult::NotEmpty => "NOT_EMPTY"@,
                MoveResult::DoubleThree => "DOUBLE_THREE"@,
            },
    {
        match self {
            MoveResult::Valid => "VALID",
            MoveResult::OutOfBoard => "OUT_OF_BOARD",
            MoveResult::NotEmpty => "NOT_EMPTY",
            MoveResult::DoubleThree => "DOUBLE_THREE",
        }
    }

    pub fn value(&self) -> (v: i32)
        ensures
            v == self.code(),
    {
        match self {
            MoveResult::Valid => 0,
            MoveResult::OutOfBoard => 1,
            MoveResult::NotEmpty => 2,
            MoveResult::DoubleThree => 3,
        }
    }
}

/// A stone on the board, or none.
#[derive(Clone, Copy, Debug, PartialEq, Eq, Hash, Structural)]
pub enum Stone {
    Empty,
    Black,
    White,
}

impl Stone {
    /// The board cell holding this stone.
    pub open spec fn cell(self) -> Cell {
        match self {
            Stone::Empty => Cell::Empty,
            Stone::Black => Cell::Black,
            Stone::White => Cell::White,
        }
    }

    /// How the stone is written: `.`, `X` or `O`.
    pub open spec fn symbol(self) -> char {
        match self {
            Stone::Empty => '.',
            Stone::Black => 'X',
            Stone::White => 'O',
        }
    }

    /// The stone as the one-character string it is written as.
    pub fn name(&self) -> (s: String)
        ensures
            s@ == seq![self.symbol()],
    {
        let mut s = String::new();
        match self {
            Stone::Empty => {
                let t = ".";
                proof {
                    reveal_strlit(".");
                }
                s.append(t);
            },
            Stone::Black => {
                let t = "X";
                proof {
                    reveal_strlit("X");
                }
                s.append(t);
            },
            Stone::White => {
                let t = "O";
                proof {
                    reveal_strlit("O");
                }
                s.append(t);
            },
        }
        assert(s@ =~= seq![self.symbol()]);
        s
    }
}

impl Cell {
    /// The cell holding `stone`.
    pub fn of(stone: Stone) -> (c: Cell)
        ensures
            c == stone.cell(),
    {
        match stone {
            Stone::Empty => Cell::Empty,
            Stone::Black => Cell::Black,
            Stone::White => Cell::White,
        }
    }
}

/// A game in progress.
pub struct Gomoku {
    pub size: usize,
    /// `board[x][y]`, 19 rows of 19.
    pub board: Vec<Vec<Stone>>,
    pub current_player: Stone,
    pub opponent_player: Stone,
    /// Pairs captured by Black.
    pub black_captures: i32,
    /// Pairs captured by White.
    pub white_captures: i32,
    pub win_capture_count: i32,
    pub current_move: Option<(i32, i32)>,
    pub move_count: usize,
    pub hash: u64,
}

impl Gomoku {
    /// A 19x19 board, and the two players are Black and White in some order.
    pub open spec fn wf(self) -> bool {
        &&& self.size == 19
        &&& self.board@.len() == 19
        &&& forall|r: int| 0 <= r < 19 ==> #[trigger] self.board@[r]@.len() == 19
        &&& ((self.current_player == Stone::Black && self.opponent_player == Stone::White) || (self.current_player
            == Stone::White && self.opponent_player == Stone::Black))
    }

    /// The stone on `(x, y)`; `Empty` off the board.
    pub open spec fn stone(self, x: int, y: int) -> Stone {
        if on_board(x, y) {
            self.board@[x]@[y]
        } else {
            Stone::Empty
        }
    }

    /// The board as a grid of cells.
    pub open spec fn grid(self) -> Grid {
        |x: int, y: int| self.stone(x, y).cell()
    }

    /// Captured pairs of `player`.
    pub open spec fn caps(self, player: Stone) -> int {
        match player {
            Stone::Black => self.black_captures as int,
            Stone::White => self.white_captures as int,
            Stone::Empty => 0,
        }
    }

    /// The stored hash is the Zobrist hash of the stones, with the side key
    /// while White is to move.
    pub open spec fn hash_consistent(self) -> bool {
        self.hash == if self.current_player == Stone::White {
            stones_hash(self.grid(), 361) ^ player_key()
        } else {
            stones_hash(self.grid(), 361)
        }
    }

    /// A new game on a `size`x`size` board, Black to move, nothing captured,
    /// five pairs needed to win by captures. The rules, the hashing and the
    /// search work on the 19x19 board: only a game of that size can be played.
    pub fn new(size: usize) -> (g: Gomoku)
        ensures
            g.size == size,
            g.board@.len() == size,
            forall|i: int| 0 <= i < size ==> #[trigger] g.board@[i]@.len() == size,
            forall|i: int, j: int| 0 <= i < size && 0 <= j < size ==> #[trigger] g.board@[i]@[j] == Stone::Empty,
            size == 19 ==> g.wf(),
            size == 19 ==> forall|x: int, y: int| #[trigger] g.stone(x, y) == Stone::Empty,
            g.current_player == Stone::Black,
            g.opponent_player == Stone::White,
            g.black_captures == 0,
            g.white_captures == 0,
            g.win_capture_count == 5,
            g.current_move is None,
            g.move_count == 0,
            g.hash == 0,
    {
        let mut board: Vec<Vec<Stone>> = Vec::new();
        let mut r: usize = 0;
        while r < size
            invariant
                0 <= r <= size,
                board@.len() == r,
                forall|i: int| 0 <= i < r ==> #[trigger] board@[i]@.len() == size,
                forall|i: int, j: int| 0 <= i < r && 0 <= j < size ==> #[trigger] board@[i]@[j] == Stone::Empty,
            decreases size - r,
        {
            let mut row: Vec<Stone> = Vec::new();
            let mut c: usize = 0;
            while c < size
                invariant
                    0 <= c <= size,
                    row@.len() == c,
                    forall|j: int| 0 <= j < c ==> #[trigger] row@[j] == Stone::Empty,
                decreases size - c,
            {
                row.push(Stone::Empty);
                c += 1;
            }
            board.push(row);
            r += 1;
        }
        Gomoku {
            size,
            board,
            current_player: Stone::Black,
            opponent_player: Stone::White,
            black_captures: 0,
            white_captures: 0,
            win_capture_count: 5,
            current_move: None,
            move_count: 0,
            hash: 0,
        }
    }

    /// A copy of the game.
    pub fn clone_gomoku(&self) -> (g: Gomoku)
        requires
            self.wf(),
        ensures
            g.wf(),
            g.grid() == self.grid(),
            forall|x: int, y: int| #[trigger] g.stone(x, y) == self.stone(x, y),
            g.size == self.size,
            g.current_player == self.current_player,
            g.opponent_player == self.opponent_player,
            g.black_captures == self.black_captures,
            g.white_captures == self.white_captures,
            g.win_capture_count == self.win_capture_count,
            g.current_move == self.current_move,
            g.move_count == self.move_count,
            g.hash == self.hash,
    {
        let mut board: Vec<Vec<Stone>> = Vec::new();
        let mut r: usize = 0;
        while r < 19
            invariant
                0 <= r <= 19,
                self.wf(),
                board@.len() == r,
                forall|i: int| 0 <= i < r ==> #[trigger] board@[i]@.len() == 19,
                forall|i: int, j: int| 0 <= i < r && 0 <= j < 19 ==> #[trigger] board@[i]@[j] == self.board@[i]@[j],
            decreases 19 - r,
        {
            let mut row: Vec<Stone> = Vec::new();
            let mut c: usize = 0;
            while c < 19
                invariant
                    0 <= r < 19,
                    0 <= c <= 19,
                    self.wf(),
                    row@.len() == c,
                    forall|j: int| 0 <= j < c ==> #[trigger] row@[j] == self.board@[r as int]@[j],
                decreases 19 - c,
            {
                row.push(self.board[r][c]);
                c += 1;
            }
            board.push(row);
            r += 1;
        }
        let g = Gomoku {
            size: self.size,
            board,
            current_player: self.current_player,
            opponent_player: self.opponent_player,
            black_captures: self.black_captures,
            white_captures: self.white_captures,
            win_capture_count: self.win_capture_count,
            current_move: self.current_move,
            move_count: self.move_count,
            hash: self.hash,
        };
        assert(g.grid() =~= self.grid());
        g
    }

    pub fn is_on_board(&self, x: i32, y: i32) -> (b: bool)
        requires
            self.wf(),
        ensures
            b == on_board(x as int, y as int),
    {
        x >= 0 && y >= 0 && (x as usize) < self.size && (y as usize) < self.size
    }

    pub fn in_bounds(&self, x: i32, y: i32) -> (b: bool)
        requires
            self.wf(),
        ensures
            b == on_board(x as int, y as int),
    {
        x >= 0 && y >= 0 && (x as usize) < self.board.len() && (y as usize) < self.board[0].len()
    }

    /// The stone on `(x, y)`, which is on the board.
    pub fn at(&self, x: i32, y: i32) -> (s: Stone)
        requires
            self.wf(),
            on_board(x as int, y as int),
        ensures
            s == self.stone(x as int, y as int),
    {
        self.board[x as usize][y as usize]
    }

    /// `(x, y)` is on the board and holds `who`.
    pub fn cell_eq(&self, x: i32, y: i32, who: &Stone) -> (b: bool)
        requires
            self.wf(),
        ensures
            b == (on_board(x as int, y as int) && self.stone(x as int, y as int) == *who),
    {
        self.in_bounds(x, y) && self.at(x, y) == *who
    }

    /// `(x, y)` is on the board and empty.
    pub fn is_empty(&self, x: i32, y: i32) -> (b: bool)
        requires
            self.wf(),
        ensures
            b == (on_board(x as int, y as int) && self.stone(x as int, y as int) == Stone::Empty),
    {
        self.in_bounds(x, y) && self.at(x, y) == Stone::Empty
    }

    /// Number of empty intersections.
    pub fn count_empty_spots(&self) -> (n: i32)
        requires
            self.wf(),
        ensures
            n == 361 - stone_count(self.grid()),
    {
        let ghost g = self.grid();
        let mut stones: i32 = 0;
        let mut r: usize = 0;
        while r < 19
            invariant
                0 <= r <= 19,
                self.wf(),
                g == self.grid(),
                stones == stones_before(g, r as int, 0),
                0 <= stones <= 19 * r,
            decreases 19 - r,
        {
            let mut c: usize = 0;
            while c < 19
                invariant
                    0 <= r < 19,
                    0 <= c <= 19,
                    self.wf(),
                    g == self.grid(),
                    stones == stones_before(g, r as int, c as int),
                    0 <= stones <= 19 * r + c,
                decreases 19 - c,
            {
                assert(g(r as int, c as int) == self.board@[r as int]@[c as int].cell());
                if self.board[r][c] != Stone::Empty {
                    stones += 1;
                }
                c += 1;
            }
            assert(stones_before(g, r + 1, 0) == stones_before(g, r as int, 19));
            r += 1;
        }
        assert(stones_before(g, 19, 0) == stones_before(g, 18, 19));
        361 - stones
    }

    /// Every intersection holds a stone.
    pub fn check_draw(&self) -> (b: bool)
        requires
            self.wf(),
        ensures
            b == (stone_count(self.grid()) == 361),
    {
        self.count_empty_spots() == 0
    }

    pub fn size(&self) -> (n: usize)
        ensures
            n == self.size,
    {
        self.size
    }

    pub fn win_capture_count(&self) -> (n: i32)
        ensures
            n == self.win_capture_count,
    {
        self.win_capture_count
    }

    pub fn current_move(&self) -> (m: Option<(i32, i32)>)
        ensures
            m == self.current_move,
    {
        self.current_move
    }
}

/// The last move as board coordinates.
pub open spec fn last_move_of(m: Option<(i32, i32)>) -> Option<(usize, usize)> {
    match m {
        Some(p) => Some((p.0 as usize, p.1 as usize)),
        None => None,
    }
}

impl SearchBoard {
    /// A search board with the cells, side to move, capture counters, hash,
    /// move counter and last move of `g`, and no formation counts.
    pub fn cells_from_gomoku(g: &Gomoku) -> (b: SearchBoard)
        requires
            g.wf(),
        ensures
            b.grid() == g.grid(),
            forall|x: int, y: int| on_board(x, y) ==> #[trigger] b.cells[x][y] == g.stone(x, y).cell(),
            b.current == g.current_player.cell(),
            b.opponent == g.current_player.cell().other(),
            b.captures@ == seq![0i32, g.black_captures, g.white_captures],
            b.hash == g.hash,
            b.move_count == g.move_count,
            b.last_move == last_move_of(g.current_move),
            b.total_stones == stone_count(g.grid()),
            b.black_patterns == PatternCounts::zero(),
            b.white_patterns == PatternCounts::zero(),
    {
        let ghost gg = g.grid();
        let mut cells = [[Cell::Empty; 19]; 19];
        let mut total_stones: usize = 0;
        let mut r: usize = 0;
        while r < 19
            invariant
                0 <= r <= 19,
                g.wf(),
                gg == g.grid(),
                total_stones == stones_before(gg, r as int, 0),
                total_stones <= 19 * r,
                forall|x: int, y: int| 0 <= x < r && 0 <= y < 19 ==> #[trigger] cells[x][y] == g.stone(x, y).cell(),
            decreases 19 - r,
        {
            let mut c: usize = 0;
            while c < 19
                invariant
                    0 <= r < 19,
                    0 <= c <= 19,
                    g.wf(),
                    gg == g.grid(),
                    total_stones == stones_before(gg, r as int, c as int),
                    total_stones <= 19 * r + c,
                    forall|x: int, y: int|
                        0 <= x < r && 0 <= y < 19 ==> #[trigger] cells[x][y] == g.stone(x, y).cell(),
                    forall|y: int| 0 <= y < c ==> #[trigger] cells[r as int][y] == g.stone(r as int, y).cell(),
                decreases 19 - c,
            {
                let cell = Cell::of(g.board[r][c]);
                if cell != Cell::Empty {
                    total_stones += 1;
                }
                cells[r][c] = cell;
                c += 1;
            }
            assert(stones_before(gg, r + 1, 0) == stones_before(gg, r as int, 19));
            r += 1;
        }
        assert(stones_before(gg, 19, 0) == stones_before(gg, 18, 19));
        let current = Cell::of(g.current_player);
        let last_move = match g.current_move {
            Some((x, y)) => Some((x as usize, y as usize)),
            None => None,
        };
        let b = SearchBoard {
            cells,
            current,
            opponent: current.opponent(),
            captures: [0, g.black_captures, g.white_captures],
            hash: g.hash,
            move_count: g.move_count,
            last_move,
            total_stones,
            black_patterns: PatternCounts::default(),
            white_patterns: PatternCounts::default(),
        };
        assert(b.captures@ =~= seq![0i32, g.black_captures, g.white_captures]);
        assert(b.grid() =~= g.grid());
        b
    }

    /// `cells_from_gomoku` with the formation counts of both colours.
    pub fn from_gomoku(g: &Gomoku) -> (b: SearchBoard)
        requires
            g.wf(),
        ensures
            b.grid() == g.grid(),
            b.current == g.current_player.cell(),
            b.opponent == g.current_player.cell().other(),
            b.captures@ == seq![0i32, g.black_captures, g.white_captures],
            b.hash == g.hash,
            b.move_count == g.move_count,
            b.last_move == last_move_of(g.current_move),
            b.total_stones == stone_count(g.grid()),
            b.black_patterns == full_counts(g.grid(), true),
            b.white_patterns == full_counts(g.grid(), false),
    {
        let mut board = Self::cells_from_gomoku(g);
        let (black_patterns, white_patterns) = board.sb_scan_patterns();
        board.black_patterns = black_patterns;
        board.white_patterns = white_patterns;
        board
    }
}

/// The pair `p0`-`p1` of stones of the side to move, stepping by the sign of
/// their offset, has an opposing stone on one end and an empty cell on the other.
pub open spec fn sign(v: int) -> int {
    if v < 0 {
        -1
    } else if v > 0 {
        1
    } else {
        0
    }
}

impl Gomoku {
    /// What `is_valid_move` answers for `(x, y)`.
    pub open spec fn move_check(self, x: int, y: int) -> MoveResult {
        if !on_board(x, y) {
            MoveResult::OutOfBoard
        } else if self.stone(x, y) != Stone::Empty {
            MoveResult::NotEmpty
        } else if free_threes_made(self.grid(), self.current_player.cell(), x, y, 4) >= 2 {
            MoveResult::DoubleThree
        } else {
            MoveResult::Valid
        }
    }

    /// The winner, if the game is decided: after a move, the side to move
    /// with enough captures, the opponent with five in a row, or the side
    /// to move with five in a row that no capture can break.
    pub open spec fn winner(self) -> Option<Stone> {
        match self.current_move {
            None => None,
            Some(_) => if self.caps(self.current_player) >= self.win_capture_count {
                Some(self.current_player)
            } else if has_five(self.grid(), self.opponent_player.cell()) {
                Some(self.opponent_player)
            } else if has_safe_five(self.grid(), self.current_player.cell()) {
                Some(self.current_player)
            } else {
                None
            },
        }
    }

    /// The pair `p0`-`p1` (neighbours, stepping by the sign of their offset)
    /// has an opposing stone on one end and an empty cell on the other.
    pub open spec fn pair_capturable(self, p0: (i32, i32), p1: (i32, i32)) -> bool {
        let dx = sign(p1.0 - p0.0);
        let dy = sign(p1.1 - p0.1);
        let (lx, ly) = (p0.0 - dx, p0.1 - dy);
        let (rx, ry) = (p1.0 + dx, p1.1 + dy);
        ||| (on_board(lx, ly) && self.stone(lx, ly) == self.opponent_player && on_board(rx, ry) && self.stone(rx, ry)
            == Stone::Empty)
        ||| (on_board(lx, ly) && self.stone(lx, ly) == Stone::Empty && on_board(rx, ry) && self.stone(rx, ry)
            == self.opponent_player)
    }

    /// Placing a stone of the side to move on `(x0, y0)` would make two or
    /// more free threes.
    pub fn is_double_three_move(&self, x0: i32, y0: i32) -> (b: bool)
        requires
            self.wf(),
            on_board(x0 as int, y0 as int),
        ensures
            b == (free_threes_made(self.grid(), self.current_player.cell(), x0 as int, y0 as int, 4) >= 2),
    {
        SearchBoard::cells_from_gomoku(self).sb_is_double_three(x0, y0)
    }

    pub fn is_valid_move(&self, x: i32, y: i32) -> (r: MoveResult)
        requires
            self.wf(),
        ensures
            r == self.move_check(x as int, y as int),
    {
        if !self.is_on_board(x, y) {
            return MoveResult::OutOfBoard;
        }
        if self.board[x as usize][y as usize] != Stone::Empty {
            return MoveResult::NotEmpty;
        }
        if self.is_double_three_move(x, y) {
            return MoveResult::DoubleThree;
        }
        MoveResult::Valid
    }

    /// `is_valid_move` without the double-three rule.
    pub fn is_valid_move_simple_ruleset(&self, x: i32, y: i32) -> (r: MoveResult)
        requires
            self.wf(),
        ensures
            r == if !on_board(x as int, y as int) {
                MoveResult::OutOfBoard
            } else if self.stone(x as int, y as int) != Stone::Empty {
                MoveResult::NotEmpty
            } else {
                MoveResult::Valid
            },
    {
        if !self.is_on_board(x, y) {
            return MoveResult::OutOfBoard;
        }
        if self.board[x as usize][y as usize] != Stone::Empty {
            return MoveResult::NotEmpty;
        }
        MoveResult::Valid
    }

    /// Whether the neighbouring stones `p0`, `p1` can be captured.
    pub fn is_pair_capturable(&self, p0: (i32, i32), p1: (i32, i32)) -> (b: bool)
        requires
            self.wf(),
            -1000 <= p0.0 <= 1000,
            -1000 <= p0.1 <= 1000,
            -1000 <= p1.0 <= 1000,
            -1000 <= p1.1 <= 1000,
        ensures
            b == self.pair_capturable(p0, p1),
    {
        let (x0, y0) = p0;
        let (x1, y1) = p1;
        let dx = if x1 - x0 < -1 {
            -1
        } else if x1 - x0 > 1 {
            1
        } else {
            x1 - x0
        };
        let dy = if y1 - y0 < -1 {
            -1
        } else if y1 - y0 > 1 {
            1
        } else {
            y1 - y0
        };
        let a_left_x = x0 - dx;
        let a_left_y = y0 - dy;
        let a_right_x = x1 + dx;
        let a_right_y = y1 + dy;
        let opp = self.opponent_player;
        let pattern_a = self.cell_eq(a_left_x, a_left_y, &opp) && self.is_empty(a_right_x, a_right_y);
        let pattern_b = self.is_empty(a_left_x, a_left_y) && self.cell_eq(a_right_x, a_right_y, &opp);
        pattern_a || pattern_b
    }

    /// The stone of the side to move on `(x, y)` belongs to a capturable pair.
    pub fn stone_in_capturable_pair(&self, x: i32, y: i32) -> (b: bool)
        requires
            self.wf(),
            -100 <= x <= 100,
            -100 <= y <= 100,
        ensures
            b == in_capturable_pair(self.grid(), x as int, y as int, self.current_player.cell()),
    {
        let me = self.current_player;
        let ghost p = me.cell();
        let ghost g = self.grid();
        if !self.cell_eq(x, y, &me) {
            return false;
        }
        let mut d: usize = 0;
        while d < 4
            invariant
                0 <= d <= 4,
                self.wf(),
                me == self.current_player,
                p == me.cell(),
                g == self.grid(),
                on_board(x as int, y as int),
                g(x as int, y as int) == p,
                -100 <= x <= 100,
                -100 <= y <= 100,
                forall|e: int| 0 <= e < d ==> !#[trigger] exposed_along(g, x as int, y as int, p, e),
            decreases 4 - d,
        {
            let (dx, dy) = crate::search_board::recognize::scan_dir_at(d);
            let nx = x + dx;
            let ny = y + dy;
            let fwd = self.cell_eq(nx, ny, &me) && self.is_pair_capturable((x, y), (nx, ny));
            proof {
                assert(sign(nx - x) == dx && sign(ny - y) == dy);
                assert(fwd == pair_exposed(g, x as int, y as int, dx as int, dy as int, p));
            }
            if fwd {
                assert(exposed_along(g, x as int, y as int, p, d as int));
                return true;
            }
            let px = x - dx;
            let py = y - dy;
            let back = self.cell_eq(px, py, &me) && self.is_pair_capturable((px, py), (x, y));
            proof {
                assert(sign(x - px) == dx && sign(y - py) == dy);
                assert(back == pair_exposed(g, px as int, py as int, dx as int, dy as int, p));
            }
            if back {
                assert(exposed_along(g, x as int, y as int, p, d as int));
                return true;
            }
            d += 1;
        }
        false
    }

    /// The winner's name (`X` or `O`), if the game is decided.
    pub fn get_winner(&self) -> (w: Option<String>)
        requires
            self.wf(),
        ensures
            w is Some == self.winner() is Some,
            w matches Some(s) ==> s@ == seq![self.winner().unwrap().symbol()],
    {
        if let Some((_x, _y)) = self.current_move {
            let current_caps = if self.current_player == Stone::Black {
                self.black_captures
            } else {
                self.white_captures
            };
            if current_caps >= self.win_capture_count {
                return Some(self.current_player.name());
            }
            let board = SearchBoard::cells_from_gomoku(self);
            if board.has_five_in_row(Cell::of(self.opponent_player)) {
                return Some(self.opponent_player.name());
            }
            if board.has_uncapturable_five(Cell::of(self.current_player)) {
                return Some(self.current_player.name());
            }
        }
        None
    }

    /// Pass the turn to the other player.
    pub fn switch_player(&mut self)
        requires
            old(self).wf(),
        ensures
            final(self).wf(),
            final(self).current_player == old(self).opponent_player,
            final(self).opponent_player == old(self).current_player,
            final(self).hash == old(self).hash ^ player_key(),
            final(self).board == old(self).board,
            final(self).black_captures == old(self).black_captures,
            final(self).white_captures == old(self).white_captures,
            final(self).win_capture_count == old(self).win_capture_count,
            final(self).current_move == old(self).current_move,
            final(self).move_count == old(self).move_count,
            final(self).size == old(self).size,
            old(self).hash_consistent() ==> final(self).hash_consistent(),
    {
        let z = zobrist();
        self.hash = self.hash ^ z.player;
        match self.current_player {
            Stone::Black => {
                self.current_player = Stone::White;
                self.opponent_player = Stone::Black;
            },
            _ => {
                self.current_player = Stone::Black;
                self.opponent_player = Stone::White;
            },
        }
        proof {
            let h = old(self).hash;
            let s = stones_hash(self.grid(), 361);
            let k = player_key();
            assert(self.grid() == old(self).grid());
            assert((s ^ k) ^ k == s) by (bit_vector);
        }
    }

    pub fn current_player(&self) -> (s: String)
        ensures
            s@ == seq![self.current_player.symbol()],
    {
        self.current_player.name()
    }

    pub fn opponent_player(&self) -> (s: String)
        ensures
            s@ == seq![self.opponent_player.symbol()],
    {
        self.opponent_player.name()
    }

    /// Captured pairs per player name, Black first.
    pub fn capture_count(&self) -> (v: Vec<(String, i32)>)
        ensures
            v@.len() == 2,
            v@[0].0@ == seq!['X'] && v@[0].1 == self.black_captures,
            v@[1].0@ == seq!['O'] && v@[1].1 == self.white_captures,
    {
        let mut v: Vec<(String, i32)> = Vec::new();
        v.push((Stone::Black.name(), self.black_captures));
        v.push((Stone::White.name(), self.white_captures));
        v
    }

    /// The board as rows of one-character names.
    pub fn board(&self) -> (rows: Vec<Vec<String>>)
        requires
            self.wf(),
        ensures
            rows@.len() == 19,
            forall|x: int| 0 <= x < 19 ==> #[trigger] rows@[x]@.len() == 19,
            forall|x: int, y: int| 0 <= x < 19 && 0 <= y < 19 ==> #[trigger] rows@[x]@[y]@ == seq![self.stone(x, y).symbol()],
    {
        let mut rows: Vec<Vec<String>> = Vec::new();
        let mut r: usize = 0;
        while r < 19
            invariant
                0 <= r <= 19,
                self.wf(),
                rows@.len() == r,
                forall|x: int| 0 <= x < r ==> #[trigger] rows@[x]@.len() == 19,
                forall|x: int, y: int|
                    0 <= x < r && 0 <= y < 19 ==> #[trigger] rows@[x]@[y]@ == seq![self.stone(x, y).symbol()],
            decreases 19 - r,
        {
            let mut row: Vec<String> = Vec::new();
            let mut c: usize = 0;
            while c < 19
                invariant
                    0 <= r < 19,
                    0 <= c <= 19,
                    self.wf(),
                    row@.len() == c,
                    forall|y: int| 0 <= y < c ==> #[trigger] row@[y]@ == seq![self.stone(r as int, y).symbol()],
                decreases 19 - c,
            {
                row.push(self.board[r][c].name());
                c += 1;
            }
            rows.push(row);
            r += 1;
        }
        rows
    }
}

/// Static evaluation of a game from Black's side: each colour's formation
/// score with its captures, Black's minus White's, clamped to
/// `HEURISTIC_EVAL_CLAMP`.
pub open spec fn gomoku_eval(g: Gomoku) -> int {
    clamp(
        score_of(full_counts(g.grid(), true), g.black_captures as int, g.current_player == Stone::Black) - score_of(
            full_counts(g.grid(), false),
            g.white_captures as int,
            g.current_player == Stone::White,
        ),
        -HEURISTIC_EVAL_CLAMP as int,
        HEURISTIC_EVAL_CLAMP as int,
    )
}

/// Static evaluation of `state`, from Black's point of view, on the same
/// formation counts and weights as the search.
pub fn heuristic_evaluation(state: &Gomoku) -> (v: i32)
    requires
        state.wf(),
    ensures
        v == gomoku_eval(*state),
{
    let board = SearchBoard::from_gomoku(state);
    proof {
        lemma_full_counts_within(state.grid(), true);
        lemma_full_counts_within(state.grid(), false);
    }
    let active = Cell::of(state.current_player);
    let black_score = board.black_patterns.score(board.captures[1], active == Cell::Black);
    let white_score = board.white_patterns.score(board.captures[2], active == Cell::White);
    let diff = black_score - white_score;
    if diff < -HEURISTIC_EVAL_CLAMP {
        -HEURISTIC_EVAL_CLAMP
    } else if diff > HEURISTIC_EVAL_CLAMP {
        HEURISTIC_EVAL_CLAMP
    } else {
        diff
    }
}

/// Each colour is credited with its own captures: one more captured pair
/// for Black never lowers the evaluation, whatever else is on the board.
pub proof fn lemma_eval_rises_with_black_captures(g1: Gomoku, g2: Gomoku)
    requires
        g1.grid() == g2.grid(),
        g1.current_player == g2.current_player,
        g1.white_captures == g2.white_captures,
        0 <= g1.black_captures <= g2.black_captures,
    ensures
        gomoku_eval(g1) <= gomoku_eval(g2),
{
}

/// Each colour is credited with its own captures: one more captured pair
/// for White never raises the evaluation, whatever else is on the board.
pub proof fn lemma_eval_falls_with_white_captures(g1: Gomoku, g2: Gomoku)
    requires
        g1.grid() == g2.grid(),
        g1.current_player == g2.current_player,
        g1.black_captures == g2.black_captures,
        0 <= g1.white_captures <= g2.white_captures,
    ensures
        gomoku_eval(g2) <= gomoku_eval(g1),
{
}

/// With no formation of either colour on the board and fewer than four
/// captured pairs each, the evaluation is Black's capture bonus less
/// White's.
pub proof fn lemma_eval_without_formations(g: Gomoku)
    requires
        full_counts(g.grid(), true) == PatternCounts::zero(),
        full_counts(g.grid(), false) == PatternCounts::zero(),
        0 <= g.black_captures < 4,
        0 <= g.white_captures < 4,
    ensures
        gomoku_eval(g) == capture_bonus(g.black_captures as int) - capture_bonus(g.white_captures as int),
{
}

/// An empty cell on the board is a valid move exactly when playing it makes
/// a free three on at most one of the four lines through it (row, column,
/// diagonal, anti-diagonal); otherwise it is refused as a double three.
pub proof fn lemma_valid_unless_two_free_threes(g: Gomoku, x: int, y: int)
    requires
        on_board(x, y),
        g.stone(x, y) == Stone::Empty,
    ensures
        g.move_check(x, y) == (if count_if(free_three_on_line(g.grid(), g.current_player.cell(), x, y, 1, 0))
            + count_if(free_three_on_line(g.grid(), g.current_player.cell(), x, y, 0, 1)) + count_if(
            free_three_on_line(g.grid(), g.current_player.cell(), x, y, 1, 1),
        ) + count_if(free_three_on_line(g.grid(), g.current_player.cell(), x, y, 1, -1)) >= 2 {
            MoveResult::DoubleThree
        } else {
            MoveResult::Valid
        }),
{
    lemma_free_threes_count_lines(g.grid(), g.current_player.cell(), x, y);
}

/// A five wins for the side to move only if no capture can break it: when
/// the side to move has won without five captured pairs, it holds a line of
/// five or more none of whose stones the opponent could capture.
pub proof fn lemma_five_win_is_unbreakable(g: Gomoku)
    requires
        g.wf(),
        g.winner() == Some(g.current_player),
        g.caps(g.current_player) < g.win_capture_count,
    ensures
        exists|r: int, c: int, dr: int, dc: int| #[trigger] unbreakable_five(g.grid(), r, c, dr, dc, g.current_player.cell()),
{
    let gr = g.grid();
    let p = g.current_player.cell();
    assert(has_safe_five(gr, p));
    let (r, c, d) = choose|r: int, c: int, d: int|
        0 <= d < 4 && #[trigger] run_start(gr, r, c, scan_dir(d).0, scan_dir(d).1, p) && run_from(
            gr,
            r,
            c,
            scan_dir(d).0,
            scan_dir(d).1,
            p,
            0,
        ) >= 5 && !run_exposed(gr, r, c, scan_dir(d).0, scan_dir(d).1, p, run_from(gr, r, c, scan_dir(d).0, scan_dir(d).1, p, 0));
    let dr = scan_dir(d).0;
    let dc = scan_dir(d).1;
    lemma_run_exposed_some(gr, r, c, dr, dc, p, run_from(gr, r, c, dr, dc, p, 0));
    assert(unbreakable_five(gr, r, c, dr, dc, p));
}

/// A five the opponent can break by a capture does not win: when every
/// line of five or more of the side to move has a stone in a capturable
/// pair, and it has fewer captured pairs than wins, the side to move has not
/// won.
pub proof fn lemma_breakable_fives_do_not_win(g: Gomoku)
    requires
        g.wf(),
        g.caps(g.current_player) < g.win_capture_count,
        forall|r: int, c: int, dr: int, dc: int| !#[trigger] unbreakable_five(g.grid(), r, c, dr, dc, g.current_player.cell()),
    ensures
        g.winner() != Some(g.current_player),
{
    if g.winner() == Some(g.current_player) {
        lemma_five_win_is_unbreakable(g);
    }
}

/// The capture directions in the order they are tried.
pub open spec fn cap_dir(d: int) -> (int, int) {
    if d == 0 {
        (1, -1)
    } else if d == 1 {
        (1, 0)
    } else if d == 2 {
        (1, 1)
    } else if d == 3 {
        (0, -1)
    } else if d == 4 {
        (0, 1)
    } else if d == 5 {
        (-1, -1)
    } else if d == 6 {
        (-1, 0)
    } else {
        (-1, 1)
    }
}

/// A stone of `me` on `(x, y)` brackets two opposing stones along `(dx, dy)`
/// with another stone of `me`.
pub open spec fn brackets_pair(g: Grid, x: int, y: int, dx: int, dy: int, me: Cell) -> bool {
    &&& on_board(x + dx, y + dy)
    &&& g(x + dx, y + dy) == me.other()
    &&& on_board(x + 2 * dx, y + 2 * dy)
    &&& g(x + 2 * dx, y + 2 * dy) == me.other()
    &&& on_board(x + 3 * dx, y + 3 * dy)
    &&& g(x + 3 * dx, y + 3 * dy) == me
}

/// Number of capture directions `< n` in which `me` on `(x, y)` captures.
pub open spec fn capture_total(g: Grid, x: int, y: int, me: Cell, n: int) -> int
    decreases n,
{
    if n <= 0 {
        0
    } else {
        capture_total(g, x, y, me, n - 1) + if brackets_pair(g, x, y, cap_dir(n - 1).0, cap_dir(n - 1).1, me) {
            1int
        } else {
            0
        }
    }
}

/// `(a, b)` is one of the stones captured in the directions `< n`.
pub open spec fn taken(g: Grid, x: int, y: int, me: Cell, n: int, a: int, b: int) -> bool
    decreases n,
{
    if n <= 0 {
        false
    } else {
        let (dx, dy) = cap_dir(n - 1);
        taken(g, x, y, me, n - 1, a, b) || (brackets_pair(g, x, y, dx, dy, me) && ((a == x + dx && b == y + dy) || (a
            == x + 2 * dx && b == y + 2 * dy)))
    }
}

/// The captured stones in the directions `< n`, two per captured pair.
pub open spec fn taken_cells(g: Grid, x: int, y: int, me: Cell, n: int) -> Seq<(i32, i32)>
    decreases n,
{
    if n <= 0 {
        Seq::empty()
    } else {
        let (dx, dy) = cap_dir(n - 1);
        let prev = taken_cells(g, x, y, me, n - 1);
        if brackets_pair(g, x, y, dx, dy, me) {
            prev.push(((x + dx) as i32, (y + dy) as i32)).push(((x + 2 * dx) as i32, (y + 2 * dy) as i32))
        } else {
            prev
        }
    }
}

/// The board after the captures in the directions `< n`.
pub open spec fn captured_grid(g: Grid, x: int, y: int, me: Cell, n: int) -> Grid {
    |a: int, b: int| if taken(g, x, y, me, n, a, b) {
        Cell::Empty
    } else {
        g(a, b)
    }
}

/// The board with `me` placed on `(x, y)`.
pub open spec fn placed_grid(g: Grid, x: int, y: int, me: Cell) -> Grid {
    |a: int, b: int| if a == x && b == y {
        me
    } else {
        g(a, b)
    }
}

/// Different capture directions never reach the same cell within three steps.
proof fn lemma_dirs_apart(d: int, e: int, k: int, j: int)
    requires
        0 <= d < 8,
        0 <= e < 8,
        d != e,
        1 <= k <= 3,
        1 <= j <= 2,
    ensures
        !(k * cap_dir(d).0 == j * cap_dir(e).0 && k * cap_dir(d).1 == j * cap_dir(e).1),
{
    let (a, b) = cap_dir(d);
    let (c, f) = cap_dir(e);
    assert(!(k * a == j * c && k * b == j * f)) by (nonlinear_arith)
        requires
            -1 <= a <= 1,
            -1 <= b <= 1,
            -1 <= c <= 1,
            -1 <= f <= 1,
            a != c || b != f,
            a != 0 || b != 0,
            c != 0 || f != 0,
            1 <= k <= 3,
            1 <= j <= 2,
    ;
}

impl Gomoku {
    /// `new` is `old` with the stone on `(x, y)` replaced by `s`.
    pub open spec fn with_stone(old: Gomoku, new: Gomoku, x: int, y: int, s: Stone) -> bool {
        &&& new.wf()
        &&& forall|a: int, b: int| #[trigger] new.stone(a, b) == if a == x && b == y {
            s
        } else {
            old.stone(a, b)
        }
        &&& new.size == old.size
        &&& new.current_player == old.current_player
        &&& new.opponent_player == old.opponent_player
        &&& new.black_captures == old.black_captures
        &&& new.white_captures == old.white_captures
        &&& new.win_capture_count == old.win_capture_count
        &&& new.current_move == old.current_move
        &&& new.move_count == old.move_count
    }

    /// Put `s` on `(x, y)`.
    fn set_stone(&mut self, x: usize, y: usize, s: Stone)
        requires
            old(self).wf(),
            x < 19,
            y < 19,
        ensures
            Gomoku::with_stone(*old(self), *final(self), x as int, y as int, s),
            final(self).hash == old(self).hash,
    {
        let mut row = self.board[x].clone();
        row.set(y, s);
        self.board.set(x, row);
        proof {
            assert forall|a: int, b: int| #[trigger] self.stone(a, b) == if a == x && b == y {
                s
            } else {
                old(self).stone(a, b)
            } by {
                if on_board(a, b) && a == x && b != y {
                    assert(self.board@[a]@[b] == old(self).board@[a]@[b]);
                }
            }
        }
    }
}

/// Changing one cell and XORing the hash with that cell's keys before and
/// after keeps the hash that of the position.
proof fn lemma_cell_change_keeps_hash(old: Gomoku, new: Gomoku, x: int, y: int)
    requires
        on_board(x, y),
        old.hash_consistent(),
        new.current_player == old.current_player,
        forall|a: int, b: int| on_board(a, b) && !(a == x && b == y) ==> #[trigger] new.grid()(a, b) == old.grid()(a, b),
        new.hash == old.hash ^ (cell_key(old.grid(), 19 * x + y) ^ cell_key(new.grid(), 19 * x + y)),
    ensures
        new.hash_consistent(),
{
    lemma_stones_hash_single(old.grid(), new.grid(), x, y, 361);
    let s = stones_hash(old.grid(), 361);
    let k = cell_key(old.grid(), 19 * x + y) ^ cell_key(new.grid(), 19 * x + y);
    let p = player_key();
    assert((s ^ p) ^ k == (s ^ k) ^ p) by (bit_vector);
}

impl Gomoku {
    /// Take the stone off `(x, y)`, if there is one, and update the hash.
    fn remove_stone(&mut self, x: i32, y: i32)
        requires
            old(self).wf(),
            on_board(x as int, y as int),
        ensures
            old(self).stone(x as int, y as int) == Stone::Empty ==> *final(self) == *old(self),
            old(self).stone(x as int, y as int) != Stone::Empty ==> Gomoku::with_stone(
                *old(self),
                *final(self),
                x as int,
                y as int,
                Stone::Empty,
            ),
            old(self).stone(x as int, y as int) != Stone::Empty ==> final(self).hash == old(self).hash ^ seed_key(
                19 * x + y,
                old(self).stone(x as int, y as int).cell().slot() - 1,
            ),
            final(self).wf(),
            old(self).hash_consistent() ==> final(self).hash_consistent(),
    {
        let z = zobrist();
        let color_idx: usize = match self.board[x as usize][y as usize] {
            Stone::Black => 0,
            Stone::White => 1,
            Stone::Empty => {
                return;
            },
        };
        let ghost before = *self;
        self.hash = self.hash ^ z.board[x as usize * 19 + y as usize][color_idx];
        self.set_stone(x as usize, y as usize, Stone::Empty);
        proof {
            let i = 19 * x + y;
            lemma_index(x as int, y as int);
            assert(cell_key(self.grid(), i) == 0);
            lemma_xor_zero(cell_key(before.grid(), i));
            assert forall|a: int, b: int| on_board(a, b) && !(a == x && b == y) implies #[trigger] self.grid()(a, b)
                == before.grid()(a, b) by {
                assert(self.stone(a, b) == before.stone(a, b));
            }
            if before.hash_consistent() {
                lemma_cell_change_keeps_hash(before, *self, x as int, y as int);
            }
        }
    }

    /// The side to move on `(x0, y0)` brackets two opposing stones along
    /// `(dx, dy)`.
    pub fn is_capture(&self, x0: i32, y0: i32, dx: i32, dy: i32) -> (b: bool)
        requires
            self.wf(),
            -100 <= x0 <= 100,
            -100 <= y0 <= 100,
            -1 <= dx <= 1,
            -1 <= dy <= 1,
        ensures
            b == brackets_pair(self.grid(), x0 as int, y0 as int, dx as int, dy as int, self.current_player.cell()),
    {
        let opp = self.opponent_player;
        let mut i: i32 = 1;
        while i < 3
            invariant
                1 <= i <= 3,
                self.wf(),
                opp == self.opponent_player,
                -100 <= x0 <= 100,
                -100 <= y0 <= 100,
                -1 <= dx <= 1,
                -1 <= dy <= 1,
                forall|k: int|
                    1 <= k < i ==> #[trigger] on_board(x0 + k * dx, y0 + k * dy) && self.stone(x0 + k * dx, y0 + k * dy)
                        == opp,
            decreases 3 - i,
        {
            assert(-3 <= dx * i <= 3 && -3 <= dy * i <= 3) by (nonlinear_arith)
                requires
                    -1 <= dx <= 1,
                    -1 <= dy <= 1,
                    1 <= i <= 3,
            ;
            let x = x0 + dx * i;
            let y = y0 + dy * i;
            if !self.is_on_board(x, y) || self.board[x as usize][y as usize] != opp {
                return false;
            }
            i += 1;
        }
        let x = x0 + dx * 3;
        let y = y0 + dy * 3;
        proof {
            assert(on_board(x0 + 1 * dx, y0 + 1 * dy));
            assert(on_board(x0 + 2 * dx, y0 + 2 * dy));
        }
        self.is_on_board(x, y) && self.board[x as usize][y as usize] == self.current_player
    }

    /// Take the two stones after `(x0, y0)` along `(dx, dy)` off the board;
    /// their positions, nearest first.
    fn apply_capture(&mut self, x0: i32, y0: i32, dx: i32, dy: i32) -> (removed: Vec<(i32, i32)>)
        requires
            old(self).wf(),
            on_board(x0 + dx, y0 + dy),
            on_board(x0 + 2 * dx, y0 + 2 * dy),
            -1 <= dx <= 1,
            -1 <= dy <= 1,
            -100 <= x0 <= 100,
            -100 <= y0 <= 100,
        ensures
            final(self).wf(),
            removed@ == seq![((x0 + dx) as i32, (y0 + dy) as i32), ((x0 + 2 * dx) as i32, (y0 + 2 * dy) as i32)],
            forall|a: int, b: int| #[trigger] final(self).stone(a, b) == if (a == x0 + dx && b == y0 + dy) || (a == x0 + 2
                * dx && b == y0 + 2 * dy) {
                Stone::Empty
            } else {
                old(self).stone(a, b)
            },
            final(self).size == old(self).size,
            final(self).current_player == old(self).current_player,
            final(self).opponent_player == old(self).opponent_player,
            final(self).black_captures == old(self).black_captures,
            final(self).white_captures == old(self).white_captures,
            final(self).win_capture_count == old(self).win_capture_count,
            final(self).current_move == old(self).current_move,
            final(self).move_count == old(self).move_count,
            old(self).hash_consistent() ==> final(self).hash_consistent(),
    {
        let mut removed: Vec<(i32, i32)> = Vec::new();
        let x1 = x0 + dx;
        let y1 = y0 + dy;
        removed.push((x1, y1));
        self.remove_stone(x1, y1);
        let x2 = x0 + dx * 2;
        let y2 = y0 + dy * 2;
        removed.push((x2, y2));
        self.remove_stone(x2, y2);
        assert(removed@ =~= seq![((x0 + dx) as i32, (y0 + dy) as i32), ((x0 + 2 * dx) as i32, (y0 + 2 * dy) as i32)]);
        removed
    }
}

/// Capture direction `d`.
pub fn cap_dir_at(d: usize) -> (r: (i32, i32))
    requires
        d < 8,
    ensures
        r.0 as int == cap_dir(d as int).0,
        r.1 as int == cap_dir(d as int).1,
{
    if d == 0 {
        (1, -1)
    } else if d == 1 {
        (1, 0)
    } else if d == 2 {
        (1, 1)
    } else if d == 3 {
        (0, -1)
    } else if d == 4 {
        (0, 1)
    } else if d == 5 {
        (-1, -1)
    } else if d == 6 {
        (-1, 0)
    } else {
        (-1, 1)
    }
}

/// The cells one to three steps from `(x, y)` in direction `d` are not
/// among the stones captured in earlier directions.
proof fn lemma_not_taken_ahead(g: Grid, x: int, y: int, me: Cell, n: int, d: int, k: int)
    requires
        0 <= n <= d < 8,
        1 <= k <= 3,
    ensures
        !taken(g, x, y, me, n, x + k * cap_dir(d).0, y + k * cap_dir(d).1),
    decreases n,
{
    if n > 0 {
        lemma_not_taken_ahead(g, x, y, me, n - 1, d, k);
        lemma_dirs_apart(d, n - 1, k, 1);
        lemma_dirs_apart(d, n - 1, k, 2);
    }
}

/// The placed stone is never among the captured ones.
proof fn lemma_origin_not_taken(g: Grid, x: int, y: int, me: Cell, n: int)
    requires
        0 <= n <= 8,
    ensures
        !taken(g, x, y, me, n, x, y),
    decreases n,
{
    if n > 0 {
        lemma_origin_not_taken(g, x, y, me, n - 1);
    }
}

proof fn lemma_capture_total_bound(g: Grid, x: int, y: int, me: Cell, n: int)
    requires
        0 <= n <= 8,
    ensures
        0 <= capture_total(g, x, y, me, n) <= n,
        taken_cells(g, x, y, me, n).len() == 2 * capture_total(g, x, y, me, n),
    decreases n,
{
    if n > 0 {
        lemma_capture_total_bound(g, x, y, me, n - 1);
    }
}

impl Gomoku {
    /// Capture every pair the side to move brackets from `(x0, y0)`; the
    /// number of pairs and the captured positions.
    pub fn capture_center(&mut self, x0: i32, y0: i32) -> (r: (i32, Vec<(i32, i32)>))
        requires
            old(self).wf(),
            on_board(x0 as int, y0 as int),
            old(self).caps(old(self).current_player) <= i32::MAX - 8,
        ensures
            final(self).wf(),
            r.0 == capture_total(old(self).grid(), x0 as int, y0 as int, old(self).current_player.cell(), 8),
            r.1@ == taken_cells(old(self).grid(), x0 as int, y0 as int, old(self).current_player.cell(), 8),
            forall|a: int, b: int| #[trigger] final(self).grid()(a, b) == captured_grid(
                old(self).grid(),
                x0 as int,
                y0 as int,
                old(self).current_player.cell(),
                8,
            )(a, b),
            final(self).caps(old(self).current_player) == old(self).caps(old(self).current_player) + r.0,
            final(self).caps(old(self).opponent_player) == old(self).caps(old(self).opponent_player),
            final(self).size == old(self).size,
            final(self).current_player == old(self).current_player,
            final(self).opponent_player == old(self).opponent_player,
            final(self).win_capture_count == old(self).win_capture_count,
            final(self).current_move == old(self).current_move,
            final(self).move_count == old(self).move_count,
            old(self).hash_consistent() ==> final(self).hash_consistent(),
    {
        let ghost g0 = self.grid();
        let ghost me = self.current_player.cell();
        let ghost start = *self;
        let mut capture_count: i32 = 0;
        let mut captured_positions: Vec<(i32, i32)> = Vec::new();
        let mut d: usize = 0;
        while d < 8
            invariant
                0 <= d <= 8,
                self.wf(),
                on_board(x0 as int, y0 as int),
                me == self.current_player.cell(),
                forall|a: int, b: int| #[trigger] self.grid()(a, b) == captured_grid(g0, x0 as int, y0 as int, me, d as int)(
                    a,
                    b,
                ),
                capture_count == capture_total(g0, x0 as int, y0 as int, me, d as int),
                captured_positions@ == taken_cells(g0, x0 as int, y0 as int, me, d as int),
                self.size == start.size,
                self.current_player == start.current_player,
                self.opponent_player == start.opponent_player,
                self.black_captures == start.black_captures,
                self.white_captures == start.white_captures,
                self.win_capture_count == start.win_capture_count,
                self.current_move == start.current_move,
                self.move_count == start.move_count,
                start.hash_consistent() ==> self.hash_consistent(),
            decreases 8 - d,
        {
            proof {
                lemma_capture_total_bound(g0, x0 as int, y0 as int, me, d as int);
            }
            let (dx, dy) = cap_dir_at(d);
            proof {
                lemma_not_taken_ahead(g0, x0 as int, y0 as int, me, d as int, d as int, 1);
                lemma_not_taken_ahead(g0, x0 as int, y0 as int, me, d as int, d as int, 2);
                lemma_not_taken_ahead(g0, x0 as int, y0 as int, me, d as int, d as int, 3);
                assert(self.grid()(x0 + dx, y0 + dy) == g0(x0 + dx, y0 + dy));
                assert(self.grid()(x0 + 2 * dx, y0 + 2 * dy) == g0(x0 + 2 * dx, y0 + 2 * dy));
                assert(self.grid()(x0 + 3 * dx, y0 + 3 * dy) == g0(x0 + 3 * dx, y0 + 3 * dy));
            }
            if self.is_capture(x0, y0, dx, dy) {
                let ghost before = *self;
                let removed = self.apply_capture(x0, y0, dx, dy);
                captured_positions.push(removed[0]);
                captured_positions.push(removed[1]);
                capture_count += 1;
                proof {
                    assert forall|a: int, b: int| #[trigger] self.grid()(a, b) == captured_grid(
                        g0,
                        x0 as int,
                        y0 as int,
                        me,
                        d + 1,
                    )(a, b) by {
                        assert(self.grid()(a, b) == self.stone(a, b).cell());
                        assert(before.grid()(a, b) == before.stone(a, b).cell());
                    }
                    assert(captured_positions@ =~= taken_cells(g0, x0 as int, y0 as int, me, d + 1));
                }
            } else {
                proof {
                    assert forall|a: int, b: int| #[trigger] self.grid()(a, b) == captured_grid(
                        g0,
                        x0 as int,
                        y0 as int,
                        me,
                        d + 1,
                    )(a, b) by {
                        assert(self.grid()(a, b) == captured_grid(g0, x0 as int, y0 as int, me, d as int)(a, b));
                    }
                }
            }
            d += 1;
        }
        proof {
            lemma_capture_total_bound(g0, x0 as int, y0 as int, me, 8);
        }
        let ghost mid = *self;
        if capture_count > 0 {
            if self.current_player == Stone::Black {
                self.black_captures = self.black_captures + capture_count;
            } else {
                self.white_captures = self.white_captures + capture_count;
            }
        }
        proof {
            assert(self.board == mid.board);
            assert(self.grid() =~= mid.grid());
        }
        (capture_count, captured_positions)
    }

    /// Play `(x, y)` for the side to move if it is a valid move: place the
    /// stone, update the hash and capture what it brackets. Returns the
    /// move's outcome, the number of pairs captured and their positions.
    pub fn handle_move(&mut self, x: i32, y: i32) -> (r: (MoveResult, i32, Vec<(i32, i32)>))
        requires
            old(self).wf(),
            old(self).move_count < usize::MAX,
            old(self).caps(old(self).current_player) <= i32::MAX - 8,
        ensures
            final(self).wf(),
            r.0 == old(self).move_check(x as int, y as int),
            r.0 != MoveResult::Valid ==> *final(self) == *old(self) && r.1 == 0 && r.2@.len() == 0,
            r.0 == MoveResult::Valid ==> {
                let me = old(self).current_player.cell();
                let g1 = placed_grid(old(self).grid(), x as int, y as int, me);
                &&& forall|a: int, b: int| #[trigger] final(self).grid()(a, b) == captured_grid(
                    g1,
                    x as int,
                    y as int,
                    me,
                    8,
                )(a, b)
                &&& r.1 == capture_total(g1, x as int, y as int, me, 8)
                &&& r.2@ == taken_cells(g1, x as int, y as int, me, 8)
                &&& final(self).caps(old(self).current_player) == old(self).caps(old(self).current_player) + r.1
                &&& final(self).caps(old(self).opponent_player) == old(self).caps(old(self).opponent_player)
                &&& final(self).current_move == Some((x, y))
                &&& final(self).move_count == old(self).move_count + 1
                &&& final(self).current_player == old(self).current_player
                &&& final(self).opponent_player == old(self).opponent_player
                &&& final(self).win_capture_count == old(self).win_capture_count
            },
            old(self).hash_consistent() ==> final(self).hash_consistent(),
    {
        let result = self.is_valid_move(x, y);
        let mut capture_count: i32 = 0;
        let mut captured_positions: Vec<(i32, i32)> = Vec::new();
        if result == MoveResult::Valid {
            let ghost start = *self;
            self.current_move = Some((x, y));
            self.move_count += 1;
            let me = self.current_player;
            let ghost before = *self;
            proof {
                assert(before.board == start.board);
                assert(before.grid() =~= start.grid());
            }
            self.set_stone(x as usize, y as usize, me);
            let ghost placed = *self;
            let z = zobrist();
            let color_idx: usize = if me == Stone::Black {
                0
            } else {
                1
            };
            self.hash = self.hash ^ z.board[x as usize * 19 + y as usize][color_idx];
            proof {
                let i = 19 * x + y;
                lemma_index(x as int, y as int);
                assert(cell_key(before.grid(), i) == 0);
                lemma_xor_zero(cell_key(self.grid(), i));
                lemma_xor_laws(0u64, cell_key(self.grid(), i), 0u64);
                assert(self.board == placed.board);
                assert(self.grid() =~= placed.grid());
                assert forall|a: int, b: int| on_board(a, b) && !(a == x && b == y) implies #[trigger] self.grid()(a, b)
                    == before.grid()(a, b) by {
                    assert(placed.stone(a, b) == before.stone(a, b));
                }
                assert(placed.stone(x as int, y as int) == me);
                assert forall|a: int, b: int| #[trigger] self.grid()(a, b) == placed_grid(before.grid(), x as int, y as int, me.cell())(a, b) by {
                    assert(placed.stone(a, b) == if a == x && b == y { me } else { before.stone(a, b) });
                }
                assert(self.grid() =~= placed_grid(before.grid(), x as int, y as int, me.cell()));
                if before.hash_consistent() {
                    lemma_cell_change_keeps_hash(before, *self, x as int, y as int);
                }
            }
            let (count, positions) = self.capture_center(x, y);
            capture_count = count;
            captured_positions = positions;
        }
        (result, capture_count, captured_positions)
    }
}

/// The stone a board character stands for: `X` Black, `O` White, anything
/// else empty.
pub open spec fn stone_of(ch: char) -> Stone {
    if ch == 'X' {
        Stone::Black
    } else if ch == 'O' {
        Stone::White
    } else {
        Stone::Empty
    }
}

/// The finished rows and the row in progress after the first `n` characters
/// of `s`: a `\n` ends a row, dropping a `\r` just before it.
pub open spec fn split_rows(s: Seq<char>, n: int) -> (Seq<Seq<Stone>>, Seq<Stone>)
    decreases n,
{
    if n <= 0 {
        (Seq::empty(), Seq::empty())
    } else {
        let (done, cur) = split_rows(s, n - 1);
        let ch = s[n - 1];
        if ch == '\n' {
            let line = if n >= 2 && s[n - 2] == '\r' {
                cur.drop_last()
            } else {
                cur
            };
            (done.push(line), Seq::empty())
        } else {
            (done, cur.push(stone_of(ch)))
        }
    }
}

/// The board a text describes, one row per line; no row after a final line
/// break.
pub open spec fn parsed_board(s: Seq<char>) -> Seq<Seq<Stone>> {
    let (done, cur) = split_rows(s, s.len() as int);
    if cur.len() > 0 {
        done.push(cur)
    } else {
        done
    }
}

proof fn lemma_split_rows_cr(s: Seq<char>, n: int)
    requires
        1 <= n <= s.len(),
        s[n - 1] == '\r',
    ensures
        split_rows(s, n).1.len() > 0,
{
}

impl Gomoku {
    /// Replace the board with the one `board_str` draws, a line per row:
    /// `X` Black, `O` White, anything else empty. Nothing else changes.
    pub fn parse_board(&mut self, board_str: &str)
        ensures
            final(self).board@.len() == parsed_board(board_str@).len(),
            forall|i: int| 0 <= i < final(self).board@.len() ==> #[trigger] final(self).board@[i]@ == parsed_board(
                board_str@,
            )[i],
            final(self).size == old(self).size,
            final(self).current_player == old(self).current_player,
            final(self).opponent_player == old(self).opponent_player,
            final(self).black_captures == old(self).black_captures,
            final(self).white_captures == old(self).white_captures,
            final(self).win_capture_count == old(self).win_capture_count,
            final(self).current_move == old(self).current_move,
            final(self).move_count == old(self).move_count,
            final(self).hash == old(self).hash,
    {
        let ghost text = board_str@;
        let n = board_str.unicode_len();
        let mut rows: Vec<Vec<Stone>> = Vec::new();
        let mut cur: Vec<Stone> = Vec::new();
        let mut prev_cr = false;
        let mut i: usize = 0;
        while i < n
            invariant
                0 <= i <= n,
                n == text.len(),
                text == board_str@,
                rows@.len() == split_rows(text, i as int).0.len(),
                forall|j: int| 0 <= j < rows@.len() ==> #[trigger] rows@[j]@ == split_rows(text, i as int).0[j],
                cur@ == split_rows(text, i as int).1,
                prev_cr == (i >= 1 && text[i - 1] == '\r'),
            decreases n - i,
        {
            let ch = board_str.get_char(i);
            let ghost done = split_rows(text, i as int).0;
            if ch == '\n' {
                if prev_cr {
                    proof {
                        lemma_split_rows_cr(text, i as int);
                    }
                    cur.pop();
                }
                rows.push(cur);
                cur = Vec::new();
                proof {
                    assert forall|j: int| 0 <= j < rows@.len() implies #[trigger] rows@[j]@ == split_rows(text, i + 1).0[j] by {
                        if j < done.len() {
                            assert(split_rows(text, i + 1).0[j] == done[j]);
                        }
                    }
                }
            } else {
                let stone = if ch == 'X' {
                    Stone::Black
                } else if ch == 'O' {
                    Stone::White
                } else {
                    Stone::Empty
                };
                cur.push(stone);
            }
            prev_cr = ch == '\r';
            i += 1;
        }
        if cur.len() > 0 {
            let ghost done = rows@;
            rows.push(cur);
            proof {
                assert forall|j: int| 0 <= j < rows@.len() implies #[trigger] rows@[j]@ == parsed_board(text)[j] by {
                    if j < done.len() {
                        assert(rows@[j] == done[j]);
                    }
                }
            }
        }
        self.board = rows;
    }
}

impl Gomoku {
    /// The cells of every formation on the board, Black's then White's.
    pub fn pattern_ranges(&self) -> (res: (PlayerRanges, PlayerRanges))
        requires
            self.wf(),
        ensures
            forall|k: PatternKind| #[trigger] res.0.list(k) == all_ranges(self.grid(), true, k),
            forall|k: PatternKind| #[trigger] res.1.list(k) == all_ranges(self.grid(), false, k),
    {
        let board = SearchBoard::cells_from_gomoku(self);
        board.sb_collect_patterns()
    }

    /// The formations of `kind` per player name, Black first.
    pub fn kind_lists(&self, kind: PatternKind) -> (v: Vec<(String, Vec<Vec<(i32, i32)>>)>)
        requires
            self.wf(),
        ensures
            v@.len() == 2,
            v@[0].0@ == seq!['X'] && lists(v@[0].1@) == all_ranges(self.grid(), true, kind),
            v@[1].0@ == seq!['O'] && lists(v@[1].1@) == all_ranges(self.grid(), false, kind),
    {
        let (black, white) = self.pattern_ranges();
        let mut v: Vec<(String, Vec<Vec<(i32, i32)>>)> = Vec::new();
        v.push((Stone::Black.name(), black.into_list(kind)));
        v.push((Stone::White.name(), white.into_list(kind)));
        v
    }

    pub fn free_three_list(&self) -> (v: Vec<(String, Vec<Vec<(i32, i32)>>)>)
        requires
            self.wf(),
        ensures
            v@.len() == 2,
            v@[0].0@ == seq!['X'] && lists(v@[0].1@) == all_ranges(self.grid(), true, PatternKind::FreeThree),
            v@[1].0@ == seq!['O'] && lists(v@[1].1@) == all_ranges(self.grid(), false, PatternKind::FreeThree),
    {
        self.kind_lists(PatternKind::FreeThree)
    }

    pub fn five_row(&self) -> (v: Vec<(String, Vec<Vec<(i32, i32)>>)>)
        requires
            self.wf(),
        ensures
            v@.len() == 2,
            v@[0].0@ == seq!['X'] && lists(v@[0].1@) == all_ranges(self.grid(), true, PatternKind::FiveRow),
            v@[1].0@ == seq!['O'] && lists(v@[1].1@) == all_ranges(self.grid(), false, PatternKind::FiveRow),
    {
        self.kind_lists(PatternKind::FiveRow)
    }

    pub fn open_two(&self) -> (v: Vec<(String, Vec<Vec<(i32, i32)>>)>)
        requires
            self.wf(),
        ensures
            v@.len() == 2,
            v@[0].0@ == seq!['X'] && lists(v@[0].1@) == all_ranges(self.grid(), true, PatternKind::OpenTwo),
            v@[1].0@ == seq!['O'] && lists(v@[1].1@) == all_ranges(self.grid(), false, PatternKind::OpenTwo),
    {
        self.kind_lists(PatternKind::OpenTwo)
    }

    pub fn open_three(&self) -> (v: Vec<(String, Vec<Vec<(i32, i32)>>)>)
        requires
            self.wf(),
        ensures
            v@.len() == 2,
            v@[0].0@ == seq!['X'] && lists(v@[0].1@) == all_ranges(self.grid(), true, PatternKind::OpenThree),
            v@[1].0@ == seq!['O'] && lists(v@[1].1@) == all_ranges(self.grid(), false, PatternKind::OpenThree),
    {
        self.kind_lists(PatternKind::OpenThree)
    }

    pub fn open_four(&self) -> (v: Vec<(String, Vec<Vec<(i32, i32)>>)>)
        requires
            self.wf(),
        ensures
            v@.len() == 2,
            v@[0].0@ == seq!['X'] && lists(v@[0].1@) == all_ranges(self.grid(), true, PatternKind::OpenFour),
            v@[1].0@ == seq!['O'] && lists(v@[1].1@) == all_ranges(self.grid(), false, PatternKind::OpenFour),
    {
        self.kind_lists(PatternKind::OpenFour)
    }

    pub fn block_four(&self) -> (v: Vec<(String, Vec<Vec<(i32, i32)>>)>)
        requires
            self.wf(),
        ensures
            v@.len() == 2,
            v@[0].0@ == seq!['X'] && lists(v@[0].1@) == all_ranges(self.grid(), true, PatternKind::BlockFour),
            v@[1].0@ == seq!['O'] && lists(v@[1].1@) == all_ranges(self.grid(), false, PatternKind::BlockFour),
    {
        self.kind_lists(PatternKind::BlockFour)
    }
}

/// The neighbour-direction index (in the search's order) of capture
/// direction `d`.
pub open spec fn cap_to_all(d: int) -> int {
    if d == 0 {
        3
    } else if d == 1 {
        0
    } else if d == 2 {
        2
    } else if d == 3 {
        5
    } else if d == 4 {
        1
    } else if d == 5 {
        6
    } else if d == 6 {
        4
    } else {
        7
    }
}

/// The capture-direction index of the search's neighbour direction `e`.
pub open spec fn all_to_cap(e: int) -> int {
    if e == 0 {
        1
    } else if e == 1 {
        4
    } else if e == 2 {
        2
    } else if e == 3 {
        0
    } else if e == 4 {
        6
    } else if e == 5 {
        3
    } else if e == 6 {
        5
    } else {
        7
    }
}

/// A captured cell comes from some direction that brackets a pair.
proof fn lemma_taken_dir(g: Grid, x: int, y: int, me: Cell, n: int, a: int, b: int) -> (d: int)
    requires
        taken(g, x, y, me, n, a, b),
    ensures
        0 <= d < n,
        brackets_pair(g, x, y, cap_dir(d).0, cap_dir(d).1, me),
        (a == x + cap_dir(d).0 && b == y + cap_dir(d).1) || (a == x + 2 * cap_dir(d).0 && b == y + 2 * cap_dir(d).1),
    decreases n,
{
    if taken(g, x, y, me, n - 1, a, b) {
        lemma_taken_dir(g, x, y, me, n - 1, a, b)
    } else {
        n - 1
    }
}

/// A cell of a bracketed pair in a direction `< n` is captured.
proof fn lemma_taken_from(g: Grid, x: int, y: int, me: Cell, n: int, d: int, a: int, b: int)
    requires
        0 <= d < n,
        brackets_pair(g, x, y, cap_dir(d).0, cap_dir(d).1, me),
        (a == x + cap_dir(d).0 && b == y + cap_dir(d).1) || (a == x + 2 * cap_dir(d).0 && b == y + 2 * cap_dir(d).1),
    ensures
        taken(g, x, y, me, n, a, b),
    decreases n,
{
    if d < n - 1 {
        lemma_taken_from(g, x, y, me, n - 1, d, a, b);
    }
}

/// A cleared cell comes from some direction that captures.
proof fn lemma_cleared_dir(g: Grid, r: int, c: int, cur: Cell, opp: Cell, n: int, a: int, b: int) -> (e: int)
    requires
        cleared(g, r, c, cur, opp, n, a, b),
    ensures
        0 <= e < n,
        capture_in(g, r, c, e, cur, opp),
        (a == r + all_dir(e).0 && b == c + all_dir(e).1) || (a == r + 2 * all_dir(e).0 && b == c + 2 * all_dir(e).1),
    decreases n,
{
    if cleared(g, r, c, cur, opp, n - 1, a, b) {
        lemma_cleared_dir(g, r, c, cur, opp, n - 1, a, b)
    } else {
        n - 1
    }
}

/// A cell of a captured pair in a direction `< n` is cleared.
proof fn lemma_cleared_from(g: Grid, r: int, c: int, cur: Cell, opp: Cell, n: int, e: int, a: int, b: int)
    requires
        0 <= e < n,
        capture_in(g, r, c, e, cur, opp),
        (a == r + all_dir(e).0 && b == c + all_dir(e).1) || (a == r + 2 * all_dir(e).0 && b == c + 2 * all_dir(e).1),
    ensures
        cleared(g, r, c, cur, opp, n, a, b),
    decreases n,
{
    if e < n - 1 {
        lemma_cleared_from(g, r, c, cur, opp, n - 1, e, a, b);
    }
}

/// On the board with the stone placed, a capture direction brackets a pair
/// exactly when the search's matching direction captures on the board
/// before the move.
proof fn lemma_bracket_matches(g: Grid, r: int, c: int, me: Cell, d: int)
    requires
        on_board(r, c),
        me == Cell::Black || me == Cell::White,
        0 <= d < 8,
    ensures
        0 <= cap_to_all(d) < 8,
        all_dir(cap_to_all(d)) == cap_dir(d),
        all_to_cap(cap_to_all(d)) == d,
        brackets_pair(placed_grid(g, r, c, me), r, c, cap_dir(d).0, cap_dir(d).1, me) == capture_in(
            g,
            r,
            c,
            cap_to_all(d),
            me,
            me.other(),
        ),
{
}

proof fn lemma_capture_matches(g: Grid, r: int, c: int, me: Cell, e: int)
    requires
        on_board(r, c),
        me == Cell::Black || me == Cell::White,
        0 <= e < 8,
    ensures
        0 <= all_to_cap(e) < 8,
        cap_to_all(all_to_cap(e)) == e,
{
}

/// Playing a move in the game and in the search captures alike: on the
/// board with the stone placed, the game's captures leave the board the
/// search's move leads to, and count the same number of pairs.
pub proof fn lemma_game_and_search_capture_alike(g: Grid, r: int, c: int, me: Cell)
    requires
        on_board(r, c),
        g(r, c) == Cell::Empty,
        me == Cell::Black || me == Cell::White,
    ensures
        forall|x: int, y: int| #[trigger] captured_grid(placed_grid(g, r, c, me), r, c, me, 8)(x, y) == after_grid(
            g,
            r,
            c,
            me,
            me.other(),
            8,
        )(x, y),
        capture_total(placed_grid(g, r, c, me), r, c, me, 8) == captures_before(g, r, c, me, me.other(), 8),
{
    let g1 = placed_grid(g, r, c, me);
    let opp = me.other();
    assert forall|x: int, y: int| #[trigger] captured_grid(g1, r, c, me, 8)(x, y) == after_grid(g, r, c, me, opp, 8)(
        x,
        y,
    ) by {
        if x == r && y == c {
            lemma_origin_not_taken(g1, r, c, me, 8);
        } else {
            if taken(g1, r, c, me, 8, x, y) {
                let d = lemma_taken_dir(g1, r, c, me, 8, x, y);
                lemma_bracket_matches(g, r, c, me, d);
                lemma_cleared_from(g, r, c, me, opp, 8, cap_to_all(d), x, y);
            }
            if cleared(g, r, c, me, opp, 8, x, y) {
                let e = lemma_cleared_dir(g, r, c, me, opp, 8, x, y);
                lemma_capture_matches(g, r, c, me, e);
                lemma_bracket_matches(g, r, c, me, all_to_cap(e));
                lemma_taken_from(g1, r, c, me, 8, all_to_cap(e), x, y);
            }
        }
    }
    lemma_bracket_matches(g, r, c, me, 0);
    lemma_bracket_matches(g, r, c, me, 1);
    lemma_bracket_matches(g, r, c, me, 2);
    lemma_bracket_matches(g, r, c, me, 3);
    lemma_bracket_matches(g, r, c, me, 4);
    lemma_bracket_matches(g, r, c, me, 5);
    lemma_bracket_matches(g, r, c, me, 6);
    lemma_bracket_matches(g, r, c, me, 7);
    reveal_with_fuel(capture_total, 9);
    reveal_with_fuel(captures_before, 9);
}

} // verus!
