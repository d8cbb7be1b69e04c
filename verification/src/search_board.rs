//! Zero-heap board and pattern recognizer used by the search.
//!
//! The board keeps, besides its cells, the number of formations of each kind
//! that each colour holds. `make_move` keeps those counts up to date by
//! rescanning only the neighbourhood of the placed stone (or the whole board
//! when a capture happened) and `undo_move` rolls the change back.
use vstd::prelude::*;

pub mod recognize;
pub mod moves;
pub mod rules;
pub mod ordering;
pub mod locality;
pub mod rescan;
pub mod ranges;

verus! {

/// Content of one intersection.
#[derive(Clone, Copy, PartialEq, Eq, Debug, Structural)]
pub enum Cell {
    Empty,
    Black,
    White,
}

impl Cell {
    /// The other colour; `Empty` stays `Empty`.
    pub open spec fn other(self) -> Cell {
        match self {
            Cell::Black => Cell::White,
            Cell::White => Cell::Black,
            Cell::Empty => Cell::Empty,
        }
    }

    /// Position of the colour in `SearchBoard::captures` (`Empty` is 0).
    pub open spec fn slot(self) -> int {
        match self {
            Cell::Empty => 0,
            Cell::Black => 1,
            Cell::White => 2,
        }
    }

    pub fn opponent(self) -> (r: Cell)
        ensures
            r == self.other(),
    {
        match self {
            Cell::Black => Cell::White,
            Cell::White => Cell::Black,
            Cell::Empty => Cell::Empty,
        }
    }

    /// Index into the capture counters.
    pub fn index(self) -> (r: usize)
        ensures
            r == self.slot(),
    {
        match self {
            Cell::Empty => 0,
            Cell::Black => 1,
            Cell::White => 2,
        }
    }

    /// Column of the Zobrist table for a stone: Black is 0, White is 1.
    pub fn zobrist_idx(self) -> (r: usize)
        requires
            self != Cell::Empty,
        ensures
            r == self.slot() - 1,
    {
        match self {
            Cell::Black => 0,
            Cell::White => 1,
            Cell::Empty => 0,
        }
    }
}

/// The six formations the evaluator scores.
#[derive(Clone, Copy, PartialEq, Eq, Debug, Structural)]
pub enum PatternKind {
    OpenTwo,
    OpenThree,
    FreeThree,
    BlockFour,
    OpenFour,
    FiveRow,
}

/// How many formations of each kind one colour holds.
#[derive(Clone, Copy, PartialEq, Eq, Debug, Structural)]
pub struct PatternCounts {
    pub five_rows: i32,
    pub open_fours: i32,
    pub block_fours: i32,
    pub open_threes: i32,
    pub open_twos: i32,
    pub free_threes: i32,
}

/// Largest magnitude a stored formation count may have before a move:
/// keeps every update away from the `i32` limits.
pub const COUNT_LIMIT: i32 = 1_000_000_000;

impl PatternCounts {
    /// The counter that holds `kind`.
    pub open spec fn count(self, kind: PatternKind) -> i32 {
        match kind {
            PatternKind::OpenTwo => self.open_twos,
            PatternKind::OpenThree => self.open_threes,
            PatternKind::FreeThree => self.free_threes,
            PatternKind::BlockFour => self.block_fours,
            PatternKind::OpenFour => self.open_fours,
            PatternKind::FiveRow => self.five_rows,
        }
    }

    /// Every counter lies within `[-COUNT_LIMIT, COUNT_LIMIT]`.
    pub open spec fn bounded(self) -> bool {
        forall|k: PatternKind| -COUNT_LIMIT <= #[trigger] self.count(k) <= COUNT_LIMIT
    }

    /// Every counter lies within `[0, n]`.
    pub open spec fn within(self, n: int) -> bool {
        forall|k: PatternKind| 0 <= #[trigger] self.count(k) <= n
    }

    /// The counts with one more formation of `kind`.
    pub open spec fn bump(self, kind: PatternKind) -> PatternCounts {
        match kind {
            PatternKind::OpenTwo => PatternCounts { open_twos: (self.open_twos + 1) as i32, ..self },
            PatternKind::OpenThree => PatternCounts { open_threes: (self.open_threes + 1) as i32, ..self },
            PatternKind::FreeThree => PatternCounts { free_threes: (self.free_threes + 1) as i32, ..self },
            PatternKind::BlockFour => PatternCounts { block_fours: (self.block_fours + 1) as i32, ..self },
            PatternKind::OpenFour => PatternCounts { open_fours: (self.open_fours + 1) as i32, ..self },
            PatternKind::FiveRow => PatternCounts { five_rows: (self.five_rows + 1) as i32, ..self },
        }
    }

    /// Field-wise `self + sign * delta`.
    pub open spec fn shifted(self, delta: PatternCounts, sign: int) -> PatternCounts {
        PatternCounts {
            five_rows: (self.five_rows + delta.five_rows * sign) as i32,
            open_fours: (self.open_fours + delta.open_fours * sign) as i32,
            block_fours: (self.block_fours + delta.block_fours * sign) as i32,
            open_threes: (self.open_threes + delta.open_threes * sign) as i32,
            open_twos: (self.open_twos + delta.open_twos * sign) as i32,
            free_threes: (self.free_threes + delta.free_threes * sign) as i32,
        }
    }

    /// Field-wise `self - other`.
    pub open spec fn minus(self, other: PatternCounts) -> PatternCounts {
        PatternCounts {
            five_rows: (self.five_rows - other.five_rows) as i32,
            open_fours: (self.open_fours - other.open_fours) as i32,
            block_fours: (self.block_fours - other.block_fours) as i32,
            open_threes: (self.open_threes - other.open_threes) as i32,
            open_twos: (self.open_twos - other.open_twos) as i32,
            free_threes: (self.free_threes - other.free_threes) as i32,
        }
    }

    pub open spec fn zero() -> PatternCounts {
        PatternCounts {
            five_rows: 0,
            open_fours: 0,
            block_fours: 0,
            open_threes: 0,
            open_twos: 0,
            free_threes: 0,
        }
    }
}

impl Default for PatternCounts {
    fn default() -> (r: PatternCounts)
        ensures
            r == PatternCounts::zero(),
    {
        PatternCounts {
            five_rows: 0,
            open_fours: 0,
            block_fours: 0,
            open_threes: 0,
            open_twos: 0,
            free_threes: 0,
        }
    }
}

/// A 19x19 board with the side to move, capture counters, Zobrist hash and
/// the formation counts of both colours.
#[derive(Clone)]
pub struct SearchBoard {
    pub cells: [[Cell; 19]; 19],
    pub current: Cell,
    pub opponent: Cell,
    /// Indexed by `Cell::index`: `[unused, Black, White]`.
    pub captures: [i32; 3],
    pub hash: u64,
    pub move_count: usize,
    pub last_move: Option<(usize, usize)>,
    pub total_stones: usize,
    pub black_patterns: PatternCounts,
    pub white_patterns: PatternCounts,
}

/// What `make_move` changed, so that `undo_move` can put it back.
pub struct UndoInfo {
    pub placed: (usize, usize),
    pub placed_player: Cell,
    /// At most four pairs are captured by one move.
    pub captured_stones: [(usize, usize); 8],
    pub num_captured: usize,
    pub old_captures_current: i32,
    pub old_hash: u64,
    pub old_move_count: usize,
    pub old_last_move: Option<(usize, usize)>,
    pub old_total_stones: usize,
    pub delta_black: PatternCounts,
    pub delta_white: PatternCounts,
}

/// A board as a function from coordinates to cells (meaningful on the board).
pub type Grid = spec_fn(int, int) -> Cell;

pub open spec fn on_board(r: int, c: int) -> bool {
    0 <= r < 19 && 0 <= c < 19
}

/// The cell at `(r, c)`; meaningful on the board only.
pub open spec fn at(g: Grid, r: int, c: int) -> Cell {
    g(r, c)
}

/// Cell `(a, b)` has index `19 * a + b`.
pub proof fn lemma_index(a: int, b: int)
    requires
        0 <= b < 19,
    ensures
        (19 * a + b) / 19 == a,
        (19 * a + b) % 19 == b,
{
    vstd::arithmetic::div_mod::lemma_fundamental_div_mod_converse(19 * a + b, 19, a, b);
}

/// Number of stones on rows `< nr` (plus columns `< nc` of row `nr`).
pub open spec fn stones_before(g: Grid, nr: int, nc: int) -> int
    decreases nr, nc,
{
    if nr <= 0 && nc <= 0 {
        0
    } else if nc <= 0 {
        stones_before(g, nr - 1, 19)
    } else {
        stones_before(g, nr, nc - 1) + if g(nr, nc - 1) != Cell::Empty {
            1int
        } else {
            0
        }
    }
}

/// Number of stones on the board.
pub open spec fn stone_count(g: Grid) -> int {
    stones_before(g, 18, 19)
}

impl SearchBoard {
    pub open spec fn cell(self, r: int, c: int) -> Cell {
        self.cells[r][c]
    }

    /// The board's cells as a grid.
    pub open spec fn grid(self) -> Grid {
        |x: int, y: int| if on_board(x, y) { self.cells[x][y] } else { Cell::Empty }
    }

    /// Both formation counts are small enough to be updated safely.
    pub open spec fn counts_bounded(self) -> bool {
        self.black_patterns.bounded() && self.white_patterns.bounded()
    }

    pub fn in_bounds(r: i32, c: i32) -> (b: bool)
        ensures
            b == on_board(r as int, c as int),
    {
        r >= 0 && r < 19 && c >= 0 && c < 19
    }

    pub fn get(&self, r: i32, c: i32) -> (x: Cell)
        requires
            on_board(r as int, c as int),
        ensures
            x == self.cells[r as int][c as int],
    {
        self.cells[r as usize][c as usize]
    }

    /// Empty 19x19 board, Black to move.
    pub fn empty() -> (b: SearchBoard)
        ensures
            forall|r: int, c: int| on_board(r, c) ==> #[trigger] b.cells[r][c] == Cell::Empty,
            b.current == Cell::Black,
            b.opponent == Cell::White,
            b.captures@ == seq![0i32, 0i32, 0i32],
            b.hash == 0,
            b.move_count == 0,
            b.last_move.is_none(),
            b.total_stones == 0,
            b.black_patterns == PatternCounts::zero(),
            b.white_patterns == PatternCounts::zero(),
    {
        let b = SearchBoard {
            cells: [[Cell::Empty; 19]; 19],
            current: Cell::Black,
            opponent: Cell::White,
            captures: [0, 0, 0],
            hash: 0,
            move_count: 0,
            last_move: None,
            total_stones: 0,
            black_patterns: PatternCounts::default(),
            white_patterns: PatternCounts::default(),
        };
        assert(b.captures@ =~= seq![0i32, 0i32, 0i32]);
        b
    }
}

/// Column letter of a board column: `a` for 0 up to `z` for 25, `-` otherwise.
pub open spec fn column_letter(x: int) -> char {
    if 0 <= x < 26 {
        (97 + x) as char
    } else {
        '-'
    }
}

pub open spec fn digit_char(d: int) -> char {
    (48 + d) as char
}

/// Decimal digits of `n`.
pub open spec fn digits(n: nat) -> Seq<char>
    decreases n,
{
    if n < 10 {
        seq![digit_char(n as int)]
    } else {
        digits(n / 10).push(digit_char((n % 10) as int))
    }
}

/// Decimal notation of `n`, with a minus sign when negative.
pub open spec fn decimal(n: int) -> Seq<char> {
    if n < 0 {
        seq!['-'] + digits((-n) as nat)
    } else {
        digits(n as nat)
    }
}

/// Append the decimal digits of `n` to `s`.
fn push_digits(s: &mut String, n: u64)
    ensures
        final(s)@ == old(s)@ + digits(n as nat),
    decreases n,
{
    if n >= 10 {
        push_digits(s, n / 10);
    }
    let d = (n % 10) as usize;
    let table = "0123456789";
    proof {
        reveal_strlit("0123456789");
        assert(table@[d as int] == digit_char(d as int)) by {
            assert(d == 0 || d == 1 || d == 2 || d == 3 || d == 4 || d == 5 || d == 6 || d == 7 || d == 8 || d
                == 9);
        }
    }
    let piece = table.substring_char(d, d + 1);
    s.append(piece);
    proof {
        assert(piece@ =~= seq![digit_char(d as int)]);
        if n >= 10 {
            assert(digits(n as nat) == digits((n / 10) as nat).push(digit_char((n % 10) as int)));
        }
    }
}

/// Name of a board position given as `(row, column)`: the column's letter
/// followed by the row counted from 1, as in `"c4"` for `(3, 2)`.
pub fn position_name(pos: &(i32, i32)) -> (name: String)
    requires
        pos.0 < i32::MAX,
    ensures
        name@ == seq![column_letter(pos.1 as int)] + decimal(pos.0 + 1),
{
    let (y, x) = *pos;
    let mut name = String::new();
    if 0 <= x && x < 26 {
        let letters = "abcdefghijklmnopqrstuvwxyz";
        let xi = x as usize;
        proof {
            reveal_strlit("abcdefghijklmnopqrstuvwxyz");
            assert(letters@[xi as int] == column_letter(x as int)) by {
                assert(0 <= xi < 26);
            }
        }
        let piece = letters.substring_char(xi, xi + 1);
        name.append(piece);
        assert(piece@ =~= seq![column_letter(x as int)]);
    } else {
        let dash = "-";
        proof {
            reveal_strlit("-");
        }
        name.append(dash);
    }
    let row = y as i64 + 1;
    if row < 0 {
        let minus = "-";
        proof {
            reveal_strlit("-");
        }
        name.append(minus);
        push_digits(&mut name, (-row) as u64);
    } else {
        push_digits(&mut name, row as u64);
    }
    proof {
        assert(name@ =~= seq![column_letter(pos.1 as int)] + decimal(pos.0 + 1));
    }
    name
}

} // verus!
