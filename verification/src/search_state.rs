//! Flat-array search state: a 361-cell board with capture counters and an
//! incrementally maintained Zobrist hash, the rules the search needs on it,
//! its static evaluation and threat-aware move ordering.
use vstd::prelude::*;
pub use crate::search_board::Cell;
use crate::keys::{key_seq, xorshift64, KEY_SEED};
use crate::search_board::{on_board, Grid};
use crate::search_board::moves::{seed_key, stones_hash};
use crate::gomoku::{Gomoku, Stone};

pub mod play;
pub mod rules;
pub mod eval;
pub mod threats;
pub mod table;
pub mod search;
pub mod symmetry;
pub mod fives;

verus! {

pub const TOTAL_CELLS: usize = 361;

/// Zobrist keys of the search state.
pub struct ZobristTable {
    /// `[row][col][0 = Black, 1 = White]`
    pub piece_keys: [[[u64; 2]; 19]; 19],
    /// `[0 = Black, 1 = White][captured pairs, 4 standing for four or more]`
    pub capture_keys: [[u64; 5]; 2],
    pub side_to_move: u64,
}

/// Key of a stone of colour column `s` (0 Black, 1 White) on `(r, c)`: the
/// same key sequence as the search board's.
pub open spec fn piece_key(r: int, c: int, s: int) -> u64 {
    seed_key(19 * r + c, s)
}

/// Key of player `p` (0 Black, 1 White) having captured `k` pairs.
pub open spec fn capture_key(p: int, k: int) -> u64 {
    key_seq((723 + 5 * p + k) as nat)
}

/// Key XORed in while White is to move.
pub open spec fn side_key() -> u64 {
    key_seq(733)
}

/// Column of the capture keys for `n` captured pairs.
pub open spec fn cap_slot(n: int) -> int {
    if n < 4 {
        n
    } else {
        4
    }
}

impl ZobristTable {
    /// The table holds the keys drawn from `KEY_SEED` in order: two per
    /// cell in row-major order, five per player, then the side key.
    pub open spec fn canonical(self) -> bool {
        &&& forall|r: int, c: int, s: int|
            0 <= r < 19 && 0 <= c < 19 && 0 <= s < 2 ==> #[trigger] self.piece_keys[r][c][s] == piece_key(r, c, s)
        &&& forall|p: int, k: int| 0 <= p < 2 && 0 <= k < 5 ==> #[trigger] self.capture_keys[p][k] == capture_key(p, k)
        &&& self.side_to_move == side_key()
    }

    pub fn new() -> (t: ZobristTable)
        ensures
            t.canonical(),
    {
        let mut rng: u64 = KEY_SEED;
        let mut table = ZobristTable {
            piece_keys: [[[0u64; 2]; 19]; 19],
            capture_keys: [[0u64; 5]; 2],
            side_to_move: 0,
        };
        let mut row: usize = 0;
        while row < 19
            invariant
                0 <= row <= 19,
                rng == key_seq((2 * (19 * row)) as nat),
                forall|r: int, c: int, s: int|
                    0 <= r < row && 0 <= c < 19 && 0 <= s < 2 ==> #[trigger] table.piece_keys[r][c][s]
                        == piece_key(r, c, s),
            decreases 19 - row,
        {
            let mut col: usize = 0;
            assert(2 * (19 * row + col) == 2 * (19 * row));
            while col < 19
                invariant
                    0 <= row < 19,
                    0 <= col <= 19,
                    rng == key_seq((2 * (19 * row + col)) as nat),
                    forall|r: int, c: int, s: int|
                        0 <= r < row && 0 <= c < 19 && 0 <= s < 2 ==> #[trigger] table.piece_keys[r][c][s]
                            == piece_key(r, c, s),
                    forall|c: int, s: int|
                        0 <= c < col && 0 <= s < 2 ==> #[trigger] table.piece_keys[row as int][c][s]
                            == piece_key(row as int, c, s),
                decreases 19 - col,
            {
                let k0 = xorshift64(&mut rng);
                assert(k0 == key_seq((2 * (19 * row + col) + 1) as nat));
                table.piece_keys[row][col][0] = k0;
                let k1 = xorshift64(&mut rng);
                assert(k1 == key_seq((2 * (19 * row + col) + 2) as nat));
                table.piece_keys[row][col][1] = k1;
                assert(table.piece_keys[row as int][col as int][0] == piece_key(row as int, col as int, 0));
                assert(table.piece_keys[row as int][col as int][1] == piece_key(row as int, col as int, 1));
                col += 1;
            }
            assert(2 * (19 * row + col) == 2 * (19 * (row + 1)));
            row += 1;
        }
        let mut p: usize = 0;
        while p < 2
            invariant
                0 <= p <= 2,
                rng == key_seq((722 + 5 * p) as nat),
                forall|r: int, c: int, s: int|
                    0 <= r < 19 && 0 <= c < 19 && 0 <= s < 2 ==> #[trigger] table.piece_keys[r][c][s]
                        == piece_key(r, c, s),
                forall|q: int, k: int| 0 <= q < p && 0 <= k < 5 ==> #[trigger] table.capture_keys[q][k] == capture_key(q, k),
            decreases 2 - p,
        {
            let mut k: usize = 0;
            while k < 5
                invariant
                    0 <= p < 2,
                    0 <= k <= 5,
                    rng == key_seq((722 + 5 * p + k) as nat),
                    forall|r: int, c: int, s: int|
                        0 <= r < 19 && 0 <= c < 19 && 0 <= s < 2 ==> #[trigger] table.piece_keys[r][c][s]
                            == piece_key(r, c, s),
                    forall|q: int, j: int|
                        0 <= q < p && 0 <= j < 5 ==> #[trigger] table.capture_keys[q][j] == capture_key(q, j),
                    forall|j: int| 0 <= j < k ==> #[trigger] table.capture_keys[p as int][j] == capture_key(p as int, j),
                decreases 5 - k,
            {
                let key = xorshift64(&mut rng);
                assert(key == key_seq((722 + 5 * p + k + 1) as nat));
                table.capture_keys[p][k] = key;
                k += 1;
            }
            p += 1;
        }
        table.side_to_move = xorshift64(&mut rng);
        assert(table.side_to_move == key_seq(733));
        table
    }
}

/// The Zobrist keys of the search state.
pub fn zobrist() -> (z: ZobristTable)
    ensures
        z.canonical(),
{
    ZobristTable::new()
}

/// A position as the search sees it.
#[derive(Clone)]
pub struct SearchState {
    /// Row-major: `(r, c)` is `cells[19 * r + c]`.
    pub cells: [Cell; 361],
    pub black_captures: u8,
    pub white_captures: u8,
    pub is_black_turn: bool,
    pub last_move: Option<(u8, u8)>,
    pub zobrist_hash: u64,
    pub move_count: u16,
}

/// What `make_move` changed, so that `unmake_move` can put it back.
pub struct UndoInfo {
    pub placed: (u8, u8),
    /// The captured stones, two per captured pair.
    pub captured: [(u8, u8); 8],
    pub num_captured: u8,
    pub prev_hash: u64,
    pub prev_last_move: Option<(u8, u8)>,
    pub prev_captures: u8,
}

/// The Zobrist hash of a position: its stones, both capture counters and,
/// when White is to move, the side key.
pub open spec fn position_hash(g: Grid, black_caps: int, white_caps: int, is_black_turn: bool) -> u64 {
    let h = (stones_hash(g, 361) ^ capture_key(0, cap_slot(black_caps))) ^ capture_key(1, cap_slot(white_caps));
    if is_black_turn {
        h
    } else {
        h ^ side_key()
    }
}

/// The grid of a row-major cell array.
pub open spec fn flat_grid(cells: Seq<Cell>) -> Grid {
    |x: int, y: int| if on_board(x, y) { cells[19 * x + y] } else { Cell::Empty }
}

/// Writing one cell of the array changes the grid at that cell only.
pub proof fn lemma_flat_set(cells: Seq<Cell>, x0: int, y0: int, v: Cell)
    requires
        cells.len() == 361,
        on_board(x0, y0),
    ensures
        forall|x: int, y: int|
            #[trigger] flat_grid(cells.update(19 * x0 + y0, v))(x, y) == if x == x0 && y == y0 {
                v
            } else {
                flat_grid(cells)(x, y)
            },
{
    assert forall|x: int, y: int|
        #[trigger] flat_grid(cells.update(19 * x0 + y0, v))(x, y) == if x == x0 && y == y0 {
            v
        } else {
            flat_grid(cells)(x, y)
        } by {
        if on_board(x, y) && !(x == x0 && y == y0) {
            assert(19 * x + y != 19 * x0 + y0);
        }
    }
}

pub fn idx(row: usize, col: usize) -> (i: usize)
    requires
        row < 19,
        col < 19,
    ensures
        i == 19 * row + col,
        i < 361,
{
    row * 19 + col
}

pub fn in_bounds(r: i32, c: i32) -> (b: bool)
    ensures
        b == on_board(r as int, c as int),
{
    r >= 0 && r < 19 && c >= 0 && c < 19
}

impl SearchState {
    /// The board as a grid.
    pub open spec fn grid(self) -> Grid {
        flat_grid(self.cells@)
    }

    /// The colour to move.
    pub open spec fn to_move(self) -> Cell {
        if self.is_black_turn {
            Cell::Black
        } else {
            Cell::White
        }
    }

    /// Captured pairs of Black (`true`) or White (`false`).
    pub open spec fn caps_of(self, is_black: bool) -> u8 {
        if is_black {
            self.black_captures
        } else {
            self.white_captures
        }
    }

    /// The stored hash is the hash of the position.
    pub open spec fn hash_consistent(self) -> bool {
        self.zobrist_hash == position_hash(
            self.grid(),
            self.black_captures as int,
            self.white_captures as int,
            self.is_black_turn,
        )
    }

    /// A state for the position given by its cells, capture counters, side
    /// to move, last move and move counter; the hash is computed.
    pub fn from_position(
        cells: [Cell; 361],
        black_captures: u8,
        white_captures: u8,
        is_black_turn: bool,
        last_move: Option<(u8, u8)>,
        move_count: u16,
    ) -> (s: SearchState)
        ensures
            s.cells == cells,
            s.black_captures == black_captures,
            s.white_captures == white_captures,
            s.is_black_turn == is_black_turn,
            s.last_move == last_move,
            s.move_count == move_count,
            s.hash_consistent(),
    {
        let hash = Self::compute_full_hash(&cells, black_captures, white_captures, is_black_turn);
        SearchState {
            cells,
            black_captures,
            white_captures,
            is_black_turn,
            last_move,
            zobrist_hash: hash,
            move_count,
        }
    }

    /// The search state of a game: its stones, capture counters (as bytes),
    /// side to move, last move and move counter (as 16 bits); the hash is
    /// computed.
    pub fn from_gomoku(state: &Gomoku) -> (s: SearchState)
        requires
            state.wf(),
        ensures
            s.grid() == state.grid(),
            s.black_captures == state.black_captures as u8,
            s.white_captures == state.white_captures as u8,
            s.is_black_turn == (state.current_player == Stone::Black),
            s.last_move == match state.current_move {
                Some(m) => Some((m.0 as u8, m.1 as u8)),
                None => None,
            },
            s.move_count == state.move_count as u16,
            s.hash_consistent(),
    {
        let mut cells = [Cell::Empty; 361];
        let mut row: usize = 0;
        while row < 19
            invariant
                0 <= row <= 19,
                state.wf(),
                forall|x: int, y: int| 0 <= x < row && 0 <= y < 19 ==> #[trigger] cells[19 * x + y] == state.stone(x, y).cell(),
            decreases 19 - row,
        {
            let mut col: usize = 0;
            while col < 19
                invariant
                    0 <= row < 19,
                    0 <= col <= 19,
                    state.wf(),
                    forall|x: int, y: int|
                        0 <= x < row && 0 <= y < 19 ==> #[trigger] cells[19 * x + y] == state.stone(x, y).cell(),
                    forall|y: int| 0 <= y < col ==> #[trigger] cells[19 * row + y] == state.stone(row as int, y).cell(),
                decreases 19 - col,
            {
                let i = idx(row, col);
                cells[i] = Cell::of(state.board[row][col]);
                proof {
                    assert forall|x: int, y: int| 0 <= x < row && 0 <= y < 19 implies #[trigger] cells[19 * x + y]
                        == state.stone(x, y).cell() by {
                        assert(19 * x + y < 19 * row);
                    }
                }
                col += 1;
            }
            row += 1;
        }
        let black_caps = state.black_captures as u8;
        let white_caps = state.white_captures as u8;
        let is_black_turn = state.current_player == Stone::Black;
        let last_move = match state.current_move {
            Some((r, c)) => Some((r as u8, c as u8)),
            None => None,
        };
        let s = Self::from_position(cells, black_caps, white_caps, is_black_turn, last_move, state.move_count as u16);
        proof {
            assert forall|x: int, y: int| #[trigger] s.grid()(x, y) == state.grid()(x, y) by {
                if on_board(x, y) {
                    assert(cells[19 * x + y] == state.stone(x, y).cell());
                }
            }
            assert(s.grid() =~= state.grid());
        }
        s
    }

    /// The Zobrist hash of a position, from scratch.
    pub fn compute_full_hash(cells: &[Cell; 361], black_caps: u8, white_caps: u8, is_black_turn: bool) -> (h: u64)
        ensures
            h == position_hash(flat_grid(cells@), black_caps as int, white_caps as int, is_black_turn),
    {
        let z = zobrist();
        let ghost g = flat_grid(cells@);
        let mut hash: u64 = 0;
        let mut row: usize = 0;
        while row < 19
            invariant
                0 <= row <= 19,
                z.canonical(),
                g == flat_grid(cells@),
                hash == stones_hash(g, 19 * row),
            decreases 19 - row,
        {
            let mut col: usize = 0;
            while col < 19
                invariant
                    0 <= row < 19,
                    0 <= col <= 19,
                    z.canonical(),
                    g == flat_grid(cells@),
                    hash == stones_hash(g, 19 * row + col),
                decreases 19 - col,
            {
                let i = idx(row, col);
                let c = cells[i];
                assert((19 * row + col) / 19 == row && (19 * row + col) % 19 == col);
                assert(g(row as int, col as int) == c);
                if c != Cell::Empty {
                    hash = hash ^ z.piece_keys[row][col][c.zobrist_idx()];
                } else {
                    proof {
                        crate::keys::lemma_xor_zero(hash);
                    }
                }
                col += 1;
            }
            row += 1;
        }
        let bc: usize = if black_caps < 4 { black_caps as usize } else { 4 };
        let wc: usize = if white_caps < 4 { white_caps as usize } else { 4 };
        hash = hash ^ z.capture_keys[0][bc];
        hash = hash ^ z.capture_keys[1][wc];
        if !is_black_turn {
            hash = hash ^ z.side_to_move;
        }
        hash
    }

    pub fn current_player(&self) -> (p: Cell)
        ensures
            p == self.to_move(),
    {
        if self.is_black_turn {
            Cell::Black
        } else {
            Cell::White
        }
    }

    pub fn opponent_player(&self) -> (p: Cell)
        ensures
            p == self.to_move().other(),
    {
        if self.is_black_turn {
            Cell::White
        } else {
            Cell::Black
        }
    }

    pub fn get(&self, r: i32, c: i32) -> (x: Cell)
        requires
            on_board(r as int, c as int),
        ensures
            x == self.grid()(r as int, c as int),
    {
        self.cells[idx(r as usize, c as usize)]
    }

    /// Captured pairs of Black (`true`) or White (`false`).
    pub fn captures(&self, is_black: bool) -> (n: u8)
        ensures
            n == self.caps_of(is_black),
    {
        if is_black {
            self.black_captures
        } else {
            self.white_captures
        }
    }
}

} // verus!
