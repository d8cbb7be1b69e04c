//! Playing and taking back moves on the search state.
use vstd::prelude::*;
use crate::search_board::{on_board, Cell, Grid};
use crate::search_board::moves::{
    after_grid, all_dir, all_dir_at, capture_in, captured_seq, captures_before, cleared, hash_caps, seed_key, stones_hash,
    was_captured, lemma_after_stones, lemma_captured_seq_cleared, lemma_captures_mono, lemma_cleared_cells,
    lemma_hash_caps_xor, lemma_ray_untouched, lemma_was_captured_prefix,
};
use crate::search_state::{
    cap_slot, capture_key, flat_grid, idx, in_bounds, lemma_flat_set, position_hash, side_key, zobrist,
    SearchState, UndoInfo,
};

verus! {

/// Recorded stone coordinates as `usize` pairs.
pub open spec fn widen(s: Seq<(u8, u8)>) -> Seq<(usize, usize)> {
    s.map_values(|p: (u8, u8)| (p.0 as usize, p.1 as usize))
}

/// `new` and `info` are the state and undo record after the side to move
/// of `old` plays `(r, c)`.
pub open spec fn made(old: SearchState, r: int, c: int, new: SearchState, info: UndoInfo) -> bool {
    let g = old.grid();
    let me = old.to_move();
    let opp = me.other();
    let k = captures_before(g, r, c, me, opp, 8);
    let p: int = if old.is_black_turn { 0 } else { 1 };
    let before = old.caps_of(old.is_black_turn) as int;
    let h1 = hash_caps(old.zobrist_hash ^ seed_key(19 * r + c, me.slot() - 1), g, r, c, me, opp, 8);
    let h2 = if k > 0 {
        (h1 ^ capture_key(p, cap_slot(before))) ^ capture_key(p, cap_slot(before + k))
    } else {
        h1
    };
    &&& new.grid() == after_grid(g, r, c, me, opp, 8)
    &&& new.is_black_turn == !old.is_black_turn
    &&& new.caps_of(old.is_black_turn) == before + k
    &&& new.caps_of(!old.is_black_turn) == old.caps_of(!old.is_black_turn)
    &&& new.zobrist_hash == h2 ^ side_key()
    &&& new.last_move == Some((r as u8, c as u8))
    &&& new.move_count == old.move_count + 1
    &&& info.placed == (r as u8, c as u8)
    &&& info.num_captured == 2 * k
    &&& widen(info.captured@).subrange(0, 2 * k) == captured_seq(g, r, c, me, opp, 8)
    &&& info.prev_hash == old.zobrist_hash
    &&& info.prev_last_move == old.last_move
    &&& info.prev_captures == before
}

/// The board after `unmake_move` with `info`: the captured stones given back
/// to `col`, then the placed stone lifted.
pub open spec fn restored_grid(g: Grid, info: UndoInfo, col: Cell) -> Grid {
    |x: int, y: int|
        if x == info.placed.0 && y == info.placed.1 {
            Cell::Empty
        } else if was_captured(widen(info.captured@), info.num_captured as int, x, y) && on_board(x, y) {
            col
        } else {
            g(x, y)
        }
}

/// `new` is `old` after `unmake_move(info)`.
pub open spec fn unmade(old: SearchState, info: UndoInfo, new: SearchState) -> bool {
    &&& new.is_black_turn == !old.is_black_turn
    &&& new.caps_of(new.is_black_turn) == info.prev_captures
    &&& new.caps_of(old.is_black_turn) == old.caps_of(old.is_black_turn)
    &&& new.grid() == restored_grid(old.grid(), info, old.to_move())
    &&& new.zobrist_hash == info.prev_hash
    &&& new.last_move == info.prev_last_move
    &&& new.move_count == old.move_count - 1
}

/// Two states with the same grid have the same cells.
pub proof fn lemma_grid_cells(a: SearchState, b: SearchState)
    requires
        forall|x: int, y: int| on_board(x, y) ==> #[trigger] a.grid()(x, y) == b.grid()(x, y),
    ensures
        a.cells == b.cells,
{
    assert forall|i: int| 0 <= i < 361 implies a.cells[i] == b.cells[i] by {
        let x = i / 19;
        let y = i % 19;
        assert(19 * x + y == i);
        assert(a.grid()(x, y) == b.grid()(x, y));
    }
    assert(a.cells =~= b.cells);
}

/// Clearing the pair captured in direction `d` moves the board from the
/// captures before `d` to those up to `d`.
proof fn lemma_capture_grid(g: Grid, r: int, c: int, me: Cell, opp: Cell, d: int, gd: Grid, gn: Grid)
    requires
        0 <= d < 8,
        gd == after_grid(g, r, c, me, opp, d),
        capture_in(g, r, c, d, me, opp),
        forall|x: int, y: int|
            #[trigger] gn(x, y) == if (x == r + all_dir(d).0 && y == c + all_dir(d).1) || (x == r + 2 * all_dir(d).0
                && y == c + 2 * all_dir(d).1) {
                Cell::Empty
            } else {
                gd(x, y)
            },
    ensures
        gn == after_grid(g, r, c, me, opp, d + 1),
{
    assert forall|x: int, y: int| #[trigger] gn(x, y) == after_grid(g, r, c, me, opp, d + 1)(x, y) by {
        if (x == r + all_dir(d).0 && y == c + all_dir(d).1) || (x == r + 2 * all_dir(d).0 && y == c + 2
            * all_dir(d).1) {
            assert(cleared(g, r, c, me, opp, d + 1, x, y));
        }
    }
    assert(gn =~= after_grid(g, r, c, me, opp, d + 1));
}

impl SearchState {
    /// Play `(row, col)` for the side to move: place the stone, capture every
    /// bracketed pair, update the capture counter, switch sides, and keep the
    /// hash up to date.
    pub fn make_move(&mut self, row: u8, col: u8) -> (info: UndoInfo)
        requires
            row < 19,
            col < 19,
            old(self).move_count < u16::MAX,
            captures_before(old(self).grid(), row as int, col as int, old(self).to_move(), old(self).to_move().other(), 8)
                <= 4,
            old(self).caps_of(old(self).is_black_turn) + captures_before(
                old(self).grid(),
                row as int,
                col as int,
                old(self).to_move(),
                old(self).to_move().other(),
                8,
            ) <= 255,
        ensures
            made(*old(self), row as int, col as int, *final(self), info),
            info.num_captured <= 8,
            forall|i: int|
                0 <= i < info.num_captured ==> #[trigger] info.captured@[i].0 < 19 && info.captured@[i].1 < 19,
    {
        let z = zobrist();
        let ghost g = self.grid();
        let r = row as usize;
        let c = col as usize;
        let me = self.current_player();
        let opp = self.opponent_player();
        let is_black = self.is_black_turn;
        let ghost k8 = captures_before(g, r as int, c as int, me, opp, 8);

        let prev_hash = self.zobrist_hash;
        let prev_last_move = self.last_move;
        let prev_captures = self.captures(is_black);

        // Place the stone.
        let ghost c0 = self.cells@;
        self.cells[idx(r, c)] = me;
        proof {
            lemma_flat_set(c0, r as int, c as int, me);
        }
        self.zobrist_hash = self.zobrist_hash ^ z.piece_keys[r][c][me.zobrist_idx()];
        assert(self.grid() =~= after_grid(g, r as int, c as int, me, opp, 0));

        let mut captured = [(0u8, 0u8); 8];
        let mut num_captured: u8 = 0;
        let ri = row as i32;
        let ci = col as i32;
        let opp_zi = opp.zobrist_idx();
        proof {
            lemma_captures_mono(g, r as int, c as int, me, opp, 0, 8);
        }
        let mut d: usize = 0;
        while d < 8
            invariant
                0 <= d <= 8,
                r < 19,
                c < 19,
                ri == r,
                ci == c,
                me != Cell::Empty,
                opp == me.other(),
                opp_zi as int == opp.slot() - 1,
                z.canonical(),
                self.grid() == after_grid(g, r as int, c as int, me, opp, d as int),
                num_captured == 2 * captures_before(g, r as int, c as int, me, opp, d as int),
                forall|i: int| 0 <= i < num_captured ==> #[trigger] captured@[i].0 < 19 && captured@[i].1 < 19,
                0 <= captures_before(g, r as int, c as int, me, opp, d as int) <= d,
                captures_before(g, r as int, c as int, me, opp, d as int) <= k8,
                k8 == captures_before(g, r as int, c as int, me, opp, 8),
                k8 <= 4,
                widen(captured@).subrange(0, num_captured as int) == captured_seq(
                    g,
                    r as int,
                    c as int,
                    me,
                    opp,
                    d as int,
                ),
                self.zobrist_hash == hash_caps(
                    prev_hash ^ seed_key(19 * r + c, me.slot() - 1),
                    g,
                    r as int,
                    c as int,
                    me,
                    opp,
                    d as int,
                ),
                self.black_captures == old(self).black_captures,
                self.white_captures == old(self).white_captures,
                self.is_black_turn == old(self).is_black_turn,
                self.last_move == old(self).last_move,
                self.move_count == old(self).move_count,
            decreases 8 - d,
        {
            let (dx, dy) = all_dir_at(d);
            let r1 = ri + dx;
            let c1 = ci + dy;
            let r2 = ri + 2 * dx;
            let c2 = ci + 2 * dy;
            let r3 = ri + 3 * dx;
            let c3 = ci + 3 * dy;
            let ghost gd = self.grid();
            proof {
                lemma_captures_mono(g, r as int, c as int, me, opp, d as int + 1, 8);
                lemma_ray_untouched(g, r as int, c as int, me, opp, d as int, 1);
                lemma_ray_untouched(g, r as int, c as int, me, opp, d as int, 2);
                lemma_ray_untouched(g, r as int, c as int, me, opp, d as int, 3);
            }
            if in_bounds(r3, c3) && in_bounds(r2, c2) && in_bounds(r1, c1) && self.get(r1, c1) == opp
                && self.get(r2, c2) == opp && self.get(r3, c3) == me {
                assert(capture_in(g, r as int, c as int, d as int, me, opp));
                let ur1 = r1 as usize;
                let uc1 = c1 as usize;
                let ur2 = r2 as usize;
                let uc2 = c2 as usize;
                assert(!(ur1 == ur2 && uc1 == uc2));
                let ghost cs0 = self.cells@;
                self.cells[idx(ur1, uc1)] = Cell::Empty;
                proof {
                    lemma_flat_set(cs0, ur1 as int, uc1 as int, Cell::Empty);
                }
                let ghost cs1 = self.cells@;
                self.cells[idx(ur2, uc2)] = Cell::Empty;
                proof {
                    lemma_flat_set(cs1, ur2 as int, uc2 as int, Cell::Empty);
                    lemma_capture_grid(g, r as int, c as int, me, opp, d as int, gd, self.grid());
                }
                self.zobrist_hash = self.zobrist_hash ^ z.piece_keys[ur1][uc1][opp_zi];
                self.zobrist_hash = self.zobrist_hash ^ z.piece_keys[ur2][uc2][opp_zi];
                captured[num_captured as usize] = (r1 as u8, c1 as u8);
                captured[num_captured as usize + 1] = (r2 as u8, c2 as u8);
                num_captured += 2;
                proof {
                    assert(widen(captured@).subrange(0, num_captured as int) =~= captured_seq(
                        g,
                        r as int,
                        c as int,
                        me,
                        opp,
                        d + 1,
                    ));
                }
            } else {
                assert(!capture_in(g, r as int, c as int, d as int, me, opp));
                assert(self.grid() =~= after_grid(g, r as int, c as int, me, opp, d + 1));
            }
            d += 1;
        }

        // Update the capture counter and its key.
        let cap_pairs = num_captured / 2;
        if cap_pairs > 0 {
            let held = self.captures(is_black);
            let old_cap: usize = if held < 4 { held as usize } else { 4 };
            let player_idx: usize = if is_black { 0 } else { 1 };
            self.zobrist_hash = self.zobrist_hash ^ z.capture_keys[player_idx][old_cap];
            if is_black {
                self.black_captures = self.black_captures + cap_pairs;
            } else {
                self.white_captures = self.white_captures + cap_pairs;
            }
            let now = self.captures(is_black);
            let new_cap: usize = if now < 4 { now as usize } else { 4 };
            self.zobrist_hash = self.zobrist_hash ^ z.capture_keys[player_idx][new_cap];
        }

        // Switch sides.
        self.zobrist_hash = self.zobrist_hash ^ z.side_to_move;
        self.is_black_turn = !self.is_black_turn;
        self.last_move = Some((row, col));
        self.move_count = self.move_count + 1;

        UndoInfo { placed: (row, col), captured, num_captured, prev_hash, prev_last_move, prev_captures }
    }

    /// Take back the move recorded in `undo`.
    pub fn unmake_move(&mut self, undo: UndoInfo)
        requires
            old(self).move_count >= 1,
            undo.placed.0 < 19,
            undo.placed.1 < 19,
            undo.num_captured <= 8,
            forall|i: int| 0 <= i < undo.num_captured ==> #[trigger] undo.captured@[i].0 < 19 && undo.captured@[i].1 < 19,
        ensures
            unmade(*old(self), undo, *final(self)),
    {
        let ghost g = self.grid();
        let ghost col = self.to_move();
        self.is_black_turn = !self.is_black_turn;
        let is_black = self.is_black_turn;
        let opp = self.opponent_player();

        if is_black {
            self.black_captures = undo.prev_captures;
        } else {
            self.white_captures = undo.prev_captures;
        }

        let mut i: usize = 0;
        while i < undo.num_captured as usize
            invariant
                0 <= i <= undo.num_captured,
                undo.num_captured <= 8,
                forall|j: int| 0 <= j < undo.num_captured ==> #[trigger] undo.captured@[j].0 < 19 && undo.captured@[j].1 < 19,
                opp == col,
                self.is_black_turn == !old(self).is_black_turn,
                self.caps_of(self.is_black_turn) == undo.prev_captures,
                self.caps_of(old(self).is_black_turn) == old(self).caps_of(old(self).is_black_turn),
                self.zobrist_hash == old(self).zobrist_hash,
                self.last_move == old(self).last_move,
                self.move_count == old(self).move_count,
                forall|x: int, y: int|
                    #[trigger] self.grid()(x, y) == if was_captured(widen(undo.captured@), i as int, x, y) && on_board(x, y) {
                        col
                    } else {
                        g(x, y)
                    },
            decreases undo.num_captured - i,
        {
            let (cr, cc) = undo.captured[i];
            let ghost gi = self.grid();
            let ghost cs = self.cells@;
            self.cells[idx(cr as usize, cc as usize)] = opp;
            proof {
                lemma_flat_set(cs, cr as int, cc as int, opp);
                assert(widen(undo.captured@)[i as int] == (cr as usize, cc as usize));
                assert forall|x: int, y: int| #[trigger] self.grid()(x, y) == if was_captured(widen(undo.captured@), i + 1, x, y)
                    && on_board(x, y) {
                    col
                } else {
                    g(x, y)
                } by {
                    if !(x == cr && y == cc) {
                        assert(self.grid()(x, y) == gi(x, y));
                    }
                }
            }
            i += 1;
        }

        let (pr, pc) = undo.placed;
        let ghost gb = self.grid();
        let ghost cb = self.cells@;
        self.cells[idx(pr as usize, pc as usize)] = Cell::Empty;
        proof {
            lemma_flat_set(cb, pr as int, pc as int, Cell::Empty);
            assert forall|x: int, y: int| #[trigger] self.grid()(x, y) == restored_grid(g, undo, col)(x, y) by {
                if !(x == pr && y == pc) {
                    assert(self.grid()(x, y) == gb(x, y));
                }
            }
            assert(self.grid() =~= restored_grid(g, undo, col));
        }

        self.zobrist_hash = undo.prev_hash;
        self.last_move = undo.prev_last_move;
        self.move_count = self.move_count - 1;
    }
}

/// Taking a move back restores the state it was played on: cells, capture
/// counters, side to move, hash, last move and move counter.
pub proof fn lemma_unmake_restores_make(
    before: SearchState,
    r: int,
    c: int,
    mid: SearchState,
    info: UndoInfo,
    after: SearchState,
)
    requires
        on_board(r, c),
        before.grid()(r, c) == Cell::Empty,
        info.num_captured <= 8,
        made(before, r, c, mid, info),
        unmade(mid, info, after),
    ensures
        after == before,
{
    let g = before.grid();
    let me = before.to_move();
    let opp = me.other();
    let k = captures_before(g, r, c, me, opp, 8);
    let caps = captured_seq(g, r, c, me, opp, 8);
    assert forall|x: int, y: int| on_board(x, y) implies #[trigger] after.grid()(x, y) == before.grid()(x, y) by {
        lemma_captured_seq_cleared(g, r, c, me, opp, 8, x, y);
        assert(caps.subrange(0, 2 * k) =~= caps);
        lemma_was_captured_prefix(widen(info.captured@), caps, 2 * k, x, y);
        if cleared(g, r, c, me, opp, 8, x, y) {
            lemma_cleared_cells(g, r, c, me, opp, 8, x, y);
        }
    }
    lemma_grid_cells(after, before);
}

/// Playing a move on an empty cell of a state whose hash is the hash of its
/// position gives a state whose hash is again the hash of its position.
pub proof fn lemma_make_move_keeps_hash(before: SearchState, r: int, c: int, mid: SearchState, info: UndoInfo)
    requires
        on_board(r, c),
        before.grid()(r, c) == Cell::Empty,
        before.hash_consistent(),
        made(before, r, c, mid, info),
    ensures
        mid.hash_consistent(),
{
    let g = before.grid();
    let me = before.to_move();
    let opp = me.other();
    let k = captures_before(g, r, c, me, opp, 8);
    lemma_captures_mono(g, r, c, me, opp, 0, 8);
    lemma_after_stones(g, r, c, me, opp, 8);
    let key = seed_key(19 * r + c, me.slot() - 1);
    lemma_hash_caps_xor(before.zobrist_hash ^ key, g, r, c, me, opp, 8);
    lemma_hash_caps_xor(stones_hash(g, 361) ^ key, g, r, c, me, opp, 8);
    let s = stones_hash(g, 361);
    let e = hash_caps(0, g, r, c, me, opp, 8);
    let t = side_key();
    let bc = before.black_captures as int;
    let wc = before.white_captures as int;
    let a0 = capture_key(0, cap_slot(bc));
    let a1 = capture_key(1, cap_slot(wc));
    if before.is_black_turn {
        let a0n = capture_key(0, cap_slot(bc + k));
        if k > 0 {
            assert((((((((s ^ a0) ^ a1) ^ key) ^ e) ^ a0) ^ a0n) ^ t) == (((((s ^ key) ^ e) ^ a0n) ^ a1) ^ t))
                by (bit_vector);
        } else {
            assert(((((s ^ a0) ^ a1) ^ key) ^ e) ^ t == (((((s ^ key) ^ e) ^ a0) ^ a1) ^ t)) by (bit_vector);
        }
    } else {
        let a1n = capture_key(1, cap_slot(wc + k));
        if k > 0 {
            assert(((((((((s ^ a0) ^ a1) ^ t) ^ key) ^ e) ^ a1) ^ a1n) ^ t) == ((((s ^ key) ^ e) ^ a0) ^ a1n))
                by (bit_vector);
        } else {
            assert((((((s ^ a0) ^ a1) ^ t) ^ key) ^ e) ^ t == ((((s ^ key) ^ e) ^ a0) ^ a1)) by (bit_vector);
        }
    }
}

} // verus!
