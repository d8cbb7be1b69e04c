//! A five of the side to move wins the search state only when no capture
//! can break it.
use vstd::prelude::*;
use crate::search_board::{on_board, Cell, Grid};
use crate::search_board::recognize::scan_dir;
use crate::search_board::rules::line_step;
use crate::search_state::SearchState;
use crate::search_state::rules::{at_risk, has_safe_five_window, safe_five_at, window_safe, winner};

verus! {

/// Five stones of `p` in a row from `(r, c)` along one of the four line
/// steps, none of which the opponent could capture.
pub open spec fn uncapturable_line_of_five(g: Grid, r: int, c: int, dr: int, dc: int, p: Cell) -> bool {
    &&& line_step(dr, dc)
    &&& forall|i: int|
        0 <= i < 5 ==> on_board(r + dr * i, c + dc * i) && g(r + dr * i, c + dc * i) == p && !#[trigger] at_risk(
            g,
            r + dr * i,
            c + dc * i,
            p,
        )
}

/// A safe window of five is five uncapturable stones in a row.
proof fn lemma_safe_window_is_line(g: Grid, r: int, c: int, p: Cell, d: int)
    requires
        0 <= d < 4,
        safe_five_at(g, r, c, p, d),
    ensures
        uncapturable_line_of_five(g, r, c, scan_dir(d).0, scan_dir(d).1, p),
{
    let dr = scan_dir(d).0;
    let dc = scan_dir(d).1;
    assert(window_safe(g, r, c, dr, dc, p, 5));
    assert(window_safe(g, r, c, dr, dc, p, 4));
    assert(window_safe(g, r, c, dr, dc, p, 3));
    assert(window_safe(g, r, c, dr, dc, p, 2));
    assert(window_safe(g, r, c, dr, dc, p, 1));
    assert forall|i: int| 0 <= i < 5 implies on_board(r + dr * i, c + dc * i) && g(r + dr * i, c + dc * i) == p
        && !#[trigger] at_risk(g, r + dr * i, c + dc * i, p) by {
        assert(window_safe(g, r, c, dr, dc, p, i + 1));
    }
}

/// A five wins for the side to move only if no capture can break it: when
/// the side to move has won without holding five captured pairs, it holds
/// five stones in a row none of which the opponent could capture.
pub proof fn lemma_state_five_win_is_unbreakable(s: SearchState)
    requires
        winner(s) == Some(s.is_black_turn),
        s.caps_of(s.is_black_turn) < 5,
    ensures
        exists|r: int, c: int, dr: int, dc: int| #[trigger] uncapturable_line_of_five(s.grid(), r, c, dr, dc, s.to_move()),
{
    let g = s.grid();
    let p = s.to_move();
    assert(has_safe_five_window(g, p));
    let (r, c, d) = choose|r: int, c: int, d: int| on_board(r, c) && 0 <= d < 4 && #[trigger] safe_five_at(g, r, c, p, d);
    lemma_safe_window_is_line(g, r, c, p, d);
    assert(uncapturable_line_of_five(g, r, c, scan_dir(d).0, scan_dir(d).1, p));
}

/// A five the opponent can break by a capture does not win the search
/// state: with no line of five uncapturable stones of the side to move and
/// fewer than five captured pairs, the side to move has not won.
pub proof fn lemma_state_breakable_five_does_not_win(s: SearchState)
    requires
        s.caps_of(s.is_black_turn) < 5,
        forall|r: int, c: int, dr: int, dc: int| !#[trigger] uncapturable_line_of_five(s.grid(), r, c, dr, dc, s.to_move()),
    ensures
        winner(s) != Some(s.is_black_turn),
{
    if winner(s) == Some(s.is_black_turn) {
        lemma_state_five_win_is_unbreakable(s);
    }
}

} // verus!
