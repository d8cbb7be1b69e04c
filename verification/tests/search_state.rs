use lib_gomoku::position_name;
use lib_gomoku::search_state::{zobrist, Cell, SearchState};

fn state_with(stones: &[(usize, usize, Cell)], black_to_move: bool) -> SearchState {
    let mut cells = [Cell::Empty; 361];
    for &(r, c, s) in stones {
        cells[r * 19 + c] = s;
    }
    SearchState::from_position(cells, 0, 0, black_to_move, None, stones.len() as u16)
}

fn empty_state() -> SearchState {
    state_with(&[], true)
}

fn xorshift(x: &mut u64) -> u64 {
    *x ^= *x << 13;
    *x ^= *x >> 7;
    *x ^= *x << 17;
    *x
}

#[test]
fn zobrist_keys_follow_the_generator() {
    let z = zobrist();
    let mut rng: u64 = 0x12345678_DEADBEEF;
    assert_eq!(z.piece_keys[0][0][0], xorshift(&mut rng));
    assert_eq!(z.piece_keys[0][0][1], xorshift(&mut rng));
    assert_eq!(z.piece_keys[0][1][0], xorshift(&mut rng));
    let mut rng: u64 = 0x12345678_DEADBEEF;
    for _ in 0..722 {
        xorshift(&mut rng);
    }
    assert_eq!(z.capture_keys[0][0], xorshift(&mut rng));
    for _ in 0..9 {
        xorshift(&mut rng);
    }
    assert_eq!(z.side_to_move, xorshift(&mut rng));
}

#[test]
fn opponent_swaps_colours() {
    assert_eq!(Cell::Black.opponent(), Cell::White);
    assert_eq!(Cell::White.opponent(), Cell::Black);
    assert_eq!(Cell::Empty.opponent(), Cell::Empty);
}

#[test]
fn players_follow_the_turn() {
    let s = empty_state();
    assert_eq!(s.current_player(), Cell::Black);
    assert_eq!(s.opponent_player(), Cell::White);
    let w = state_with(&[], false);
    assert_eq!(w.current_player(), Cell::White);
    assert_eq!(w.opponent_player(), Cell::Black);
}

#[test]
fn make_move_places_captures_and_switches() {
    // Black brackets the white pair (5,6)-(5,7) by playing (5,8).
    let mut s = state_with(
        &[(5, 5, Cell::Black), (5, 6, Cell::White), (5, 7, Cell::White)],
        true,
    );
    let undo = s.make_move(5, 8);
    assert_eq!(s.cells[5 * 19 + 8], Cell::Black);
    assert_eq!(s.cells[5 * 19 + 6], Cell::Empty);
    assert_eq!(s.cells[5 * 19 + 7], Cell::Empty);
    assert_eq!(s.black_captures, 1);
    assert_eq!(s.white_captures, 0);
    assert!(!s.is_black_turn);
    assert_eq!(s.last_move, Some((5, 8)));
    assert_eq!(s.move_count, 4);
    assert_eq!(undo.num_captured, 2);
    assert_eq!(undo.placed, (5, 8));
    assert_eq!(&undo.captured[..2], &[(5, 7), (5, 6)]);
}

#[test]
fn make_move_keeps_the_hash_of_the_position() {
    let mut s = state_with(
        &[(5, 5, Cell::Black), (5, 6, Cell::White), (5, 7, Cell::White), (3, 3, Cell::White)],
        true,
    );
    s.make_move(5, 8);
    let fresh = SearchState::from_position(
        s.cells,
        s.black_captures,
        s.white_captures,
        s.is_black_turn,
        s.last_move,
        s.move_count,
    );
    assert_eq!(s.zobrist_hash, fresh.zobrist_hash);
    s.make_move(10, 10);
    let fresh = SearchState::from_position(
        s.cells,
        s.black_captures,
        s.white_captures,
        s.is_black_turn,
        s.last_move,
        s.move_count,
    );
    assert_eq!(s.zobrist_hash, fresh.zobrist_hash);
}

#[test]
fn unmake_move_restores_the_state() {
    let before = state_with(
        &[(5, 5, Cell::Black), (5, 6, Cell::White), (5, 7, Cell::White), (6, 8, Cell::White), (7, 8, Cell::White), (8, 8, Cell::Black)],
        true,
    );
    let mut s = before.clone();
    let undo = s.make_move(5, 8);
    assert_eq!(s.black_captures, 2);
    s.unmake_move(undo);
    assert_eq!(s.cells, before.cells);
    assert_eq!(s.black_captures, before.black_captures);
    assert_eq!(s.white_captures, before.white_captures);
    assert_eq!(s.is_black_turn, before.is_black_turn);
    assert_eq!(s.last_move, before.last_move);
    assert_eq!(s.zobrist_hash, before.zobrist_hash);
    assert_eq!(s.move_count, before.move_count);
}

#[test]
fn captures_reads_each_colour() {
    let mut s = empty_state();
    s.black_captures = 3;
    s.white_captures = 1;
    assert_eq!(s.captures(true), 3);
    assert_eq!(s.captures(false), 1);
}

#[test]
fn valid_moves_exclude_occupied_off_board_and_double_threes() {
    let s = state_with(&[(9, 9, Cell::Black)], true);
    assert!(!s.is_valid_move(9, 9));
    assert!(!s.is_valid_move(-1, 3));
    assert!(!s.is_valid_move(3, 19));
    assert!(s.is_valid_move(9, 10));
    // Two open twos crossing at (9,9): playing there makes two free threes.
    let d = state_with(
        &[(9, 10, Cell::Black), (9, 11, Cell::Black), (10, 9, Cell::Black), (11, 9, Cell::Black)],
        true,
    );
    assert!(!d.is_valid_move(9, 9));
    // For White the same cell is fine.
    let w = state_with(
        &[(9, 10, Cell::Black), (9, 11, Cell::Black), (10, 9, Cell::Black), (11, 9, Cell::Black)],
        false,
    );
    assert!(w.is_valid_move(9, 9));
}

#[test]
fn winner_by_five_from_the_last_move() {
    let mut s = state_with(
        &[(9, 5, Cell::Black), (9, 6, Cell::Black), (9, 7, Cell::Black), (9, 8, Cell::Black)],
        true,
    );
    assert_eq!(s.get_winner(), None);
    s.make_move(9, 9);
    assert_eq!(s.get_winner(), Some(true));
    assert_eq!(s.terminal_value(), Some(100_000));
}

#[test]
fn winner_by_captures_of_the_side_to_move() {
    let mut s = state_with(&[(0, 0, Cell::White)], true);
    s.last_move = Some((0, 0));
    s.black_captures = 5;
    assert_eq!(s.get_winner(), Some(true));
    s.black_captures = 4;
    assert_eq!(s.get_winner(), None);
    assert_eq!(s.terminal_value(), None);
}

#[test]
fn uncapturable_five_of_the_side_to_move_wins() {
    let mut s = state_with(
        &[(3, 0, Cell::White), (3, 1, Cell::White), (3, 2, Cell::White), (3, 3, Cell::White), (3, 4, Cell::White), (10, 10, Cell::Black)],
        false,
    );
    s.last_move = Some((10, 10));
    assert!(s.has_uncapturable_five(Cell::White));
    assert_eq!(s.get_winner(), Some(false));
    assert_eq!(s.terminal_value(), Some(-100_000));
    // A black stone above (3,2) and an empty cell below make (2..3,2) no pair;
    // a white stone at (4,2) with black at (2,2) and (5,2) empty is capturable.
    s.cells[4 * 19 + 2] = Cell::White;
    s.cells[2 * 19 + 2] = Cell::Black;
    assert!(s.stone_in_capturable_pair(3, 2, Cell::White));
    assert!(!s.has_uncapturable_five(Cell::White));
}

#[test]
fn full_board_is_a_draw() {
    let mut s = empty_state();
    assert!(!s.is_draw());
    for i in 0..361 {
        s.cells[i] = if (i / 2) % 2 == 0 { Cell::Black } else { Cell::White };
    }
    assert!(s.is_draw());
}

#[test]
fn heuristic_of_empty_and_open_two() {
    assert_eq!(empty_state().heuristic_eval(), 0);
    let s = state_with(&[(9, 9, Cell::Black), (9, 10, Cell::Black)], false);
    assert_eq!(s.heuristic_eval(), 100);
    let w = state_with(&[(9, 9, Cell::White), (9, 10, Cell::White)], true);
    assert_eq!(w.heuristic_eval(), -100);
}

#[test]
fn heuristic_counts_captures_and_vulnerable_pairs() {
    // A black pair with a white stone on one side and an empty cell on the
    // other is vulnerable: 2 000 with no white captures.
    let mut s = state_with(&[(9, 8, Cell::White), (9, 9, Cell::Black), (9, 10, Cell::Black)], true);
    // Black run of two is not open (white on the left): no open two.
    assert_eq!(s.heuristic_eval(), -2_000);
    s.black_captures = 2;
    assert_eq!(s.heuristic_eval(), 10_000 - 2_000);
}

#[test]
fn swapping_the_colours_negates_the_evaluation() {
    let stones = [
        (9, 8, Cell::White),
        (9, 9, Cell::Black),
        (9, 10, Cell::Black),
        (10, 10, Cell::Black),
        (11, 11, Cell::Black),
        (8, 12, Cell::White),
        (7, 12, Cell::White),
        (6, 12, Cell::White),
        (4, 4, Cell::White),
        (4, 6, Cell::White),
        (4, 7, Cell::White),
    ];
    let mut s = state_with(&stones, true);
    s.black_captures = 1;
    s.white_captures = 3;
    let swapped: Vec<(usize, usize, Cell)> = stones.iter().map(|&(r, c, x)| (r, c, x.opponent())).collect();
    let mut t = state_with(&swapped, false);
    t.black_captures = 3;
    t.white_captures = 1;
    let v = s.heuristic_eval();
    assert_ne!(v, 0);
    assert_eq!(t.heuristic_eval(), -v);
    // The side to move plays no part.
    let mut u = state_with(&stones, false);
    u.black_captures = 1;
    u.white_captures = 3;
    assert_eq!(u.heuristic_eval(), v);
}

#[test]
fn score_move_quiet_values() {
    let s = state_with(&[(9, 9, Cell::Black)], false);
    assert_eq!(s.score_move(9, 10), 625);
    assert_eq!(s.score_move(8, 8), 600);
}

#[test]
fn score_move_prefers_wins_and_blocks() {
    let s = state_with(
        &[(9, 5, Cell::Black), (9, 6, Cell::Black), (9, 7, Cell::Black), (9, 8, Cell::Black)],
        true,
    );
    assert_eq!(s.score_move(9, 9), 900_000);
    let w = state_with(
        &[(9, 5, Cell::Black), (9, 6, Cell::Black), (9, 7, Cell::Black), (9, 8, Cell::Black)],
        false,
    );
    assert_eq!(w.score_move(9, 9), 895_000);
}

#[test]
fn count_line_both_through_a_cell() {
    let s = state_with(&[(9, 9, Cell::Black)], false);
    // White to move at (9,10) along the row.
    let r = s.count_line_both(Cell::White, Cell::Black, 9, 10, 0, 1);
    assert_eq!(r, (1, 1, false, 1, 2, 2, false, 2));
}

#[test]
fn evaluate_position_of_a_line_of_two() {
    let s = state_with(&[(9, 9, Cell::Black)], true);
    assert_eq!(s.evaluate_position(9, 10, Cell::Black), 100);
    let c = state_with(&[(5, 6, Cell::White), (5, 7, Cell::White), (5, 8, Cell::Black)], true);
    assert_eq!(c.evaluate_position(5, 5, Cell::Black), 50_000);
    // Far off the board no line and no capture counts.
    assert_eq!(s.evaluate_position(500, 9, Cell::Black), 0);
    // Next to two stones on the edge row: a line of three.
    let e = state_with(&[(0, 0, Cell::Black), (0, 1, Cell::Black)], true);
    assert_eq!(e.evaluate_position(0, 2, Cell::Black), 1_000);
}

#[test]
fn candidates_on_an_empty_board_are_the_centre() {
    let s = empty_state();
    assert_eq!(s.get_candidate_moves(2), vec![(9, 9)]);
    assert_eq!(s.get_candidate_moves_scored(2), vec![(9, 9, 0)]);
}

#[test]
fn candidates_are_sorted_by_value_then_cell() {
    let s = state_with(&[(9, 9, Cell::Black)], false);
    let scored = s.get_candidate_moves_scored(1);
    assert_eq!(
        scored,
        vec![
            (8, 9, 625),
            (9, 8, 625),
            (9, 10, 625),
            (10, 9, 625),
            (8, 8, 600),
            (8, 10, 600),
            (10, 8, 600),
            (10, 10, 600),
        ]
    );
    let plain = s.get_candidate_moves(1);
    assert_eq!(plain, scored.iter().map(|&(r, c, _)| (r, c)).collect::<Vec<_>>());
}

#[test]
fn position_names() {
    assert_eq!(position_name(&(3, 2)), "c4");
    assert_eq!(position_name(&(0, 30)), "-1");
    assert_eq!(position_name(&(-5, 0)), "a-4");
    assert_eq!(position_name(&(18, 18)), "s19");
    assert_eq!(position_name(&(122, 25)), "z123");
}

#[test]
fn five_pairs_of_the_side_that_just_moved_win_first() {
    let mut cells = [Cell::Empty; 361];
    cells[9 * 19 + 9] = Cell::White;
    // White just played (9,9) and holds five pairs; Black to move holds five too.
    let s = SearchState::from_position(cells, 5, 5, true, Some((9, 9)), 1);
    assert_eq!(s.get_winner(), Some(false));
    let t = SearchState::from_position(cells, 0, 5, true, Some((9, 9)), 1);
    assert_eq!(t.get_winner(), Some(false));
    assert_eq!(t.terminal_value(), Some(-100_000));
}

#[test]
fn a_gap_on_each_side_is_not_one_internal_gap() {
    // X _ c _ X along row 9: a gap on each side of the cell.
    let s = state_with(&[(9, 7, Cell::Black), (9, 11, Cell::Black)], true);
    let t = s.count_line_both(Cell::Black, Cell::White, 9, 9, 0, 1);
    assert_eq!((t.0, t.1, t.2, t.3), (3, 2, false, 1));
    // X _ c X: one gap, on one side.
    let u = state_with(&[(9, 7, Cell::Black), (9, 10, Cell::Black)], true);
    let v = u.count_line_both(Cell::Black, Cell::White, 9, 9, 0, 1);
    assert!(v.2);
    assert_eq!(v.0, 3);
}
