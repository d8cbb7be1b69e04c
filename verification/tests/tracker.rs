use lib_gomoku::gomoku::{MoveResult, Stone};
use lib_gomoku::tracker::{get_candidate_moves, heuristic_evaluation, Gomoku};

/// Play `moves` alternately from Black, each one valid.
fn game_after(moves: &[(i32, i32)]) -> Gomoku {
    let mut g = Gomoku::new(19);
    for &(x, y) in moves {
        let (r, _) = g.handle_move(x, y);
        assert_eq!(r, MoveResult::Valid, "setup move ({x},{y}) was rejected");
        g.switch_player();
    }
    g
}

fn row(cells: &[(i32, i32)]) -> Vec<(i32, i32)> {
    cells.to_vec()
}

#[test]
fn new_game_has_no_formations() {
    let g = Gomoku::new(19);
    assert_eq!(g.size(), 19);
    assert_eq!(g.count_empty_spots(), 361);
    assert!(!g.check_draw());
    assert_eq!(g.current_player(), "X");
    assert_eq!(g.opponent_player(), "O");
    assert_eq!(g.win_capture_count(), 5);
    assert_eq!(g.current_move(), None);
    assert_eq!(g.get_winner(), None);
    for lists in [g.free_three_list(), g.five_row(), g.open_two(), g.open_three(), g.open_four()] {
        assert_eq!(lists[0].0, "X");
        assert_eq!(lists[1].0, "O");
        assert!(lists[0].1.is_empty() && lists[1].1.is_empty());
    }
    let small = Gomoku::new(3);
    assert_eq!(small.board().len(), 3);
    assert_eq!(small.count_empty_spots(), 9);
}

#[test]
fn open_two_is_listed_and_dropped() {
    let mut g = game_after(&[(9, 9), (0, 0), (9, 10)]);
    assert_eq!(g.open_two()[0].1, vec![row(&[(9, 8), (9, 9), (9, 10), (9, 11)])]);
    assert!(g.open_two()[1].1.is_empty());
    assert_eq!(g.count_empty_spots(), 358);
    // White on (9,11) breaks the line.
    let (r, n) = g.handle_move(9, 11);
    assert_eq!((r, n), (MoveResult::Valid, 0));
    assert!(g.open_two()[0].1.is_empty());
    g.switch_player();
    assert_eq!(g.current_player(), "X");
}

#[test]
fn free_three_joins_the_list_when_checked() {
    let mut g = game_after(&[(9, 8), (0, 0), (9, 9), (0, 18)]);
    assert_eq!(g.is_valid_move(9, 10), MoveResult::Valid);
    assert_eq!(
        g.free_three_list()[0].1,
        vec![row(&[(9, 6), (9, 7), (9, 8), (9, 9), (9, 10), (9, 11), (9, 12)])]
    );
    // Checking again does not list it twice.
    assert_eq!(g.is_valid_move(9, 10), MoveResult::Valid);
    assert_eq!(g.free_three_list()[0].1.len(), 1);
    assert_eq!(g.board[9][10], Stone::Empty);
}

#[test]
fn listed_double_three_is_refused() {
    let mut g = game_after(&[(9, 8), (0, 0), (9, 9), (0, 2), (8, 10), (0, 4), (7, 10), (0, 6)]);
    assert!(g.is_double_three_move(9, 10));
    let (r, n) = g.handle_move(9, 10);
    assert_eq!((r, n), (MoveResult::DoubleThree, 0));
    assert_eq!(g.board[9][10], Stone::Empty);
    assert_eq!(g.is_valid_move(-1, 0), MoveResult::OutOfBoard);
    assert_eq!(g.is_valid_move(9, 9), MoveResult::NotEmpty);
}

#[test]
fn capture_clears_the_pair_and_counts() {
    let mut g = game_after(&[(5, 5), (5, 6), (0, 0), (5, 7)]);
    assert!(g.is_capture(5, 8, 0, -1));
    let (r, n) = g.handle_move(5, 8);
    assert_eq!((r, n), (MoveResult::Valid, 1));
    assert_eq!(g.board[5][6], Stone::Empty);
    assert_eq!(g.board[5][7], Stone::Empty);
    assert_eq!(g.black_captures, 1);
    assert_eq!(g.capture_count(), vec![("X".to_string(), 1), ("O".to_string(), 0)]);
    assert_eq!(g.current_move(), Some((5, 8)));
}

#[test]
fn five_in_a_row_wins() {
    let g = game_after(&[(9, 5), (0, 0), (9, 6), (0, 2), (9, 7), (0, 4), (9, 8), (0, 6), (9, 9)]);
    assert_eq!(g.five_row()[0].1, vec![row(&[(9, 5), (9, 6), (9, 7), (9, 8), (9, 9)])]);
    assert_eq!(g.get_winner(), Some("X".to_string()));
}

#[test]
fn listed_winner_by_captures() {
    let mut g = game_after(&[(9, 9), (3, 3)]);
    g.black_captures = 5;
    assert_eq!(g.get_winner(), Some("X".to_string()));
}

#[test]
fn candidates_around_the_stones() {
    let mut empty = Gomoku::new(19);
    assert_eq!(get_candidate_moves(&mut empty, 2), vec![(9, 9)]);
    let mut g = game_after(&[(9, 9)]);
    let c = get_candidate_moves(&mut g, 1);
    assert_eq!(c, vec![(8, 8), (8, 9), (8, 10), (9, 8), (9, 10), (10, 8), (10, 9), (10, 10)]);
    let mut corner = game_after(&[(0, 0)]);
    assert_eq!(get_candidate_moves(&mut corner, 1), vec![(0, 1), (1, 0), (1, 1)]);
}

#[test]
fn evaluation_of_listed_formations() {
    assert_eq!(heuristic_evaluation(&Gomoku::new(19)), 0);
    // Black holds one open two; White is to move.
    let g = game_after(&[(9, 9), (0, 0), (9, 10)]);
    assert_eq!(heuristic_evaluation(&g), -50);
    let mut h = game_after(&[(9, 9), (0, 0), (9, 10)]);
    h.switch_player();
    assert_eq!(heuristic_evaluation(&h), 50);
    h.white_captures = 2;
    assert_eq!(heuristic_evaluation(&h), 50 - 4000);
}
