use lib_gomoku::gomoku::{heuristic_evaluation, Gomoku, MoveResult, Stone};
use lib_gomoku::search_board::moves::zobrist;
use lib_gomoku::search_board::{Cell, SearchBoard};
use lib_gomoku::search_state::SearchState;

/// Play `moves` alternately from Black, each one valid.
fn game_after(moves: &[(i32, i32)]) -> Gomoku {
    let mut g = Gomoku::new(19);
    for &(x, y) in moves {
        let (r, _, _) = g.handle_move(x, y);
        assert_eq!(r, MoveResult::Valid, "setup move ({x},{y}) was rejected");
        g.switch_player();
    }
    g
}

/// The Zobrist hash of the game's position, from scratch.
fn fresh_hash(g: &Gomoku) -> u64 {
    let z = zobrist();
    let mut h = 0u64;
    for x in 0..19 {
        for y in 0..19 {
            match g.board[x][y] {
                Stone::Black => h ^= z.board[x * 19 + y][0],
                Stone::White => h ^= z.board[x * 19 + y][1],
                Stone::Empty => {}
            }
        }
    }
    if g.current_player == Stone::White {
        h ^= z.player;
    }
    h
}

#[test]
fn new_game_is_empty_with_black_to_move() {
    let g = Gomoku::new(19);
    assert_eq!(g.size(), 19);
    assert_eq!(g.count_empty_spots(), 361);
    assert!(!g.check_draw());
    assert_eq!(g.current_player(), "X");
    assert_eq!(g.opponent_player(), "O");
    assert_eq!(g.win_capture_count(), 5);
    assert_eq!(g.current_move(), None);
    assert_eq!(g.hash, 0);
    assert_eq!(g.get_winner(), None);
    assert_eq!(g.capture_count(), vec![("X".to_string(), 0), ("O".to_string(), 0)]);
    let rows = g.board();
    assert_eq!(rows.len(), 19);
    assert!(rows.iter().all(|r| r.len() == 19 && r.iter().all(|s| s == ".")));
}

#[test]
fn move_results_and_names() {
    let mut g = game_after(&[(9, 9)]);
    assert_eq!(g.is_valid_move(-1, 3), MoveResult::OutOfBoard);
    assert_eq!(g.is_valid_move(3, 19), MoveResult::OutOfBoard);
    assert_eq!(g.is_valid_move(9, 9), MoveResult::NotEmpty);
    assert_eq!(g.is_valid_move(9, 10), MoveResult::Valid);
    assert_eq!(g.is_valid_move_simple_ruleset(9, 9), MoveResult::NotEmpty);
    let before_hash = g.hash;
    let (r, n, caps) = g.handle_move(9, 9);
    assert_eq!((r, n, caps.len()), (MoveResult::NotEmpty, 0, 0));
    assert_eq!(g.hash, before_hash);
    assert_eq!(MoveResult::Valid.name(), "VALID");
    assert_eq!(MoveResult::OutOfBoard.name(), "OUT_OF_BOARD");
    assert_eq!(MoveResult::NotEmpty.value(), 2);
    assert_eq!(MoveResult::DoubleThree.value(), 3);
    assert_eq!(Stone::Empty.name(), ".");
    assert_eq!(Stone::White.name(), "O");
}

#[test]
fn double_three_is_refused() {
    // Black stones on (9,8),(9,9) and (8,10),(7,10): (9,10) makes two free threes.
    let mut g = game_after(&[(9, 8), (0, 0), (9, 9), (0, 2), (8, 10), (0, 4), (7, 10), (0, 6)]);
    assert_eq!(g.is_valid_move(9, 10), MoveResult::DoubleThree);
    assert!(g.is_double_three_move(9, 10));
    let (r, n, _) = g.handle_move(9, 10);
    assert_eq!((r, n), (MoveResult::DoubleThree, 0));
    assert_eq!(g.board[9][10], Stone::Empty);
    assert_eq!(g.is_valid_move_simple_ruleset(9, 10), MoveResult::Valid);
}

#[test]
fn capture_removes_the_pair_and_counts_it() {
    // X O O . : Black plays (5,8) and captures (5,6),(5,7).
    let mut g = game_after(&[(5, 5), (5, 6), (0, 0), (5, 7)]);
    assert!(g.is_capture(5, 8, 0, -1));
    let (r, n, caps) = g.handle_move(5, 8);
    assert_eq!(r, MoveResult::Valid);
    assert_eq!(n, 1);
    assert_eq!(caps, vec![(5, 7), (5, 6)]);
    assert_eq!(g.board[5][6], Stone::Empty);
    assert_eq!(g.board[5][7], Stone::Empty);
    assert_eq!(g.board[5][8], Stone::Black);
    assert_eq!(g.black_captures, 1);
    assert_eq!(g.current_move(), Some((5, 8)));
    assert_eq!(g.move_count, 5);
    assert_eq!(g.count_empty_spots(), 361 - 3);
    assert_eq!(g.capture_count()[0].1, 1);
    assert_eq!(g.hash, fresh_hash(&g));
    g.switch_player();
    assert_eq!(g.hash, fresh_hash(&g));
}

#[test]
fn two_captures_in_one_move() {
    // Black at (5,5) and (5,11); White pairs at (5,6),(5,7) and (5,9),(5,10).
    let mut g = game_after(&[(5, 5), (5, 6), (5, 11), (5, 7), (0, 0), (5, 9), (0, 18), (5, 10)]);
    let (r, n, caps) = g.handle_move(5, 8);
    assert_eq!(r, MoveResult::Valid);
    assert_eq!(n, 2);
    assert_eq!(caps, vec![(5, 7), (5, 6), (5, 9), (5, 10)]);
    assert_eq!(g.black_captures, 2);
    assert_eq!(g.hash, fresh_hash(&g));
}

#[test]
fn hash_follows_the_position() {
    let g = game_after(&[(9, 9), (9, 10), (10, 10), (8, 8), (3, 4)]);
    assert_eq!(g.hash, fresh_hash(&g));
    let c = g.clone_gomoku();
    assert_eq!(c.hash, g.hash);
    assert_eq!(c.board, g.board);
    assert_eq!(c.current_player, g.current_player);
}

#[test]
fn switch_player_alternates() {
    let mut g = Gomoku::new(19);
    g.switch_player();
    assert_eq!(g.current_player, Stone::White);
    assert_eq!(g.opponent_player, Stone::Black);
    assert_eq!(g.hash, zobrist().player);
    g.switch_player();
    assert_eq!(g.current_player, Stone::Black);
    assert_eq!(g.hash, 0);
}

#[test]
fn winner_by_five_in_a_row() {
    // Black completes (9,5)..(9,9); after switching, White is to move.
    let g = game_after(&[(9, 5), (0, 0), (9, 6), (0, 2), (9, 7), (0, 4), (9, 8), (0, 6), (9, 9)]);
    assert_eq!(g.get_winner(), Some("X".to_string()));
}

#[test]
fn winner_by_captures() {
    let mut g = game_after(&[(9, 9)]);
    g.switch_player();
    // Black to move again with five captured pairs.
    g.black_captures = 5;
    assert_eq!(g.get_winner(), Some("X".to_string()));
    g.black_captures = 4;
    assert_eq!(g.get_winner(), None);
}

#[test]
fn capturable_pairs() {
    // Black pair (5,5),(5,6) with White on (5,4) and (5,7) empty.
    let g = game_after(&[(5, 5), (5, 4), (5, 6), (0, 0)]);
    assert_eq!(g.current_player, Stone::Black);
    assert!(g.is_pair_capturable((5, 5), (5, 6)));
    assert!(g.stone_in_capturable_pair(5, 5));
    assert!(g.stone_in_capturable_pair(5, 6));
    assert!(!g.stone_in_capturable_pair(0, 0));
    assert!(g.cell_eq(5, 4, &Stone::White));
    assert!(g.is_empty(5, 7));
    assert!(!g.is_empty(19, 7));
}

#[test]
fn parse_board_reads_rows() {
    let mut g = Gomoku::new(19);
    g.parse_board("X.O\r\n..X\n\nOO");
    assert_eq!(
        g.board,
        vec![
            vec![Stone::Black, Stone::Empty, Stone::White],
            vec![Stone::Empty, Stone::Empty, Stone::Black],
            vec![],
            vec![Stone::White, Stone::White],
        ]
    );
    g.parse_board("XX\n");
    assert_eq!(g.board, vec![vec![Stone::Black, Stone::Black]]);
    g.parse_board("");
    assert!(g.board.is_empty());
}

#[test]
fn heuristic_evaluation_of_games() {
    assert_eq!(heuristic_evaluation(&Gomoku::new(19)), 0);
    let g = game_after(&[(9, 9), (0, 0), (9, 10)]);
    // Black holds one open two; White is to move.
    let b = SearchBoard::from_gomoku(&g);
    assert_eq!(b.black_patterns.open_twos, 1);
    assert_eq!(heuristic_evaluation(&g), 50);
}

#[test]
fn search_views_of_a_game() {
    let g = game_after(&[(9, 9), (9, 10), (10, 10)]);
    let b = SearchBoard::cells_from_gomoku(&g);
    assert_eq!(b.cells[9][9], Cell::Black);
    assert_eq!(b.cells[9][10], Cell::White);
    assert_eq!(b.total_stones, 3);
    assert_eq!(b.current, Cell::White);
    assert_eq!(b.hash, g.hash);
    assert_eq!(b.last_move, Some((10, 10)));
    let s = SearchState::from_gomoku(&g);
    assert!(!s.is_black_turn);
    assert_eq!(s.move_count, 3);
    assert_eq!(s.last_move, Some((10, 10)));
    assert_eq!(s.cells[9 * 19 + 9], Cell::Black);
    let mut cells = [Cell::Empty; 361];
    cells[9 * 19 + 9] = Cell::Black;
    cells[9 * 19 + 10] = Cell::White;
    cells[10 * 19 + 10] = Cell::Black;
    let t = SearchState::from_position(cells, 0, 0, false, Some((10, 10)), 3);
    assert_eq!(s.zobrist_hash, t.zobrist_hash);
}

#[test]
fn formation_cells_of_a_game() {
    // Black holds (9,9),(9,10): an open two reported with the empty cell on each side.
    let g = game_after(&[(9, 9), (0, 0), (9, 10)]);
    let open_two = g.open_two();
    assert_eq!(open_two[0].0, "X");
    assert_eq!(open_two[0].1, vec![vec![(9, 8), (9, 9), (9, 10), (9, 11)]]);
    assert_eq!(open_two[1].0, "O");
    assert!(open_two[1].1.is_empty());
    assert!(g.free_three_list()[0].1.is_empty());
    assert!(g.five_row()[0].1.is_empty());
    assert!(g.open_three()[0].1.is_empty());
    assert!(g.open_four()[0].1.is_empty());
    assert!(g.block_four()[0].1.is_empty());
    let (black, white) = g.pattern_ranges();
    assert_eq!(black.open_two.len(), 1);
    assert!(white.open_two.is_empty());
    // A stone on the edge has no empty cell before it.
    let h = game_after(&[(0, 0), (9, 9), (0, 1), (9, 12), (0, 2)]);
    assert_eq!(h.open_three()[0].1, vec![vec![(0, 0), (0, 1), (0, 2), (0, 3)]]);
    assert!(h.free_three_list()[0].1.is_empty());
}

#[test]
fn game_and_search_capture_alike() {
    let mut g = game_after(&[(5, 5), (5, 6), (5, 11), (5, 7), (0, 0), (5, 9), (0, 18), (5, 10)]);
    let mut s = SearchState::from_gomoku(&g);
    let (r, n, _) = g.handle_move(5, 8);
    assert_eq!((r, n), (MoveResult::Valid, 2));
    let undo = s.make_move(5, 8);
    assert_eq!(undo.num_captured, 4);
    for x in 0..19 {
        for y in 0..19 {
            let expected = match g.board[x][y] {
                Stone::Empty => Cell::Empty,
                Stone::Black => Cell::Black,
                Stone::White => Cell::White,
            };
            assert_eq!(s.cells[x * 19 + y], expected, "cell ({x},{y})");
        }
    }
    assert_eq!(s.black_captures as i32, g.black_captures);
}
