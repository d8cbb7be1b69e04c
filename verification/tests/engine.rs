use lib_gomoku::engine::{
    clear_transposition_table, get_ai_move, get_ai_move_with_stats, get_hint, get_move_pv, root_iteration, sb_alphabeta,
    sb_state_value, search_root_child, sort_root_moves, MoveHeuristics, SbEntry, SearchStats, ShardedTT,
    MAX_PLY, TT_SIZE_BITS,
};
use lib_gomoku::gomoku::{Gomoku, MoveResult};
use lib_gomoku::search_board::{Cell, SearchBoard};
use lib_gomoku::search_state::table::TTFlag;

fn game_after(moves: &[(i32, i32)]) -> Gomoku {
    let mut g = Gomoku::new(19);
    for &(x, y) in moves {
        let (r, _, _) = g.handle_move(x, y);
        assert_eq!(r, MoveResult::Valid, "setup move ({x},{y}) was rejected");
        g.switch_player();
    }
    g
}


fn entry(hash: u64, value: i32) -> SbEntry {
    SbEntry { hash, depth_remaining: 3, value, flag: TTFlag::Exact, best_move: Some((9, 9)) }
}

#[test]
fn table_finds_what_was_stored_and_forgets_on_clear() {
    let mut tt = ShardedTT::new(4);
    assert_eq!(tt.mask, 15);
    assert_eq!(tt.slots.len(), 64 * 16);
    assert!(tt.lookup(12345).is_none());
    tt.store(12345, entry(12345, 77));
    assert_eq!(tt.lookup(12345).map(|e| e.value), Some(77));
    // Same slot, another hash: not found.
    assert!(tt.lookup(12345 + (1 << 20)).is_none());
    clear_transposition_table(&mut tt);
    assert!(tt.lookup(12345).is_none());
    assert!(tt.slots.iter().all(|s| s.is_none()));
}

#[test]
fn cutoffs_make_killers_and_history() {
    let mut h = MoveHeuristics::new();
    h.record_cutoff(2, (3, 4), 3);
    assert_eq!(h.killers_at(2), [Some((3, 4)), None]);
    h.record_cutoff(2, (5, 6), 2);
    assert_eq!(h.killers_at(2), [Some((5, 6)), Some((3, 4))]);
    // The newest killer again changes nothing.
    h.record_cutoff(2, (5, 6), 2);
    assert_eq!(h.killers_at(2), [Some((5, 6)), Some((3, 4))]);
    assert_eq!(h.history[3 * 19 + 4], 9);
    assert_eq!(h.history[5 * 19 + 6], 8);
    assert_eq!(h.killers_at(MAX_PLY), [None, None]);
    // A count over the ceiling halves the table.
    h.history[0] = 1 << 20;
    h.record_cutoff(0, (0, 0), 1);
    assert_eq!(h.history[0], ((1 << 20) + 1) / 2);
    assert_eq!(h.history[3 * 19 + 4], 4);
}

#[test]
fn stats_merge_adds_the_counters() {
    let mut a = SearchStats::new();
    a.nodes_visited = 5;
    a.max_depth = 3;
    let mut b = SearchStats::new();
    b.nodes_visited = 7;
    b.cutoffs = 2;
    b.tt_hits = u64::MAX;
    a.tt_hits = 1;
    a.merge(&b);
    assert_eq!(a.nodes_visited, 12);
    assert_eq!(a.cutoffs, 2);
    assert_eq!(a.tt_hits, u64::MAX);
    assert_eq!(a.max_depth, 3);
}

#[test]
fn finished_games_score_by_distance() {
    let mut g = game_after(&[]);
    g.white_captures = 5;
    g.current_player = lib_gomoku::gomoku::Stone::Black;
    let b = SearchBoard::from_gomoku(&g);
    // White, who moved last, holds five pairs.
    assert_eq!(sb_state_value(&b, 3), -100_000 + 3);
    let e = SearchBoard::empty();
    assert_eq!(sb_state_value(&e, 2), 0);
}

#[test]
fn alphabeta_leaves_the_board_and_scores_the_horizon() {
    let g = game_after(&[(9, 9), (9, 10), (10, 10)]);
    let mut b = SearchBoard::from_gomoku(&g);
    let before = b.clone();
    let mut tt = ShardedTT::new(10);
    let mut stats = SearchStats::new();
    let mut heur = MoveHeuristics::new();
    let (v, pv, timed_out) =
        sb_alphabeta(&mut b, -100_000, 100_000, false, 2, 2, &mut stats, &mut tt, &mut heur, true);
    assert!(!timed_out);
    assert_eq!(v, before.sb_heuristic_evaluation());
    assert!(pv.is_empty());
    let (v2, pv2, t2) =
        sb_alphabeta(&mut b, -100_000, 100_000, false, 1, 3, &mut stats, &mut tt, &mut heur, true);
    assert!(!t2);
    assert!(v2.abs() <= 200_000);
    assert!(!pv2.is_empty() && pv2.len() <= 2);
    assert!(b.cells == before.cells && b.hash == before.hash && b.current == before.current);
    assert!(b.black_patterns == before.black_patterns && b.white_patterns == before.white_patterns);
    // The result was stored under the position's hash.
    let e = tt.lookup(b.hash).expect("stored");
    assert_eq!(e.value, v2);
    assert_eq!(e.depth_remaining, 2);
    assert_eq!(e.best_move, Some(pv2[0]));
}

#[test]
fn an_exact_entry_deep_enough_answers_the_node() {
    let g = game_after(&[(9, 9), (9, 10), (10, 10)]);
    let mut b = SearchBoard::from_gomoku(&g);
    let mut tt = ShardedTT::new(10);
    tt.store(b.hash, entry(b.hash, 1234));
    let mut stats = SearchStats::new();
    let mut heur = MoveHeuristics::new();
    let (v, pv, timed_out) =
        sb_alphabeta(&mut b, -100_000, 100_000, false, 1, 3, &mut stats, &mut tt, &mut heur, true);
    assert!(!timed_out);
    assert_eq!(v, 1234);
    assert!(pv.is_empty());
    assert_eq!(stats.tt_hits, 1);
}

#[test]
fn a_shallow_entry_does_not_answer_the_node() {
    let g = game_after(&[(9, 9), (9, 10), (10, 10)]);
    let mut b = SearchBoard::from_gomoku(&g);
    let mut tt = ShardedTT::new(10);
    let mut shallow = entry(b.hash, 1234);
    shallow.depth_remaining = 1;
    tt.store(b.hash, shallow);
    let mut stats = SearchStats::new();
    let mut heur = MoveHeuristics::new();
    let (_, pv, timed_out) =
        sb_alphabeta(&mut b, -100_000, 100_000, false, 1, 3, &mut stats, &mut tt, &mut heur, true);
    assert!(!timed_out);
    // Searched rather than answered: a line comes back, and the node's own
    // result now sits in the table.
    assert!(!pv.is_empty());
    let e = tt.lookup(b.hash).expect("stored");
    assert_eq!(e.depth_remaining, 2);
    assert_eq!(e.best_move, Some(pv[0]));
}


#[test]
fn root_child_is_searched_and_taken_back() {
    let g = game_after(&[(9, 9), (9, 10)]);
    let mut b = SearchBoard::from_gomoku(&g);
    let before = b.clone();
    let mut tt = ShardedTT::new(10);
    let mut stats = SearchStats::new();
    let mut heur = MoveHeuristics::new();
    let (v, _, timed_out) =
        search_root_child(&mut b, (9, 8), -100_000, 100_000, true, 2, &mut stats, &mut tt, &mut heur);
    assert!(!timed_out);
    assert!(v.abs() <= 200_000);
    assert!(b.cells == before.cells && b.hash == before.hash);
}

#[test]
fn a_root_iteration_scores_and_sorts_the_same_moves() {
    let g = game_after(&[(9, 9), (9, 10)]);
    let mut b = SearchBoard::from_gomoku(&g);
    let before = b.clone();
    let start = vec![(8, 8, None), (10, 10, None), (9, 8, None), (0, 0, None)];
    let mut all_moves = start.clone();
    let mut tt = ShardedTT::new(10);
    let mut stats = SearchStats::new();
    let mut heur = MoveHeuristics::new();
    let (best, pv, timed_out) = root_iteration(&mut b, &mut all_moves, 2, &mut stats, &mut tt, &mut heur);
    assert!(!timed_out);
    assert!(b.cells == before.cells && b.hash == before.hash);
    // The same moves, each scored, best first for Black.
    assert_eq!(all_moves.len(), start.len());
    for m in &start {
        assert!(all_moves.iter().any(|e| e.0 == m.0 && e.1 == m.1));
    }
    for w in all_moves.windows(2) {
        assert!(w[0].2.unwrap() >= w[1].2.unwrap());
    }
    let (r, c, v) = best.expect("a move");
    assert_eq!(pv[0], (r, c));
    assert_eq!(all_moves[0].2, Some(v));
}

#[test]
fn root_moves_sort_best_first() {
    let moves = vec![(1, 1, Some(5)), (2, 2, None), (3, 3, Some(9)), (4, 4, Some(5))];
    let max = sort_root_moves(&moves, true);
    assert_eq!(max, vec![(3, 3, Some(9)), (1, 1, Some(5)), (4, 4, Some(5)), (2, 2, None)]);
    let min = sort_root_moves(&moves, false);
    assert_eq!(min, vec![(1, 1, Some(5)), (4, 4, Some(5)), (3, 3, Some(9)), (2, 2, None)]);
}

#[test]
fn first_engine_move_is_the_centre() {
    let g = game_after(&[]);
    let mut tt = ShardedTT::new(TT_SIZE_BITS);
    let (best, moves, stats) = get_ai_move_with_stats(&g, &mut tt);
    assert_eq!(moves.len(), 1);
    assert_eq!(best.map(|b| (b.0, b.1)), Some((9, 9)));
    assert_eq!(stats.max_depth, 3);
    assert_eq!(stats.pv.first(), Some(&(9, 9)));
}

#[test]
fn engine_moves_are_candidates_with_values() {
    let g = game_after(&[(9, 9), (9, 8), (9, 10)]);
    let mut tt = ShardedTT::new(12);
    let (best, moves) = get_ai_move(&g, &mut tt);
    let (x, y, v) = best.expect("a move");
    assert!(moves.iter().any(|m| (m.0, m.1, m.2) == (x, y, Some(v))));
    assert!(moves.iter().all(|m| m.0 < 19 && m.1 < 19 && g.board[m.0][m.1] == lib_gomoku::gomoku::Stone::Empty));
    // Best first for White, who moves.
    let vals: Vec<i32> = moves.iter().filter_map(|m| m.2).collect();
    assert!(vals.windows(2).all(|w| w[0] <= w[1]));
    let hints = get_hint(&g, &mut tt);
    assert_eq!(hints.len(), moves.len());
}

#[test]
fn move_pv_starts_with_the_move() {
    let g = game_after(&[(9, 9), (9, 10)]);
    let mut tt = ShardedTT::new(10);
    let (pv, v) = get_move_pv(&g, 10, 10, &mut tt);
    assert_eq!(pv[0], (10, 10));
    assert!(pv.len() >= 2);
    assert!(v.abs() <= 200_000);
    assert_eq!(Cell::Black, Cell::Black);
}
