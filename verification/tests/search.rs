use lib_gomoku::search_state::search::{
    alphabeta, bring_forward, find_move, get_ai_move_internal, get_ai_move_iterative_deepening,
    get_candidate_moves, lmr, main_thread_iterative_deepening, max_moves, next_ordering, order_moves,
    root_move_order, MAX_VALUE, MIN_VALUE,
};
use lib_gomoku::search_state::table::{SearchContext, TTEntry, TTFlag, TranspositionTable};
use lib_gomoku::engine::{clear_transposition_table, get_ai_move_with_stats, ShardedTT, TT_SIZE_BITS};
use lib_gomoku::gomoku::{Gomoku, MoveResult};
use lib_gomoku::search_state::{Cell, SearchState};

fn empty_state() -> SearchState {
    SearchState::from_position([Cell::Empty; 361], 0, 0, true, None, 0)
}

/// The position after `moves`, played alternately from Black.
fn position(moves: &[(u8, u8)]) -> SearchState {
    let mut s = empty_state();
    for &(r, c) in moves {
        assert!(s.is_valid_move(r as i32, c as i32), "setup move ({r},{c}) was rejected");
        s.make_move(r, c);
    }
    s
}

#[test]
fn pack_then_unpack_gives_the_entry_back() {
    let entries = [
        TTEntry { hash: 7, score: -123_456, depth: 5, flag: TTFlag::UpperBound, best_move: Some((18, 3)) },
        TTEntry { hash: 1 << 40, score: 100_000, depth: 0, flag: TTFlag::Exact, best_move: None },
        TTEntry { hash: 99, score: 0, depth: 255, flag: TTFlag::LowerBound, best_move: Some((0, 0)) },
    ];
    for e in entries {
        let back = TTEntry::unpack(e.hash, e.pack_data());
        assert_eq!(back.hash, e.hash);
        assert_eq!(back.score, e.score);
        assert_eq!(back.depth, e.depth);
        assert!(back.flag == e.flag);
        assert_eq!(back.best_move, e.best_move);
    }
    let e = TTEntry { hash: 0, score: -1, depth: 3, flag: TTFlag::LowerBound, best_move: Some((2, 17)) };
    assert_eq!(e.pack_data(), 0xFFFF_FFFF | (3u64 << 32) | (1u64 << 40) | (2u64 << 42) | (17u64 << 47) | (1u64 << 52));
}

#[test]
fn probe_finds_what_was_stored() {
    let mut tt = TranspositionTable::new();
    assert!(tt.probe(12345).is_none());
    let e = TTEntry { hash: 12345, score: 42, depth: 4, flag: TTFlag::Exact, best_move: Some((9, 9)) };
    tt.store(&e);
    let got = tt.probe(12345).expect("stored entry");
    assert_eq!(got.score, 42);
    assert_eq!(got.depth, 4);
    assert!(got.flag == TTFlag::Exact);
    assert_eq!(got.best_move, Some((9, 9)));
    // Another hash in the same slot does not match.
    assert!(tt.probe(12345 + (1 << 22)).is_none());
    // A later store in that slot replaces the entry.
    let f = TTEntry { hash: 12345 + (1 << 22), score: -7, depth: 1, flag: TTFlag::UpperBound, best_move: None };
    tt.store(&f);
    assert!(tt.probe(12345).is_none());
    assert_eq!(tt.probe(12345 + (1 << 22)).expect("replaced").score, -7);
}

#[test]
fn killer_and_history_memory() {
    let mut ctx = SearchContext::new();
    ctx.update_killer(3, (4, 5));
    assert_eq!(ctx.killer_moves[3][0], Some((4, 5)));
    assert_eq!(ctx.killer_moves[3][1], None);
    ctx.update_killer(3, (6, 7));
    assert_eq!(ctx.killer_moves[3][0], Some((6, 7)));
    assert_eq!(ctx.killer_moves[3][1], Some((4, 5)));
    // The newest killer again changes nothing.
    ctx.update_killer(3, (6, 7));
    assert_eq!(ctx.killer_moves[3][1], Some((4, 5)));
    // Plies past the table are ignored.
    ctx.update_killer(64, (1, 1));
    ctx.update_history(true, (2, 3), 5);
    ctx.update_history(true, (2, 3), 2);
    assert_eq!(ctx.history[0][2][3], 29);
    assert_eq!(ctx.history[1][2][3], 0);
    ctx.decay_history();
    assert_eq!(ctx.history[0][2][3], 14);
    for _ in 0..2 {
        ctx.history[1][0][0] = i32::MAX - 3;
        ctx.update_history(false, (0, 0), 8);
        assert_eq!(ctx.history[1][0][0], i32::MAX);
    }
}

#[test]
fn late_move_reductions() {
    assert_eq!(lmr(3, 2), 1);
    assert_eq!(lmr(3, 3), 1);
    assert_eq!(lmr(4, 9), 3);
    assert_eq!(lmr(6, 6), 2);
    assert_eq!(lmr(3, 12), 2);
    assert_eq!(lmr(7, 14), 4);
    assert_eq!(lmr(8, 15), 5);
    assert_eq!(lmr(8, 8), 4);
    assert_eq!(lmr(5, 5), 2);
}

#[test]
fn move_caps_by_plies_left() {
    assert_eq!(max_moves(false, 1), 5);
    assert_eq!(max_moves(false, 3), 7);
    assert_eq!(max_moves(false, 5), 9);
    assert_eq!(max_moves(false, 7), 12);
    assert_eq!(max_moves(true, 0), 7);
    assert_eq!(max_moves(true, 2), 9);
    assert_eq!(max_moves(true, 4), 11);
    assert_eq!(max_moves(true, 6), 15);
}

#[test]
fn find_and_bring_forward() {
    let mut moves = vec![(1, 1), (2, 2), (3, 3), (2, 2)];
    let mut scores = vec![10, 20, 30, 40];
    assert_eq!(find_move(&moves, 0, (2, 2)), Some(1));
    assert_eq!(find_move(&moves, 2, (2, 2)), Some(3));
    assert_eq!(find_move(&moves, 0, (5, 5)), None);
    assert_eq!(find_move(&moves, 4, (1, 1)), None);
    bring_forward(&mut moves, &mut scores, 2, 0);
    assert_eq!(moves, vec![(3, 3), (1, 1), (2, 2), (2, 2)]);
    assert_eq!(scores, vec![30, 10, 20, 40]);
}

#[test]
fn table_move_first_then_killers() {
    let mut moves: Vec<(u8, u8)> = vec![(8, 8), (8, 9), (8, 10), (9, 8), (9, 10)];
    let mut scores = vec![5, 4, 3, 2, 1];
    let mut ctx = SearchContext::new();
    ctx.update_killer(2, (8, 9));
    ctx.update_killer(2, (9, 10));
    order_moves(&mut moves, &mut scores, Some((9, 8)), &ctx, 2);
    assert_eq!(moves, vec![(9, 8), (9, 10), (8, 9), (8, 8), (8, 10)]);
    assert_eq!(scores, vec![2, 1, 4, 5, 3]);
}

#[test]
fn root_order_keeps_the_previous_order_first() {
    let prev = Some(vec![(3, 3), (1, 1)]);
    let cands = vec![(1, 1), (2, 2), (3, 3), (4, 4)];
    assert_eq!(root_move_order(&prev, cands.clone()), vec![(3, 3), (1, 1), (2, 2), (4, 4)]);
    assert_eq!(root_move_order(&None, cands.clone()), cands);
    let many: Vec<(u8, u8)> = (0..40u8).map(|i| (i / 19, i % 19)).collect();
    assert_eq!(root_move_order(&None, many.clone()).len(), 30);
    assert_eq!(root_move_order(&None, many.clone())[29], many[29]);
}

#[test]
fn next_ordering_sorts_by_value_for_the_mover() {
    let all = vec![(1, 1, Some(5)), (2, 2, None), (3, 3, Some(9)), (4, 4, Some(5))];
    assert_eq!(next_ordering(&all, true), vec![(3, 3), (1, 1), (4, 4), (2, 2)]);
    assert_eq!(next_ordering(&all, false), vec![(1, 1), (4, 4), (3, 3), (2, 2)]);
}

#[test]
fn alphabeta_scores_finished_games_and_the_horizon() {
    // White just completed five in a row.
    let mut s = position(&[(0, 0), (5, 5), (0, 2), (5, 6), (0, 4), (5, 7), (0, 6), (5, 8), (0, 8), (5, 9)]);
    let before = s.clone();
    let mut tt = TranspositionTable::new();
    let mut ctx = SearchContext::new();
    let (v, d) = alphabeta(&mut s, MIN_VALUE, MAX_VALUE, true, 1, 3, &mut tt, &mut ctx);
    assert_eq!((v, d), (-100_000, 1));
    assert!(s.cells == before.cells && s.zobrist_hash == before.zobrist_hash);
    // At the horizon the value is the static evaluation.
    let mut q = position(&[(9, 9), (3, 3)]);
    let h = q.heuristic_eval();
    assert_eq!(alphabeta(&mut q, MIN_VALUE, MAX_VALUE, true, 2, 2, &mut tt, &mut ctx), (h, 2));
}

#[test]
fn alphabeta_leaves_the_state_unchanged() {
    let mut s = position(&[(9, 9), (9, 10), (10, 10), (8, 8)]);
    let before = s.clone();
    let mut tt = TranspositionTable::new();
    let mut ctx = SearchContext::new();
    let (v, d) = alphabeta(&mut s, MIN_VALUE, MAX_VALUE, true, 1, 3, &mut tt, &mut ctx);
    assert!(v.abs() <= 1_000_000_000);
    assert!((1..=3).contains(&d));
    assert!(s.cells == before.cells);
    assert_eq!(s.zobrist_hash, before.zobrist_hash);
    assert_eq!(s.is_black_turn, before.is_black_turn);
    assert_eq!(s.move_count, before.move_count);
    assert_eq!(s.last_move, before.last_move);
}

#[test]
fn alphabeta_answers_from_the_table() {
    let mut s = position(&[(9, 9), (9, 10), (10, 10), (8, 8)]);
    let mut tt = TranspositionTable::new();
    let mut ctx = SearchContext::new();
    let exact = TTEntry { hash: s.zobrist_hash, score: 1234, depth: 5, flag: TTFlag::Exact, best_move: None };
    tt.store(&exact);
    assert_eq!(alphabeta(&mut s, MIN_VALUE, MAX_VALUE, true, 1, 3, &mut tt, &mut ctx), (1234, 1));
    // A lower bound at or above beta cuts off too.
    let lower = TTEntry { hash: s.zobrist_hash, score: 500, depth: 2, flag: TTFlag::LowerBound, best_move: None };
    tt.store(&lower);
    assert_eq!(alphabeta(&mut s, -10, 400, true, 1, 3, &mut tt, &mut ctx), (500, 1));
    // An entry searched too shallow is not taken.
    let shallow = TTEntry { hash: s.zobrist_hash, score: 777, depth: 1, flag: TTFlag::Exact, best_move: None };
    tt.store(&shallow);
    let (_, d) = alphabeta(&mut s, MIN_VALUE, MAX_VALUE, true, 1, 3, &mut tt, &mut ctx);
    assert!(d > 1);
}

#[test]
fn alphabeta_records_its_value_in_the_table() {
    let mut s = position(&[(9, 9), (9, 10), (10, 10), (8, 8)]);
    let mut tt = TranspositionTable::new();
    let mut ctx = SearchContext::new();
    let (v, d) = alphabeta(&mut s, MIN_VALUE, MAX_VALUE, true, 1, 3, &mut tt, &mut ctx);
    assert!(d > 1);
    let e = tt.probe(s.zobrist_hash).expect("an entry for the searched position");
    assert_eq!(e.score, v);
    assert_eq!(e.depth, 2);
    let flag = if v <= MIN_VALUE { TTFlag::UpperBound } else if v >= MAX_VALUE { TTFlag::LowerBound } else { TTFlag::Exact };
    assert!(e.flag == flag);
}

#[test]
fn deepening_lists_the_first_thirty_candidates_once() {
    let s = position(&[(9, 9), (9, 10), (10, 10), (8, 8), (11, 11)]);
    let mut cands: Vec<(usize, usize)> = get_candidate_moves(&s, 3);
    cands.truncate(30);
    let mut tt = TranspositionTable::new();
    let (_, all) = main_thread_iterative_deepening(s.clone(), 2, &mut tt);
    let mut listed: Vec<(usize, usize)> = all.iter().map(|e| (e.0, e.1)).collect();
    listed.sort();
    cands.sort();
    assert_eq!(listed, cands);
}

#[test]
fn first_move_goes_to_the_centre() {
    let (best, all) = get_ai_move_iterative_deepening(&empty_state());
    assert_eq!(all.len(), 1);
    let (x, y, _) = best.expect("a move");
    assert_eq!((x, y), (9, 9));
    assert_eq!((all[0].0, all[0].1), (9, 9));
}

#[test]
fn root_result_lists_candidates_and_the_best_of_them() {
    let mut s = position(&[(9, 9), (9, 10)]);
    let before = s.clone();
    let mut tt = TranspositionTable::new();
    let mut ctx = SearchContext::new();
    let (best, all) = get_ai_move_internal(&mut s, 2, &None, &mut tt, &mut ctx);
    assert!(s.cells == before.cells);
    let cands = get_candidate_moves(&before, 3);
    assert_eq!(all.len(), cands.len().min(30));
    for (e, c) in all.iter().zip(cands.iter()) {
        assert_eq!((e.0, e.1), *c);
    }
    let (bx, by, bv) = best.expect("a move");
    let top = all.iter().filter_map(|e| e.2).max().expect("a value");
    assert_eq!(bv, top);
    let first = all.iter().position(|e| e.2 == Some(top)).unwrap();
    assert_eq!((bx, by), (all[first].0, all[first].1));
}

/// The game after `moves`, played alternately from Black.
fn game(moves: &[(i32, i32)]) -> Gomoku {
    let mut g = Gomoku::new(19);
    for &(x, y) in moves {
        let (r, _, _) = g.handle_move(x, y);
        assert_eq!(r, MoveResult::Valid, "setup move ({x},{y}) was rejected");
        g.switch_player();
    }
    g
}

/// The engine is deterministic (the root is searched in order and ties keep
/// the first move), so `tactics` runs each case once and the `tactics_again`
/// tests bring each case to five runs, each from a cleared table, in slices
/// that fit the time a test is given.
const REPEATS: usize = 5;

/// Play `moves`, then require the engine to answer with one of `expected`
/// in each of `runs` searches, each from a cleared table.
fn expect_move_runs(name: &str, moves: &[(i32, i32)], expected: &[(usize, usize)], runs: usize) -> Vec<String> {
    let g = game(moves);
    let mut tt = ShardedTT::new(TT_SIZE_BITS);
    let mut failures = Vec::new();
    for attempt in 0..runs {
        clear_transposition_table(&mut tt);
        let (best, _, _) = get_ai_move_with_stats(&g, &mut tt);
        let (x, y, score) = best.expect("engine returned no move");
        if !expected.contains(&(x, y)) {
            failures.push(format!(
                "{name} attempt {attempt}: played ({x},{y}) score={score}, expected one of {expected:?}"
            ));
        }
    }
    failures
}

fn expect_move(name: &str, moves: &[(i32, i32)], expected: &[(usize, usize)]) -> Vec<String> {
    expect_move_runs(name, moves, expected, 1)
}

const COMPLETE_FIVE: [(i32, i32); 8] = [(9, 6), (2, 2), (9, 7), (2, 3), (9, 8), (2, 4), (9, 9), (15, 15)];
const BLOCK_CLOSED_FOUR: [(i32, i32); 8] = [(9, 5), (9, 6), (2, 2), (9, 7), (2, 3), (9, 8), (2, 4), (9, 9)];
const BLOCK_SPLIT_FOUR: [(i32, i32); 8] = [(2, 2), (9, 6), (2, 3), (9, 7), (2, 4), (9, 9), (15, 15), (9, 10)];
const BLOCK_OPEN_THREE: [(i32, i32); 6] = [(2, 2), (9, 7), (2, 4), (9, 8), (15, 15), (9, 9)];
const EXTEND_OWN_THREE: [(i32, i32); 6] = [(9, 7), (2, 2), (9, 8), (2, 3), (9, 9), (15, 15)];

fn check(failures: Vec<String>) {
    assert!(failures.is_empty(), "\n{}", failures.join("\n"));
}

#[test]
fn the_search_reaches_max_depth() {
    let g = game(&BLOCK_CLOSED_FOUR);
    let mut tt = ShardedTT::new(TT_SIZE_BITS);
    let (best, moves, stats) = get_ai_move_with_stats(&g, &mut tt);
    assert!(best.is_some() && !moves.is_empty());
    assert_eq!(stats.max_depth, lib_gomoku::engine::MAX_DEPTH);
}

#[test]
fn tactics_again_complete_five() {
    check(expect_move_runs("complete-five", &COMPLETE_FIVE, &[(9, 5), (9, 10)], REPEATS - 1));
}

#[test]
fn tactics_again_block_closed_four() {
    check(expect_move_runs("block-closed-four", &BLOCK_CLOSED_FOUR, &[(9, 10)], REPEATS - 1));
}

#[test]
fn tactics_again_block_split_four() {
    check(expect_move_runs("block-split-four", &BLOCK_SPLIT_FOUR, &[(9, 8)], REPEATS - 1));
}

#[test]
fn tactics_again_block_open_three() {
    check(expect_move_runs("block-open-three", &BLOCK_OPEN_THREE, &[(9, 5), (9, 6), (9, 10), (9, 11)], 2));
}

#[test]
fn tactics_again_block_open_three_more() {
    check(expect_move_runs("block-open-three", &BLOCK_OPEN_THREE, &[(9, 5), (9, 6), (9, 10), (9, 11)], REPEATS - 3));
}

#[test]
fn tactics_again_extend_own_three() {
    check(expect_move_runs("extend-own-three", &EXTEND_OWN_THREE, &[(9, 5), (9, 6), (9, 10), (9, 11)], REPEATS - 1));
}

#[test]
fn tactics() {
    let mut failures = Vec::new();
    failures.extend(expect_move(
        "complete-five",
        &[(9, 6), (2, 2), (9, 7), (2, 3), (9, 8), (2, 4), (9, 9), (15, 15)],
        &[(9, 5), (9, 10)],
    ));
    failures.extend(expect_move(
        "block-closed-four",
        &[(9, 5), (9, 6), (2, 2), (9, 7), (2, 3), (9, 8), (2, 4), (9, 9)],
        &[(9, 10)],
    ));
    failures.extend(expect_move(
        "block-split-four",
        &[(2, 2), (9, 6), (2, 3), (9, 7), (2, 4), (9, 9), (15, 15), (9, 10)],
        &[(9, 8)],
    ));
    failures.extend(expect_move(
        "block-open-three",
        &[(2, 2), (9, 7), (2, 4), (9, 8), (15, 15), (9, 9)],
        &[(9, 5), (9, 6), (9, 10), (9, 11)],
    ));
    failures.extend(expect_move(
        "extend-own-three",
        &[(9, 7), (2, 2), (9, 8), (2, 3), (9, 9), (15, 15)],
        &[(9, 5), (9, 6), (9, 10), (9, 11)],
    ));
    assert!(failures.is_empty(), "\n{}", failures.join("\n"));
}
