use lib_gomoku::search_board::{Cell, PatternCounts, SearchBoard};

// Small self-contained PRNG so the test doesn't need the `rand` crate.
struct TestRng(u64);
impl TestRng {
    fn next_u64(&mut self) -> u64 {
        let mut x = self.0;
        x ^= x << 13;
        x ^= x >> 7;
        x ^= x << 17;
        self.0 = x;
        x
    }
    fn next_usize(&mut self, bound: usize) -> usize {
        (self.next_u64() % bound as u64) as usize
    }
}

fn assert_patterns_match(board: &SearchBoard, ctx: &str) {
    let (black, white) = board.sb_scan_patterns();
    assert_eq!(board.black_patterns, black, "black patterns mismatch: {ctx}");
    assert_eq!(board.white_patterns, white, "white patterns mismatch: {ctx}");
}

/// Incrementally maintained black_patterns/white_patterns must always equal
/// a from-scratch sb_scan_patterns(). Random-play both colors, including
/// whatever captures happen to occur, and check after every move and after
/// undoing every move.
#[test]
fn incremental_patterns_match_full_rescan_over_random_games() {
    let mut rng = TestRng(0xC0FFEE_u64);
    for game in 0..30usize {
        let mut board = SearchBoard::empty();
        let mut undos = Vec::new();

        loop {
            let empties: Vec<(usize, usize)> = (0..19usize)
                .flat_map(|r| (0..19usize).map(move |c| (r, c)))
                .filter(|&(r, c)| board.cells[r][c] == Cell::Empty)
                .collect();
            if empties.is_empty() {
                break;
            }
            let (r, c) = empties[rng.next_usize(empties.len())];

            let undo = board.make_move(r, c);
            assert_patterns_match(&board, &format!("game {game} move {} at ({r},{c})", undos.len()));
            undos.push(undo);

            // Real search never calls make_move again once a side has won.
            if board.get_winner().is_some() {
                break;
            }
        }

        while let Some(undo) = undos.pop() {
            board.undo_move(&undo);
            assert_patterns_match(&board, &format!("game {game} after undoing move {}", undos.len()));
        }
        assert_eq!(board.black_patterns, PatternCounts::default());
        assert_eq!(board.white_patterns, PatternCounts::default());
    }
}
