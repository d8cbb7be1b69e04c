# lib_gomoku

A Gomoku engine for the 19×19 board with captures: a pair of enemy stones
flanked by a move is taken off the board, five pairs taken win the game, a
line of five wins unless the opponent can break it by a capture, and a move
that makes two free threes at once is refused.

The library is written in Verus: every function carries a contract over a
mathematical model of the board, and Verus proves the code against it.

## Layout

- `src/search_board.rs` and `src/search_board/`: the search board of the game
  (cells, captures, incremental hashing), pattern recognition along lines,
  the rules (double threes, fives, capturable pairs, the winner), move
  ordering for the search, and the pattern counts kept up to date move by
  move. `rescan.rs` proves that the incremental counts equal a full rescan.
- `src/search_state.rs` and `src/search_state/`: the flat search state used by
  the engine, with make/unmake, the rules, the static evaluation, threat
  scoring of candidate moves, the transposition table with killer and
  history ordering, and alpha-beta search with iterative deepening.
- `src/engine.rs`: the engine that plays on the search board: principal
  variation search with a sharded transposition table kept across turns,
  killer and history move ordering, null-move pruning and late move
  reductions, under iterative deepening; the engine's move, the hints and
  the principal variation of a move.
- `src/search_state/symmetry.rs`: exchanging the colours negates the static
  evaluation.
- `src/gomoku.rs`: the game object (board of stones, players, captures,
  hash), with move handling, pattern listings and conversion to the search
  types.
- `src/tracker.rs`: a game object that keeps lists of formations (open twos,
  free threes, fives, ...) up to date as moves and captures are played, and
  its candidate moves and evaluation.
- `src/keys.rs`: the xorshift generator of the hashing keys.
- `src/sorting.rs`: stable ordering by an integer key.
- `tests/`: tests of the library on concrete games.
- `app/`: a command-line AI-against-AI game that plays the engine, prints the
  board and the search statistics, logs the runs and stops cleanly on Ctrl-C.
