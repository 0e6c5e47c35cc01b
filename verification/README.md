# Anodos

A UCI chess engine whose logic is verified with Verus.

- `src/` is the library: squares, pieces and bitboards; the board and positions with
  FEN reading, making and taking back moves and the repetition rules; attack tables and
  move generation with perft; the evaluation; the search (move ordering, quiescence,
  alpha-beta with a transposition table, killer moves, history, principal variations,
  iterative deepening steps); and the UCI command reader. Each function carries a
  contract that Verus proves.
- `app/main.rs` runs the UCI loop: it reads commands from standard input, prints the
  engine's answers and search reports, and applies the soft time limit, which works in
  floating point.
- `tests/` holds the tests of the library.

The inline lists of moves and keys use the `smallvec` crate.
