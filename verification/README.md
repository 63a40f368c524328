# Chesnaught

A chess and Chess960 engine that speaks UCI, written as a Verus library with
a thin program around it.

- `src/` is the verified library: pieces, squares and castling rights; the
  board, its legal moves and how a game ends; grids, FEN and long algebraic
  notation; Chess960 starting positions; position scores; the search tree,
  its alpha-beta search and the table of positions it keeps; the decisions of
  the engine's iterative deepening; the UCI session as a state machine; and
  the interactive play mode.
- `app/` is the program: it reads lines, prints replies, runs the engine on
  a thread of its own with a timer, and checks the move generator against the
  `chess` crate.
- `tests/` runs the library on concrete positions and commands.

The search takes the score of the positions where it stops as an argument:
the library defines no evaluation of a position, and the program counts every
such position as even.
