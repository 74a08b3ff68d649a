# battlesnake

The engine of a Battlesnake duel player ("Camo"), verified with Verus.

A position is a `State`: an 11 x 11 board of bytes (`0xFF` is food; any other
value holds the owning snake in its high bit and, in its low seven bits, for
how many more turns the body part stays), plus each snake's length, health,
head and life, and the turn number. The engine searches the position with
minimax and alpha-beta pruning, deepening until 30 ms have passed, and
evaluates positions mostly by how much of the board each snake reaches first.

## Layout

- `src/board.rs` — `State`, its mathematical view and the cell encoding.
- `src/moves.rs` — playing a move (`make_move`) and ending a turn (`end_turn`),
  with their specifications and the laws they keep, the cell encoding among
  them.
- `src/area_control.rs` — the breadth-first search that shares the board out
  (`get_area_control_score`) and the tail cells (`get_tail_positions`).
- `src/eval.rs` — the evaluation of a position (`state_value`).
- `src/floodfill.rs` — a depth-first probe of how far snake 0 can run.
- `src/search.rs` — move ordering, the alpha-beta search, iterative deepening
  (`minimax`, and `checked_minimax`, which checks its inputs at run time), and
  the proof that pruning keeps the minimax value and move wherever the depth
  bonus cannot reorder scores: when no line of the tree ends in a loss for
  snake 0, or when the search is one turn deep.
- `src/game.rs` — the server's description of a turn, how it is read into a
  `State`, and the answer (`calculate_direction`, and
  `checked_calculate_direction`, which checks its inputs at run time).
- `src/clock.rs` — the clock the search reads.
- `app/lib.rs` — printing a position for debugging.
- `tests/` — tests on concrete positions.
