# checkers

An 8x8 checkers engine (flying queens, mandatory maximal captures, draw after
100 plies) whose rules are verified with Verus.

- `src/geometry.rs`: colors, cell values, the padded 46-slot array, positions,
  directions and moves.
- `src/board.rs`, `src/action.rs`: the board and the actions (a start and up to
  twelve moves, held in an `ArrayVec`).
- `src/rules.rs`: the rules as spec functions: simple moves, capture trees,
  the legal actions of a board, and what playing an action does.
- `src/movegen.rs`: the move generator, proved to compute exactly the legal
  actions, in their order.
- `src/laws.rs`, `src/game.rs`: what every legal action keeps (a sound board,
  the pieces of each side), the game as a sequence of legal plays, random
  play, rollouts and final scores, and the two-player game used by
  tournaments.
- `src/text.rs`, `src/board_text.rs`, `src/text_roundtrip.rs`: the text of
  colors, squares, actions and boards, reading them back, and the proofs that
  reading a text gives back what was written.
- `src/duration.rs`: reading a number of microseconds.
- `app/`: the programs around the library: games between engines (the
  Monte-Carlo tree search engine works with floats), a tournament runner and
  a tournament agent.
