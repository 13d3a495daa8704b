# textris

A terminal falling-block puzzle game. The game rules are a verified library
(Verus); the terminal front end is ordinary Rust.

- `src/piece.rs` — the seven pieces, quarter turns, the cells a piece covers.
- `src/bag.rs` — the 7-bag randomizer: each round deals every kind once.
- `src/board.rs` — board cells, full rows, clearing full rows.
- `src/game.rs` — the game state, its invariant, and every operation
  (move, rotate with wall kicks, hold, lock, line clears and scoring, lock
  delay, spawning, game over), each stated over `GameState`.
- `src/control.rs` — player commands, the drawn board, the gravity interval.
- `src/laws.rs` — properties that span operations.
- `app/main.rs` — terminal drawing (ratatui), keys (crossterm), sound (rodio).
