//! Falling-block puzzle game logic: pieces, the board, line clearing,
//! scoring and the game state machine.

pub mod piece;
pub mod bag;
pub mod board;
pub mod game;
pub mod control;
pub mod laws;
