//! Rules engine and text protocol for a two-player tile-flipping board game.
//!
//! The board geometry, the board itself, the turn state machine with its undo
//! history, the request/response codec and the per-session handler are all
//! specified and verified.

pub mod position;
pub mod board;
pub mod game;
pub mod handler;
pub mod parser;
