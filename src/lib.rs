//! A ranked scoreboard for games: players with live scores kept in rank order,
//! the text lines that show them, and the timed celebration of a winner.

pub mod engine;
pub mod id_set;
pub mod ranking;
pub mod text;
pub mod scoreboard;

pub use scoreboard::{DuplicateIdError, Scoreboard, WinState, CELEBRATION_NANOS};
