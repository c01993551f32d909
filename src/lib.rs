//! A two-player grid game (3x3 or 5x5) with a rules engine and an automated
//! opponent, both specified and verified.

mod board;
mod enums;
mod game;

pub use board::Board;
pub use game::Game;
pub use enums::{Cell, GameState, Player, Symbol};
