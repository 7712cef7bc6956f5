//! A falling-block puzzle engine: a fixed grid of occupied cells, one falling
//! piece, and the rules for moving, rotating, locking and clearing rows.

pub mod board;
mod chance;
pub mod game;
pub mod piece;

pub use board::{Board, HEIGHT, WIDTH};
pub use game::{Action, Dir, GameState, SPAWN_X, SPAWN_Y, TICK_TIME};
pub use piece::{rotate_matrix, Shape, SHAPE_COUNT};
