//! Move resolution for a sliding-tile merge puzzle on a 4x4 grid.
//!
//! - `line`: the move of a single row or column, as a function on sequences
//!   and as code.
//! - `board`: the geometry of the grid and the move of a whole board.
//! - `grid`: the cells as the engine stores them.
//! - `game`: the engine, which owns a board and the list of its free cells,
//!   with the turn, the spawn, the score and the terminal check.
//! - `facts`, `sums`, `bag` and `power`: what holds of a line and its move,
//!   of its sum, of its cells as a multiset, and of the values of its tiles.
//! - `laws`: the theorems that hold of every board and every move.
//! - `rng`: the call into the random number generator.

pub mod bag;
pub mod board;
pub mod facts;
pub mod game;
pub mod grid;
pub mod laws;
pub mod line;
pub mod power;
mod rng;
pub mod sums;
