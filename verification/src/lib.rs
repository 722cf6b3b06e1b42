//! Peg solitaire on the seven-by-seven cross board: board snapshots, the
//! jump rule, and a depth-first explorer that looks for a sequence of jumps
//! leaving a single peg on the centre cell.

pub mod board;
pub mod code;
pub mod grid;
pub mod search;
pub mod tile;
pub mod walk;

pub use grid::Grid;
pub use search::{Exploration, GameTree};
pub use tile::{Action, Direction, Tile};
