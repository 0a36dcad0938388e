//! Conway's Game of Life on signed integer coordinates: the boundary test of
//! the board, the generation step of the engine, and reading cells from text.

pub mod board;
pub mod engine;
pub mod parse;

pub use board::in_bounds;
pub use engine::{compute_next, get_nbors, Cell};
pub use parse::{parse_coords, parse_line};
