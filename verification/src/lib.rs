//! A sliding-tile puzzle engine: a square board of numeric tiles that slide
//! and merge toward one of four edges, a tile spawner, and a detector for
//! boards on which no move is left.

pub mod board;
pub mod chance;
pub mod command;
pub mod field;
pub mod line;
pub mod samples;
