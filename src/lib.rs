//! Random partition of a square board into connected tiles, and the
//! orientation-tolerant patterns that describe each tile's footprint.

pub mod board;
pub mod grid;
mod random;
pub mod growth;
pub mod symmetries;
pub mod tile_expressions;
pub mod render;
