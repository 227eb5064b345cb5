//! Grids of tiles.

pub mod grid_text;
pub mod small_bit_grid;
pub mod vec_grid;
