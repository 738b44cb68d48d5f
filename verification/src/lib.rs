//! Conway's Game of Life on a torus: a bit-packed grid of cells, the
//! generation step, and operations that stamp, toggle and clear cells.

pub mod bitset;
pub mod grid;
pub mod patterns;
pub mod shapes;
pub mod theorems;
pub mod universe;

pub use universe::Universe;
