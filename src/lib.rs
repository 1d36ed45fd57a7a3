//! Perfect-maze generation on a rectangular grid by randomized depth-first
//! carving, and the wall geometry that draws such a maze.

pub mod carve;
pub mod chance;
pub mod maze;
pub mod render;
pub mod square;
pub mod tree;
