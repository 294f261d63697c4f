//! Puzzle solutions over text grids and number lists, with the shared grid
//! types they are built on.

pub mod grid;
pub mod text;
pub mod y2024;
pub mod y2025;
