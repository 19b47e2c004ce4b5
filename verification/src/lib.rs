//! A perfect-maze library: a rectangular grid of cells with per-side walls,
//! a randomized depth-first spanning-tree generator, and a deterministic
//! text rendering of the wall state.

pub mod coords;
pub mod count;
pub mod gen;
pub mod grid;
pub mod render;
