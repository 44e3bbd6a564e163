//! A deterministic generator of square maze-like grids.
//!
//! A numeric or text seed drives a Park-Miller pseudo-random sequence; a
//! growth pipeline carves wall cells into a square grid, a flood fill marks
//! the open region connected to the origin, and a greedy scan partitions the
//! wall cells into axis-aligned rectangles.

pub mod grid;
pub mod hash;
pub mod maze;
pub mod prng;
pub mod textseed;

pub use prng::SeededGenerator;
