//! Conway's Game of Life on an unbounded grid of `i32` coordinates.

pub mod rules;
pub mod grid;
pub mod counting;
