//! Conway's Game of Life on a fixed-size toroidal grid.

pub mod patterns;
pub mod world;
