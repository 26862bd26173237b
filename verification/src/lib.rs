//! A library that arranges a catalog of colors on a square grid so that
//! perceptually similar colors end up near each other: a greedy
//! nearest-color diffusion over a frontier of empty cells.

pub mod catalog;
pub mod color;
pub mod coords;
pub mod engine;
pub mod frontier;
pub mod grid;
pub mod store;
