//! A dense two-dimensional tile grid that carves a dungeon out of solid
//! wall by repeated random walks.

pub mod grid;
mod random;

pub use grid::{Grid, GridError, Node};
