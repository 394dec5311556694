//! Conway's Game of Life on a toroidal grid whose cells are packed one per bit.

pub mod bits;
pub mod grid;
pub mod laws;
pub mod patterns;
pub mod random;
pub mod universe;

pub use crate::universe::Universe;
