//! Puzzle simulation.

pub mod blockbuilding;
pub mod common;
