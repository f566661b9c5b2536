//! Algorithms on trees.

pub mod diameter;
