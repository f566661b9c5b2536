//! Graph algorithms.

pub mod scc;
pub mod tree;
