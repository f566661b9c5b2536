//! Data structures on sets of elements.

pub mod dsu;
pub mod partition;
