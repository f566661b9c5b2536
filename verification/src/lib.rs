//! Algebraic range-query structures and a handful of independent numeric,
//! geometric and sequence utilities, each with a machine-checked contract.

pub mod algebra;
pub mod data_structure;
pub mod ds;
pub mod geometry;
pub mod graph;
pub mod math;
pub mod seq;
pub mod std_specs;
pub mod utils;
