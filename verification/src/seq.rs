//! Utilities on sequences.

pub mod char_position;
pub mod run_length;
