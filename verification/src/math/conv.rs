//! Convolutions.

pub mod ntt;
pub mod transform;
pub mod unity;
