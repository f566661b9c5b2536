//! Algebraic structures that the range-query trees are generic over.

pub mod fold;
pub mod group;
pub mod monoid;
pub mod monoid_action;
pub mod monoid_impl;
