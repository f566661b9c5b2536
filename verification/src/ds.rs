//! Range-query structures over an implicit binary tree.

pub mod lazy_segtree;
pub mod layout;
pub mod pending;
pub mod potential_dsu;
pub mod range;
pub mod segtree;
