//! Plane geometry on integer coordinates.

pub mod angle;
pub mod convex_hull;
pub mod polygon;
pub mod vector_2d;
