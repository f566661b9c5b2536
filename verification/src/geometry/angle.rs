//! Angular Operations
//!
//! Functions for working with angles and polar coordinates in 2D geometry.
//!
//! # Available Functions
//!
//! - [`arg_cmp`]: compares two points by their argument.

use std::cmp::Ordering;

use vstd::prelude::*;

use crate::geometry::vector_2d;
use crate::geometry::vector_2d::Vector2D;

verus! {

/// The point lies in the half of the plane whose arguments come last: the
/// open half-plane below the x-axis, and the negative x-axis.
pub open spec fn is_in_later_half(p: (int, int)) -> bool {
    p.1 < 0 || (p.1 == 0 && p.0 < 0)
}

/// The argument of `a` comes before that of `b`, the arguments running
/// counter-clockwise from the positive x-axis, that of the origin counting
/// as that of the positive x-axis: `a` lies in the earlier half of the
/// plane and `b` in the later one, or both lie in the same half and `b` is
/// counter-clockwise from `a`.
pub open spec fn precedes(a: (int, int), b: (int, int)) -> bool {
    if is_in_later_half(a) == is_in_later_half(b) {
        vector_2d::cross_product(a, b) > 0
    } else {
        is_in_later_half(b)
    }
}

/// Compares two points by their argument (angle from positive x-axis).
///
/// ## Returns
///
/// - [`Ordering::Less`]: the first point has the smaller argument;
/// - [`Ordering::Greater`]: the first point has the larger argument;
/// - [`Ordering::Equal`]: neither, as for two points on one ray from the
///   origin.
///
/// ## Complexity
///
/// `O(1)`
pub fn arg_cmp(a: &Vector2D, b: &Vector2D) -> (order: Ordering)
    requires
        i64::MIN <= b@.0 * a@.1 <= i64::MAX,
        i64::MIN <= a@.0 * b@.1 <= i64::MAX,
    ensures
        order == Ordering::Less <==> precedes(a@, b@),
        order == Ordering::Greater <==> precedes(b@, a@),
{
    let later_a = a.y() < 0 || (a.y() == 0 && a.x() < 0);
    let later_b = b.y() < 0 || (b.y() == 0 && b.x() < 0);
    if later_a != later_b {
        if later_b {
            Ordering::Less
        } else {
            Ordering::Greater
        }
    } else {
        let left = b.x() * a.y();
        let right = a.x() * b.y();
        proof {
            assert(b@.0 * a@.1 == a@.1 * b@.0) by (nonlinear_arith);
            assert(a@.0 * b@.1 == b@.1 * a@.0) by (nonlinear_arith);
        }
        if left < right {
            Ordering::Less
        } else if left == right {
            Ordering::Equal
        } else {
            Ordering::Greater
        }
    }
}

} // verus!
