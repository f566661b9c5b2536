//! Polygon
//!
//! Functions for working with polygons in 2D.
//!
//! ## Available Functions
//!
//! - [`signed_area_mul2`]

use vstd::prelude::*;

use crate::geometry::vector_2d;
use crate::geometry::vector_2d::Vector2D;

verus! {

/// The sum of the cross products of the first `k` pairs of neighbouring
/// vertices of `polygon`, the pair of the last and the first vertex being
/// the last one.
pub open spec fn shoelace(polygon: Seq<Vector2D>, k: int) -> int
    decreases k,
{
    if k <= 0 {
        0
    } else {
        shoelace(polygon, k - 1) + vector_2d::cross_product(
            polygon[k - 1]@,
            polygon[k % (polygon.len() as int)]@,
        )
    }
}

/// Twice the signed area of `polygon` by the shoelace formula; `0` for
/// fewer than three vertices.
pub open spec fn signed_area_twice(polygon: Seq<Vector2D>) -> int {
    if polygon.len() < 3 {
        0
    } else {
        shoelace(polygon, polygon.len() as int)
    }
}

/// The cross product of the `k`-th pair of neighbouring vertices, and the
/// sum of the cross products up to it, can be computed in `i64`.
pub open spec fn is_computable(polygon: Seq<Vector2D>, k: int) -> bool {
    let a = polygon[k]@;
    let b = polygon[(k + 1) % (polygon.len() as int)]@;
    &&& i64::MIN <= a.0 * b.1 <= i64::MAX
    &&& i64::MIN <= a.1 * b.0 <= i64::MAX
    &&& i64::MIN <= vector_2d::cross_product(a, b) <= i64::MAX
    &&& i64::MIN <= shoelace(polygon, k + 1) <= i64::MAX
}

/// Computes twice the signed area of a polygon.
///
/// ## Definition
///
/// For a polygon with vertices `p0, p1, .., p(n-1)` (in order), the
/// shoelace formula gives
///
/// `2A = sum { xi y(i+1) - x(i+1) yi }`
///
/// where indices are taken modulo `n`. The sign is
/// - **positive** for vertices in *counter-clockwise* order,
/// - **negative** for vertices in *clockwise* order,
/// - **zero** for a degenerate polygon.
///
/// ## Complexity
///
/// `O(n)`, where `n` is the number of vertices.
pub fn signed_area_mul2(polygon: &[Vector2D]) -> (area: i64)
    requires
        polygon@.len() >= 3 ==> forall|k: int|
            0 <= k < polygon@.len() ==> #[trigger] is_computable(polygon@, k),
    ensures
        area == signed_area_twice(polygon@),
{
    let n = polygon.len();
    if n < 3 {
        return 0;
    }
    let mut area: i64 = 0;
    let mut i: usize = 0;
    while i + 1 < n
        invariant
            n == polygon@.len(),
            n >= 3,
            i + 1 <= n,
            forall|k: int| 0 <= k < polygon@.len() ==> #[trigger] is_computable(polygon@, k),
            area == shoelace(polygon@, i as int),
        decreases n - i,
    {
        proof {
            assert(is_computable(polygon@, i as int));
            vstd::arithmetic::div_mod::lemma_small_mod((i + 1) as nat, n as nat);
        }
        area = area + polygon[i].cross(&polygon[i + 1]);
        i += 1;
    }
    proof {
        assert(is_computable(polygon@, n - 1));
        vstd::arithmetic::div_mod::lemma_mod_self_0(n as int);
    }
    area += polygon[n - 1].cross(&polygon[0]);
    area
}

} // verus!
