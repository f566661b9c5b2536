//! Convex Hull
//!
//! ## Definition
//!
//! The **convex hull** of a set `S` of points in the plane is the smallest
//! convex set containing `S`. For a finite `S` it is a convex polygon
//! whose vertices are points of `S`.

use vstd::prelude::*;
use vstd::seq_lib;

use crate::geometry::vector_2d;
use crate::geometry::vector_2d::Vector2D;

verus! {

/// `a` comes before `b`, or is `b`, in the order by x-coordinate, then by
/// y-coordinate.
pub open spec fn is_before_or_at(a: (int, int), b: (int, int)) -> bool {
    a.0 < b.0 || (a.0 == b.0 && a.1 <= b.1)
}

/// The points of `s` are in ascending order by x-coordinate, then by
/// y-coordinate.
pub open spec fn is_ordered(s: Seq<Vector2D>) -> bool {
    forall|i: int, j: int|
        #![trigger s[i], s[j]]
        0 <= i <= j < s.len() ==> is_before_or_at(s[i]@, s[j]@)
}

/// The points of `s` are in strictly ascending order by x-coordinate, then
/// by y-coordinate: in ascending order, and no point twice.
pub open spec fn is_strictly_ordered(s: Seq<Vector2D>) -> bool {
    forall|i: int, j: int|
        #![trigger s[i], s[j]]
        0 <= i < j < s.len() ==> is_before_or_at(s[i]@, s[j]@) && s[i]@ != s[j]@
}

/// How far `p` lies to the left of the directed line from `a` through `b`:
/// the cross product of `b - a` and `p - a`, which is positive where the
/// way from `a` over `b` to `p` turns counter-clockwise, negative where it
/// turns clockwise, and zero where the three are on one line.
pub open spec fn turn(a: (int, int), b: (int, int), p: (int, int)) -> int {
    vector_2d::cross_product(vector_2d::difference(b, a), vector_2d::difference(p, a))
}

/// The turn from `a` over `b` to `p` can be computed in `i64`: the two
/// differences, the two products of the cross product, and the cross
/// product fit.
pub open spec fn is_turn_computable(a: (int, int), b: (int, int), p: (int, int)) -> bool {
    let u = vector_2d::difference(b, a);
    let v = vector_2d::difference(p, a);
    &&& vector_2d::is_representable(u)
    &&& vector_2d::is_representable(v)
    &&& i64::MIN <= u.0 * v.1 <= i64::MAX
    &&& i64::MIN <= u.1 * v.0 <= i64::MAX
    &&& i64::MIN <= turn(a, b, p) <= i64::MAX
}

/// The turn between any three of the points can be computed in `i64`.
pub open spec fn is_computable(points: Seq<Vector2D>) -> bool {
    forall|i: int, j: int, k: int|
        0 <= i < points.len() && 0 <= j < points.len() && 0 <= k < points.len()
            ==> #[trigger] is_turn_computable(points[i]@, points[j]@, points[k]@)
}

/// `a` comes before `b` in the order by x-coordinate, then by
/// y-coordinate.
pub open spec fn is_before(a: (int, int), b: (int, int)) -> bool {
    a.0 < b.0 || (a.0 == b.0 && a.1 < b.1)
}

/// The point `p` mirrored at the origin. Mirroring turns the order of
/// points around, and keeps their turns.
pub open spec fn mirrored(p: (int, int)) -> (int, int) {
    (-p.0, -p.1)
}

/// The cross products of three vectors `u`, `v`, `w` are related by
/// `v.x * (u x w) = w.x * (u x v) + u.x * (v x w)`.
proof fn lemma_cross_products(u: (int, int), v: (int, int), w: (int, int))
    ensures
        v.0 * vector_2d::cross_product(u, w) == w.0 * vector_2d::cross_product(u, v) + u.0
            * vector_2d::cross_product(v, w),
{
    assert(v.0 * (u.0 * w.1 - u.1 * w.0) == w.0 * (u.0 * v.1 - u.1 * v.0) + u.0 * (v.0 * w.1 - v.1
        * w.0)) by (nonlinear_arith);
}

/// Mirroring three points keeps their turn.
proof fn lemma_mirrored_turn(a: (int, int), b: (int, int), p: (int, int))
    ensures
        turn(mirrored(a), mirrored(b), mirrored(p)) == turn(a, b, p),
{
    let (u, v) = (vector_2d::difference(b, a), vector_2d::difference(p, a));
    assert((-u.0) * (-v.1) - (-u.1) * (-v.0) == u.0 * v.1 - u.1 * v.0) by (nonlinear_arith);
}

/// The turn from `b` over `a` to `p` is the opposite of the turn from `a`
/// over `b` to `p`, and so is the turn from `a` over `p` to `b`.
proof fn lemma_opposite_turn(a: (int, int), b: (int, int), p: (int, int))
    ensures
        turn(b, a, p) == -turn(a, b, p),
        turn(a, p, b) == -turn(a, b, p),
{
    let (u, v) = (vector_2d::difference(b, a), vector_2d::difference(p, a));
    assert((-u.0) * (v.1 - u.1) - (-u.1) * (v.0 - u.0) == -(u.0 * v.1 - u.1 * v.0))
        by (nonlinear_arith);
}

/// A chain that turns left at `b` and at `c` and sweeps on to `p` turns
/// left from `a` over `b` to `p` as well: `p` lies left of the edge before
/// the last one.
proof fn lemma_chain_turn(a: (int, int), b: (int, int), c: (int, int), p: (int, int))
    requires
        (is_before(a, b) && is_before(b, c) && is_before(c, p)) || (is_before(p, c) && is_before(
            c,
            b,
        ) && is_before(b, a)),
        turn(a, b, c) > 0,
        turn(b, c, p) > 0,
    ensures
        turn(a, b, p) > 0,    decreases
            (if is_before(b, a) {
                1nat
            } else {
                0nat
            }),
{
    if is_before(b, a) {
        lemma_mirrored_turn(a, b, c);
        lemma_mirrored_turn(b, c, p);
        lemma_mirrored_turn(a, b, p);
        lemma_chain_turn(mirrored(a), mirrored(b), mirrored(c), mirrored(p));
    } else {
        let u = vector_2d::difference(b, a);
        let v = vector_2d::difference(c, b);
        let w = vector_2d::difference(p, c);
        lemma_cross_products(u, v, w);
        let (uv, vw, uw) = (
            vector_2d::cross_product(u, v),
            vector_2d::cross_product(v, w),
            vector_2d::cross_product(u, w),
        );
        assert(turn(a, b, c) == uv) by (nonlinear_arith)
            requires
                turn(a, b, c) == u.0 * (u.1 + v.1) - u.1 * (u.0 + v.0),
                uv == u.0 * v.1 - u.1 * v.0,
        ;
        assert(turn(b, c, p) == vw) by (nonlinear_arith)
            requires
                turn(b, c, p) == v.0 * (v.1 + w.1) - v.1 * (v.0 + w.0),
                vw == v.0 * w.1 - v.1 * w.0,
        ;
        assert(turn(a, b, p) == uv + uw) by (nonlinear_arith)
            requires
                turn(a, b, p) == u.0 * (u.1 + v.1 + w.1) - u.1 * (u.0 + v.0 + w.0),
                uv == u.0 * v.1 - u.1 * v.0,
                uw == u.0 * w.1 - u.1 * w.0,
        ;
        // `v` points to the right, as it turns left towards `w`, which does not point left
        assert(v.0 > 0) by (nonlinear_arith)
            requires
                v.0 * w.1 - v.1 * w.0 > 0,
                v.0 >= 0,
                v.0 == 0 ==> v.1 > 0,
                w.0 >= 0,
        ;
        assert(uw >= 0) by (nonlinear_arith)
            requires
                v.0 * uw == w.0 * uv + u.0 * vw,
                v.0 > 0,
                w.0 >= 0,
                u.0 >= 0,
                uv > 0,
                vw > 0,
        ;
    }
}

/// A point `q` at or before `b` that is on or left of the edge from `a` to
/// `b` is on or left of an edge from `b` on that turns left.
proof fn lemma_turn_before(a: (int, int), b: (int, int), p: (int, int), q: (int, int))
    requires
        (is_before(a, b) && is_before(b, p) && is_before_or_at(q, b)) || (is_before(p, b)
            && is_before(b, a) && is_before_or_at(b, q)),
        turn(a, b, q) >= 0,
        turn(a, b, p) > 0,
    ensures
        turn(b, p, q) >= 0,    decreases
            (if is_before(b, a) {
                1nat
            } else {
                0nat
            }),
{
    if is_before(b, a) {
        lemma_mirrored_turn(a, b, q);
        lemma_mirrored_turn(a, b, p);
        lemma_mirrored_turn(b, p, q);
        lemma_turn_before(mirrored(a), mirrored(b), mirrored(p), mirrored(q));
    } else {
        let u = vector_2d::difference(b, a);
        let w = vector_2d::difference(p, b);
        let d = vector_2d::difference(q, b);
        lemma_cross_products(w, u, d);
        let (ud, uw, wd, wu) = (
            vector_2d::cross_product(u, d),
            vector_2d::cross_product(u, w),
            vector_2d::cross_product(w, d),
            vector_2d::cross_product(w, u),
        );
        assert(turn(a, b, q) == ud) by (nonlinear_arith)
            requires
                turn(a, b, q) == u.0 * (u.1 + d.1) - u.1 * (u.0 + d.0),
                ud == u.0 * d.1 - u.1 * d.0,
        ;
        assert(turn(a, b, p) == uw && wu == -uw) by (nonlinear_arith)
            requires
                turn(a, b, p) == u.0 * (u.1 + w.1) - u.1 * (u.0 + w.0),
                uw == u.0 * w.1 - u.1 * w.0,
                wu == w.0 * u.1 - w.1 * u.0,
        ;
        assert(turn(b, p, q) == wd);
        assert(u.0 > 0) by (nonlinear_arith)
            requires
                u.0 * w.1 - u.1 * w.0 > 0,
                u.0 >= 0,
                u.0 == 0 ==> u.1 > 0,
                w.0 >= 0,
        ;
        assert(wd >= 0) by (nonlinear_arith)
            requires
                u.0 * wd == d.0 * wu + w.0 * ud,
                u.0 > 0,
                d.0 <= 0,
                wu < 0,
                w.0 >= 0,
                ud >= 0,
        ;
    }
}

/// Where `b` is on or right of the way from `a` to `p`, a point `q`
/// between `a` and `b` that is on or left of the edge from `a` to `b` is
/// on or left of the edge from `a` to `p`.
proof fn lemma_turn_between(a: (int, int), b: (int, int), p: (int, int), q: (int, int))
    requires
        (is_before(a, q) && is_before(q, b) && is_before(b, p)) || (is_before(p, b) && is_before(
            b,
            q,
        ) && is_before(q, a)),
        turn(a, b, q) >= 0,
        turn(a, b, p) <= 0,
    ensures
        turn(a, p, q) >= 0,    decreases
            (if is_before(b, a) {
                1nat
            } else {
                0nat
            }),
{
    if is_before(b, a) {
        lemma_mirrored_turn(a, b, q);
        lemma_mirrored_turn(a, b, p);
        lemma_mirrored_turn(a, p, q);
        lemma_turn_between(mirrored(a), mirrored(b), mirrored(p), mirrored(q));
    } else {
        let b1 = vector_2d::difference(b, a);
        let p1 = vector_2d::difference(p, a);
        let q1 = vector_2d::difference(q, a);
        lemma_cross_products(p1, b1, q1);
        let (bq, bp, pq, pb) = (
            vector_2d::cross_product(b1, q1),
            vector_2d::cross_product(b1, p1),
            vector_2d::cross_product(p1, q1),
            vector_2d::cross_product(p1, b1),
        );
        assert(pb == -bp) by (nonlinear_arith)
            requires
                pb == p1.0 * b1.1 - p1.1 * b1.0,
                bp == b1.0 * p1.1 - b1.1 * p1.0,
        ;
        if b1.0 > 0 {
            assert(pq >= 0) by (nonlinear_arith)
                requires
                    b1.0 * pq == q1.0 * pb + p1.0 * bq,
                    b1.0 > 0,
                    q1.0 >= 0,
                    p1.0 >= 0,
                    pb >= 0,
                    bq >= 0,
            ;
        } else {
            // `q` is straight above `a`, and `p` not to the left of it
            assert(pq >= 0) by (nonlinear_arith)
                requires
                    pq == p1.0 * q1.1 - p1.1 * q1.0,
                    q1.0 == 0,
                    q1.1 > 0,
                    p1.0 >= 0,
            ;
        }
    }
}

/// Where `b` is on or right of the way from `a` to `p`, a point `q`
/// between `b` and `p` that is on or left of the edge from `b` to `p` is
/// on or left of the edge from `a` to `p`.
proof fn lemma_turn_after(a: (int, int), b: (int, int), p: (int, int), q: (int, int))
    requires
        (is_before(a, b) && is_before(b, q) && is_before(q, p)) || (is_before(p, q) && is_before(
            q,
            b,
        ) && is_before(b, a)),
        turn(a, b, p) <= 0,
        turn(b, p, q) >= 0,
    ensures
        turn(a, p, q) >= 0,    decreases
            (if is_before(b, a) {
                1nat
            } else {
                0nat
            }),
{
    if is_before(b, a) {
        lemma_mirrored_turn(a, b, p);
        lemma_mirrored_turn(b, p, q);
        lemma_mirrored_turn(a, p, q);
        lemma_turn_after(mirrored(a), mirrored(b), mirrored(p), mirrored(q));
    } else {
        // seen from `p`
        let a1 = vector_2d::difference(a, p);
        let b1 = vector_2d::difference(b, p);
        let q1 = vector_2d::difference(q, p);
        lemma_cross_products(q1, b1, a1);
        let (qb, ba, qa) = (
            vector_2d::cross_product(q1, b1),
            vector_2d::cross_product(b1, a1),
            vector_2d::cross_product(q1, a1),
        );
        assert(turn(b, p, q) == qb) by (nonlinear_arith)
            requires
                turn(b, p, q) == (-b1.0) * (q1.1 - b1.1) - (-b1.1) * (q1.0 - b1.0),
                qb == q1.0 * b1.1 - q1.1 * b1.0,
        ;
        assert(turn(a, b, p) == -ba) by (nonlinear_arith)
            requires
                turn(a, b, p) == (b1.0 - a1.0) * (-a1.1) - (b1.1 - a1.1) * (-a1.0),
                ba == b1.0 * a1.1 - b1.1 * a1.0,
        ;
        assert(turn(a, p, q) == qa) by (nonlinear_arith)
            requires
                turn(a, p, q) == (-a1.0) * (q1.1 - a1.1) - (-a1.1) * (q1.0 - a1.0),
                qa == q1.0 * a1.1 - q1.1 * a1.0,
        ;
        if b1.0 < 0 {
            assert(qa >= 0) by (nonlinear_arith)
                requires
                    b1.0 * qa == a1.0 * qb + q1.0 * ba,
                    b1.0 < 0,
                    a1.0 <= 0,
                    q1.0 <= 0,
                    qb >= 0,
                    ba >= 0,
            ;
        } else {
            // `b` and `q` are straight below `p`, and so is `a`
            assert(a1.0 == 0) by (nonlinear_arith)
                requires
                    ba == b1.0 * a1.1 - b1.1 * a1.0,
                    ba >= 0,
                    b1.0 == 0,
                    b1.1 < 0,
                    a1.0 <= 0,
            ;
            assert(qa == 0) by (nonlinear_arith)
                requires
                    qa == q1.0 * a1.1 - q1.1 * a1.0,
                    q1.0 == 0,
                    a1.0 == 0,
            ;
        }
    }
}

/// The points of `chain` turn counter-clockwise at each of its points but
/// the first and the last.
pub open spec fn is_left_turning(chain: Seq<Vector2D>) -> bool {
    forall|i: int|
        0 <= i && i + 2 < chain.len() ==> #[trigger] turn(chain[i]@, chain[i + 1]@, chain[i + 2]@)
            > 0
}

/// [`slice::sort_unstable_by_key`] with the pair of the coordinates as the
/// key puts the points into ascending order by x-coordinate, then by
/// y-coordinate.
#[verifier::external_body]
fn sort_by_coordinates(pts: &mut Vec<Vector2D>)
    ensures
        is_ordered(final(pts)@),
        final(pts)@.to_multiset() == old(pts)@.to_multiset(),
{
    pts.sort_unstable_by_key(|point| (point.x(), point.y()));
}

/// Returns the turn from `a` over `b` to `p`.
fn turn_of(a: Vector2D, b: Vector2D, p: Vector2D) -> (t: i64)
    requires
        is_turn_computable(a@, b@, p@),
    ensures
        t == turn(a@, b@, p@),
{
    b.sub(&a).cross(&p.sub(&a))
}

/// Returns the points of `points` in ascending order by x-coordinate, then
/// by y-coordinate, each of them once.
fn sorted_distinct(points: &[Vector2D]) -> (pts: Vec<Vector2D>)
    ensures
        is_strictly_ordered(pts@),
        forall|p: Vector2D| pts@.contains(p) <==> points@.contains(p),
{
    let mut sorted: Vec<Vector2D> = Vec::with_capacity(points.len());
    let mut i: usize = 0;
    while i < points.len()
        invariant
            i <= points@.len(),
            sorted@ == points@.subrange(0, i as int),
        decreases points@.len() - i,
    {
        sorted.push(points[i]);
        proof {
            assert(sorted@ =~= points@.subrange(0, i + 1));
        }
        i += 1;
    }
    proof {
        assert(points@.subrange(0, points@.len() as int) =~= points@);
    }
    sort_by_coordinates(&mut sorted);
    proof {
        assert forall|p: Vector2D| sorted@.contains(p) <==> points@.contains(p) by {
            seq_lib::to_multiset_contains(sorted@, p);
            seq_lib::to_multiset_contains(points@, p);
        }
    }
    let mut pts: Vec<Vector2D> = Vec::new();
    let mut i: usize = 0;
    while i < sorted.len()
        invariant
            i <= sorted@.len(),
            is_ordered(sorted@),
            is_strictly_ordered(pts@),
            pts@.len() <= i,
            forall|k: int| 0 <= k < pts@.len() ==> sorted@.contains(#[trigger] pts@[k]),
            forall|k: int| 0 <= k < i ==> pts@.contains(#[trigger] sorted@[k]),
            i > 0 ==> pts@.len() > 0 && pts@[pts@.len() - 1] == sorted@[i - 1],
        decreases sorted@.len() - i,
    {
        let p = sorted[i];
        let ghost before = pts@;
        let n = pts.len();
        if n == 0 || pts[n - 1].x() != p.x() || pts[n - 1].y() != p.y() {
            pts.push(p);
            proof {
                assert(pts@[n as int] == p);
                assert forall|k: int| 0 <= k < i + 1 implies pts@.contains(#[trigger] sorted@[k]) by {
                    if k < i {
                        let at = choose|at: int| 0 <= at < before.len() && before[at] == sorted@[k];
                        assert(pts@[at] == sorted@[k]);
                    }
                }
                assert forall|a: int, b: int|
                    #![trigger pts@[a], pts@[b]]
                    0 <= a < b < pts@.len() implies is_before_or_at(
                    pts@[a]@,
                    pts@[b]@,
                ) && pts@[a]@ != pts@[b]@ by {
                    if b == n {
                        // `pts[a]` is not after the last point before, which is before `p`
                        let last = before[n - 1];
                        assert(pts@[a] == before[a] && pts@[b] == p);
                        assert(last == sorted@[i - 1]);
                        assert(is_before_or_at(sorted@[i - 1]@, sorted@[i as int]@));
                        if a < n - 1 {
                            assert(is_before_or_at(before[a]@, before[n - 1]@));
                        }
                    } else {
                        assert(pts@[a] == before[a] && pts@[b] == before[b]);
                        assert(is_before_or_at(before[a]@, before[b]@) && before[a]@ != before[b]@);
                    }
                }
            }
        } else {
            proof {
                assert(pts@[n - 1]@ == p@);
                assert(pts@[n - 1] == p);
            }
        }
        i += 1;
    }
    proof {
        assert forall|p: Vector2D| pts@.contains(p) <==> points@.contains(p) by {
            if pts@.contains(p) {
                let k = choose|k: int| 0 <= k < pts@.len() && pts@[k] == p;
                assert(sorted@.contains(pts@[k]));
            }
            if sorted@.contains(p) {
                let k = choose|k: int| 0 <= k < sorted@.len() && sorted@[k] == p;
                assert(pts@.contains(sorted@[k]));
            }
        }
    }
    pts
}

/// `a` comes before `b` in the direction of a sweep over the points:
/// forwards in the order by x-coordinate, then by y-coordinate, or
/// backwards.
pub open spec fn is_ahead(a: (int, int), b: (int, int), forwards: bool) -> bool {
    if forwards {
        is_before(a, b)
    } else {
        is_before(b, a)
    }
}

/// The points of `chain` come one before the other in the direction of
/// the sweep.
pub open spec fn is_monotone(chain: Seq<Vector2D>, forwards: bool) -> bool {
    forall|j: int, k: int|
        #![trigger chain[j], chain[k]]
        0 <= j < k < chain.len() ==> is_ahead(chain[j]@, chain[k]@, forwards)
}

/// The point `q` is on or left of every edge of `chain`.
pub open spec fn is_left_of(chain: Seq<Vector2D>, q: (int, int)) -> bool {
    forall|j: int| 0 <= j && j + 1 < chain.len() ==> #[trigger] turn(chain[j]@, chain[j + 1]@, q) >= 0
}

/// `chain` is the part of the hull of the points `seen` that a sweep in
/// the given direction builds: it leads from the first to the last of the
/// points in that direction, turns left at each of its inner points, and
/// has every point on or left of each of its edges.
pub open spec fn is_hull_chain(chain: Seq<Vector2D>, seen: Seq<Vector2D>, forwards: bool) -> bool {
    &&& chain.len() >= 1
    &&& is_monotone(chain, forwards)
    &&& is_left_turning(chain)
    &&& forall|k: int|
        0 <= k < seen.len() ==> {
            &&& is_left_of(chain, (#[trigger] seen[k])@)
            &&& !is_ahead(seen[k]@, chain[0]@, forwards)
            &&& !is_ahead(chain[chain.len() - 1]@, seen[k]@, forwards)
        }
}

/// What holds of the rest of a chain while points are taken off its end
/// to make room for the next point `p` of the sweep: it is as it was, but
/// for its end, and the points beyond its end are on or left of the edge
/// from its end to `p`.
pub open spec fn is_open_chain(
    chain: Seq<Vector2D>,
    seen: Seq<Vector2D>,
    p: (int, int),
    forwards: bool,
) -> bool {
    &&& chain.len() >= 1
    &&& is_monotone(chain, forwards)
    &&& is_left_turning(chain)
    &&& is_ahead(chain[chain.len() - 1]@, p, forwards)
    &&& forall|k: int|
        0 <= k < seen.len() ==> {
            &&& is_left_of(chain, (#[trigger] seen[k])@)
            &&& !is_ahead(seen[k]@, chain[0]@, forwards)
            &&& is_ahead(seen[k]@, p, forwards)
            &&& is_ahead(chain[chain.len() - 1]@, seen[k]@, forwards) ==> turn(
                chain[chain.len() - 1]@,
                p,
                seen[k]@,
            ) >= 0
        }
}

/// A chain is open for every point beyond its last point.
proof fn lemma_open(chain: Seq<Vector2D>, seen: Seq<Vector2D>, p: (int, int), forwards: bool)
    requires
        is_hull_chain(chain, seen, forwards),
        is_ahead(chain[chain.len() - 1]@, p, forwards),
    ensures
        is_open_chain(chain, seen, p, forwards),
{
    assert forall|k: int| 0 <= k < seen.len() implies is_ahead(
        (#[trigger] seen[k])@,
        p,
        forwards,
    ) by {}
}

/// Taking the last point off an open chain, where the way over it to `p`
/// does not turn left, leaves an open chain.
proof fn lemma_pop(chain: Seq<Vector2D>, seen: Seq<Vector2D>, p: (int, int), forwards: bool)
    requires
        is_open_chain(chain, seen, p, forwards),
        chain.len() >= 2,
        turn(chain[chain.len() - 2]@, chain[chain.len() - 1]@, p) <= 0,
    ensures
        is_open_chain(chain.drop_last(), seen, p, forwards),
{
    let rest = chain.drop_last();
    let a = chain[chain.len() - 2];
    let b = chain[chain.len() - 1];
    assert(is_ahead(a@, b@, forwards));
    assert forall|j: int| 0 <= j && j + 2 < rest.len() implies #[trigger] turn(
        rest[j]@,
        rest[j + 1]@,
        rest[j + 2]@,
    ) > 0 by {
        assert(turn(chain[j]@, chain[j + 1]@, chain[j + 2]@) > 0);
    }
    assert forall|k: int| 0 <= k < seen.len() implies {
        &&& is_left_of(rest, (#[trigger] seen[k])@)
        &&& !is_ahead(seen[k]@, rest[0]@, forwards)
        &&& is_ahead(seen[k]@, p, forwards)
        &&& is_ahead(rest[rest.len() - 1]@, seen[k]@, forwards) ==> turn(
            rest[rest.len() - 1]@,
            p,
            seen[k]@,
        ) >= 0
    } by {
        let q = seen[k]@;
        assert(is_left_of(chain, q));
        assert forall|j: int| 0 <= j && j + 1 < rest.len() implies #[trigger] turn(
            rest[j]@,
            rest[j + 1]@,
            q,
        ) >= 0 by {
            assert(turn(chain[j]@, chain[j + 1]@, q) >= 0);
        }
        if is_ahead(a@, q, forwards) {
            if q == b@ {
                lemma_opposite_turn(a@, b@, p);
            } else if is_ahead(b@, q, forwards) {
                lemma_turn_after(a@, b@, p, q);
            } else {
                assert(turn(chain[chain.len() - 2]@, chain[chain.len() - 2 + 1]@, q) >= 0);
                lemma_turn_between(a@, b@, p, q);
            }
        }
    }
}

/// The next point `p` of the sweep lies left of every edge of a chain
/// that turns left, and turns left from its last edge to `p`.
proof fn lemma_left_of_chain(chain: Seq<Vector2D>, p: (int, int), forwards: bool, j: int)
    requires
        is_monotone(chain, forwards),
        is_left_turning(chain),
        chain.len() >= 2,
        is_ahead(chain[chain.len() - 1]@, p, forwards),
        turn(chain[chain.len() - 2]@, chain[chain.len() - 1]@, p) > 0,
        0 <= j,
        j + 1 < chain.len(),
    ensures
        turn(chain[j]@, chain[j + 1]@, p) > 0,
    decreases chain.len() - j,
{
    if j + 2 < chain.len() {
        lemma_left_of_chain(chain, p, forwards, j + 1);
        assert(turn(chain[j]@, chain[j + 1]@, chain[j + 2]@) > 0);
        assert(is_ahead(chain[j]@, chain[j + 1]@, forwards));
        assert(is_ahead(chain[j + 1]@, chain[j + 2]@, forwards));
        assert(is_ahead(chain[j + 2]@, p, forwards)) by {
            if j + 2 < chain.len() - 1 {
                assert(is_ahead(chain[j + 2]@, chain[chain.len() - 1]@, forwards));
            }
        }
        lemma_chain_turn(chain[j]@, chain[j + 1]@, chain[j + 2]@, p);
    }
}

/// Putting the next point of the sweep at the end of an open chain, where
/// the way over the end to it turns left, gives the chain of the hull of
/// the points with that point.
proof fn lemma_push(chain: Seq<Vector2D>, seen: Seq<Vector2D>, p: Vector2D, forwards: bool)
    requires
        is_open_chain(chain, seen, p@, forwards),
        chain.len() >= 2 ==> turn(chain[chain.len() - 2]@, chain[chain.len() - 1]@, p@) > 0,
    ensures
        is_hull_chain(chain.push(p), seen.push(p), forwards),
{
    let longer = chain.push(p);
    let all = seen.push(p);
    let top = chain[chain.len() - 1];
    assert forall|j: int, k: int|
        #![trigger longer[j], longer[k]]
        0 <= j < k < longer.len() implies is_ahead(longer[j]@, longer[k]@, forwards) by {
        if k == chain.len() && j < chain.len() - 1 {
            assert(is_ahead(chain[j]@, chain[chain.len() - 1]@, forwards));
        }
        if k < chain.len() {
            assert(is_ahead(chain[j]@, chain[k]@, forwards));
        }
    }
    assert forall|j: int| 0 <= j && j + 2 < longer.len() implies #[trigger] turn(
        longer[j]@,
        longer[j + 1]@,
        longer[j + 2]@,
    ) > 0 by {
        if j + 2 < chain.len() {
            assert(turn(chain[j]@, chain[j + 1]@, chain[j + 2]@) > 0);
        }
    }
    assert forall|k: int| 0 <= k < all.len() implies {
        &&& is_left_of(longer, (#[trigger] all[k])@)
        &&& !is_ahead(all[k]@, longer[0]@, forwards)
        &&& !is_ahead(longer[longer.len() - 1]@, all[k]@, forwards)
    } by {
        let q = all[k]@;
        if k < seen.len() {
            assert(all[k] == seen[k]);
            assert(is_left_of(chain, q));
        }
        assert(!is_ahead(q, longer[0]@, forwards)) by {
            if k == seen.len() && chain.len() > 1 {
                assert(is_ahead(chain[0]@, chain[chain.len() - 1]@, forwards));
            }
        }
        assert forall|j: int| 0 <= j && j + 1 < longer.len() implies #[trigger] turn(
            longer[j]@,
            longer[j + 1]@,
            q,
        ) >= 0 by {
            if j + 1 < chain.len() {
                if k < seen.len() {
                    assert(turn(chain[j]@, chain[j + 1]@, q) >= 0);
                } else {
                    lemma_left_of_chain(chain, p@, forwards, j);
                }
            } else if k == seen.len() || q == top@ {
                // the turn from a point over another and back to it, or on to that one
                lemma_opposite_turn(top@, p@, q);
                assert(turn(top@, q, p@) == 0 || turn(top@, p@, q) == 0) by (nonlinear_arith)
                    requires
                        q == p@ || q == top@,
                        turn(top@, q, p@) == (q.0 - top@.0) * (p@.1 - top@.1) - (q.1 - top@.1) * (
                        p@.0 - top@.0),
                        turn(top@, p@, q) == (p@.0 - top@.0) * (q.1 - top@.1) - (p@.1 - top@.1) * (
                        q.0 - top@.0),
                ;
            } else if !is_ahead(top@, q, forwards) {
                if chain.len() >= 2 {
                    let a = chain[chain.len() - 2];
                    assert(is_ahead(a@, top@, forwards));
                    assert(turn(chain[chain.len() - 2]@, chain[chain.len() - 2 + 1]@, q) >= 0);
                    lemma_turn_before(a@, top@, p@, q);
                }
            }
        }
    }
}

/// `hull` is the convex hull of `points`, as a polygon in counter-clockwise
/// order from the first of the points in the order by x-coordinate, then by
/// y-coordinate: its vertices are points of `points`, every point of
/// `points` is on or left of each of its edges, and it turns left at each
/// of its vertices. Where it has fewer than three vertices, all the points
/// are on one line, or at one place, and its vertices are the first and
/// the last of them.
pub open spec fn is_hull(hull: Seq<Vector2D>, points: Seq<Vector2D>) -> bool {
    let m = hull.len() as int;
    &&& m >= 1
    &&& forall|j: int| 0 <= j < m ==> points.contains(#[trigger] hull[j])
    &&& forall|k: int| 0 <= k < points.len() ==> is_before_or_at(hull[0]@, (#[trigger] points[k])@)
    &&& forall|k: int|
        0 <= k < points.len() ==> is_before_or_at((#[trigger] points[k])@, hull[m - 1]@) || m >= 3
    &&& m == 2 ==> hull[0]@ != hull[1]@
    &&& forall|j: int, k: int|
        0 <= j < m && 0 <= k < points.len() ==> #[trigger] turn(
            hull[j]@,
            hull[(j + 1) % m]@,
            points[k]@,
        ) >= 0
    &&& m >= 3 ==> forall|j: int|
        0 <= j < m ==> #[trigger] turn(hull[j]@, hull[(j + 1) % m]@, hull[(j + 2) % m]@) > 0
}

/// Computes the convex hull by Andrew's monotone chain algorithm.
///
/// ## Returns
///
/// The vertices of the convex hull in counter-clockwise order, from the
/// first point in the order by x-coordinate, then by y-coordinate, on;
/// no vertex for no point. Where all the points are on one line, these
/// are the two ends of the part of the line that holds them.
///
/// ## Complexity
///
/// `O(n log n)`
pub fn andrew(points: &[Vector2D]) -> (hull: Vec<Vector2D>)
    requires
        is_computable(points@),
    ensures
        points@.len() == 0 ==> hull@.len() == 0,
        points@.len() > 0 ==> is_hull(hull@, points@),
{
    let pts = sorted_distinct(points);
    let n = pts.len();
    proof {
        assert forall|i: int, j: int, k: int|
            0 <= i < n && 0 <= j < n && 0 <= k < n implies #[trigger] is_turn_computable(
            pts@[i]@,
            pts@[j]@,
            pts@[k]@,
        ) by {
            assert(pts@.contains(pts@[i]) && pts@.contains(pts@[j]) && pts@.contains(pts@[k]));
            let a = choose|a: int| 0 <= a < points@.len() && points@[a] == pts@[i];
            let b = choose|b: int| 0 <= b < points@.len() && points@[b] == pts@[j];
            let c = choose|c: int| 0 <= c < points@.len() && points@[c] == pts@[k];
            assert(is_turn_computable(points@[a]@, points@[b]@, points@[c]@));
        }
        if points@.len() > 0 {
            assert(pts@.contains(points@[0]));
        }
    }
    if n <= 2 {
        proof {
            if n > 0 {
                assert(pts@.contains(pts@[0]));
                lemma_hull_of_few(pts@, points@);
            }
        }
        return pts;
    }
    let mut hull: Vec<Vector2D> = Vec::new();
    let mut i: usize = 0;
    while i < n
        invariant
            n == pts@.len(),
            n >= 3,
            i <= n,
            is_computable(pts@),
            is_strictly_ordered(pts@),
            forall|k: int| 0 <= k < hull@.len() ==> pts@.contains(#[trigger] hull@[k]),
            i == 0 ==> hull@.len() == 0,
            i > 0 ==> is_hull_chain(hull@, pts@.subrange(0, i as int), true) && hull@[0] == pts@[0]
                && hull@[hull@.len() - 1] == pts@[i - 1],
            i > 1 ==> hull@.len() >= 2,
        decreases n - i,
    {
        let pt = pts[i];
        let ghost seen = pts@.subrange(0, i as int);
        proof {
            if i > 0 {
                lemma_open(hull@, seen, pt@, true);
            }
        }
        while hull.len() >= 2
            invariant
                n == pts@.len(),
                i < n,
                pt == pts@[i as int],
                seen == pts@.subrange(0, i as int),
                is_computable(pts@),
                forall|k: int| 0 <= k < hull@.len() ==> pts@.contains(#[trigger] hull@[k]),
                i == 0 ==> hull@.len() == 0,
                i > 0 ==> is_open_chain(hull@, seen, pt@, true) && hull@[0] == pts@[0],
            ensures
                hull@.len() >= 2 ==> turn(hull@[hull@.len() - 2]@, hull@[hull@.len() - 1]@, pt@) > 0,
            decreases hull@.len(),
        {
            let a = hull[hull.len() - 2];
            let b = hull[hull.len() - 1];
            proof {
                let ia = choose|ia: int| 0 <= ia < n && pts@[ia] == a;
                let ib = choose|ib: int| 0 <= ib < n && pts@[ib] == b;
                assert(is_turn_computable(pts@[ia]@, pts@[ib]@, pts@[i as int]@));
            }
            if turn_of(a, b, pt) <= 0 {
                proof {
                    lemma_pop(hull@, seen, pt@, true);
                }
                hull.pop();
            } else {
                break ;
            }
        }
        proof {
            assert(pts@.contains(pts@[i as int]));
            assert(pts@.subrange(0, i + 1) =~= seen.push(pt));
            if i > 0 {
                lemma_push(hull@, seen, pt, true);
            } else {
                lemma_single(pt);
                assert(hull@.push(pt) =~= seq![pt]);
                assert(seen.push(pt) =~= seq![pt]);
            }
        }
        hull.push(pt);
        i += 1;
    }
    let lower_len = hull.len();
    let ghost lower = hull@;
    proof {
        assert(pts@.subrange(0, n as int) =~= pts@);
        assert(hull@.subrange(lower_len - 1, lower_len as int) =~= seq![pts@[n - 1]]);
        assert(pts@.subrange(n - 1, n as int) =~= seq![pts@[n - 1]]);
        lemma_single(pts@[n - 1]);
    }
    let mut i: usize = n - 1;
    while i > 0
        invariant
            n == pts@.len(),
            n >= 3,
            i < n,
            is_computable(pts@),
            is_strictly_ordered(pts@),
            lower_len == lower.len(),
            lower_len >= 2,
            hull@.len() >= lower_len,
            hull@.subrange(0, lower_len as int) == lower,
            forall|k: int| 0 <= k < hull@.len() ==> pts@.contains(#[trigger] hull@[k]),
            i < n - 1 ==> hull@.len() > lower_len,
            is_hull_chain(
                hull@.subrange(lower_len - 1, hull@.len() as int),
                pts@.subrange(i as int, n as int),
                false,
            ),
            hull@[lower_len - 1] == pts@[n - 1],
            hull@[hull@.len() - 1] == pts@[i as int],
        decreases i,
    {
        let ghost seen = pts@.subrange(i as int, n as int);
        i -= 1;
        let pt = pts[i];
        proof {
            assert(is_before(pts@[i as int]@, pts@[i + 1]@));
            lemma_open(hull@.subrange(lower_len - 1, hull@.len() as int), seen, pt@, false);
        }
        while hull.len() > lower_len
            invariant
                n == pts@.len(),
                i < n - 1,
                pt == pts@[i as int],
                seen == pts@.subrange(i + 1, n as int),
                is_computable(pts@),
                lower_len == lower.len(),
                lower_len >= 2,
                hull@.len() >= lower_len,
                hull@.subrange(0, lower_len as int) == lower,
                forall|k: int| 0 <= k < hull@.len() ==> pts@.contains(#[trigger] hull@[k]),
                is_open_chain(hull@.subrange(lower_len - 1, hull@.len() as int), seen, pt@, false),
                hull@[lower_len - 1] == pts@[n - 1],
            ensures
                hull@.len() > lower_len ==> turn(
                    hull@[hull@.len() - 2]@,
                    hull@[hull@.len() - 1]@,
                    pt@,
                ) > 0,
            decreases hull@.len(),
        {
            let a = hull[hull.len() - 2];
            let b = hull[hull.len() - 1];
            proof {
                let ia = choose|ia: int| 0 <= ia < n && pts@[ia] == a;
                let ib = choose|ib: int| 0 <= ib < n && pts@[ib] == b;
                assert(is_turn_computable(pts@[ia]@, pts@[ib]@, pts@[i as int]@));
            }
            let ghost before = hull@;
            if turn_of(a, b, pt) <= 0 {
                proof {
                    let upper = before.subrange(lower_len - 1, before.len() as int);
                    assert(upper[upper.len() - 2] == a && upper[upper.len() - 1] == b);
                    lemma_pop(upper, seen, pt@, false);
                }
                hull.pop();
                proof {
                    assert(hull@.subrange(0, lower_len as int) =~= before.subrange(
                        0,
                        lower_len as int,
                    ));
                    assert(hull@.subrange(lower_len - 1, hull@.len() as int) =~= before.subrange(
                        lower_len - 1,
                        before.len() as int,
                    ).drop_last());
                }
            } else {
                break ;
            }
        }
        proof {
            assert(pts@.contains(pts@[i as int]));
        }
        let ghost before = hull@;
        hull.push(pt);
        proof {
            let upper = before.subrange(lower_len - 1, before.len() as int);
            assert(hull@.subrange(0, lower_len as int) =~= before.subrange(0, lower_len as int));
            assert(hull@.subrange(lower_len - 1, hull@.len() as int) =~= upper.push(pt));
            if upper.len() >= 2 {
                assert(upper[upper.len() - 2] == before[before.len() - 2]);
            }
            lemma_push(upper, seen, pt, false);
            let all = seen.push(pt);
            let other = pts@.subrange(i as int, n as int);
            assert forall|k: int| 0 <= k < other.len() implies all.contains(#[trigger] other[k]) by {
                if k == 0 {
                    assert(all[seen.len() as int] == other[k]);
                } else {
                    assert(all[k - 1] == other[k]);
                }
            }
            lemma_same_points(all, other, upper.push(pt));
        }
    }
    let ghost before = hull@;
    hull.pop();
    proof {
        let upper = before.subrange(lower_len - 1, before.len() as int);
        assert(pts@.subrange(0, n as int) =~= pts@);
        assert(hull@ =~= lower + upper.subrange(1, upper.len() - 1));
        lemma_closed(lower, upper, pts@, points@);
    }
    hull
}

/// A single point is the chain of its own hull, in either direction.
proof fn lemma_single(p: Vector2D)
    ensures
        is_hull_chain(seq![p], seq![p], true),
        is_hull_chain(seq![p], seq![p], false),
{
    assert(seq![p][0] == p);
}

/// A chain of the hull of some points is the chain of the hull of any
/// points that are the same.
proof fn lemma_same_points(seen: Seq<Vector2D>, other: Seq<Vector2D>, chain: Seq<Vector2D>)
    requires
        is_hull_chain(chain, seen, false),
        forall|k: int| 0 <= k < other.len() ==> seen.contains(#[trigger] other[k]),
    ensures
        is_hull_chain(chain, other, false),
{
    assert forall|k: int| 0 <= k < other.len() implies {
        &&& is_left_of(chain, (#[trigger] other[k])@)
        &&& !is_ahead(other[k]@, chain[0]@, false)
        &&& !is_ahead(chain[chain.len() - 1]@, other[k]@, false)
    } by {
        let at = choose|at: int| 0 <= at < seen.len() && seen[at] == other[k];
        assert(is_left_of(chain, seen[at]@));
    }
}

/// One point, or two, are their own hull.
proof fn lemma_hull_of_few(pts: Seq<Vector2D>, points: Seq<Vector2D>)
    requires
        1 <= pts.len() <= 2,
        is_strictly_ordered(pts),
        forall|p: Vector2D| pts.contains(p) <==> points.contains(p),
    ensures
        is_hull(pts, points),
{
    let m = pts.len() as int;
    assert forall|j: int| 0 <= j < m implies points.contains(#[trigger] pts[j]) by {
        assert(pts.contains(pts[j]));
    }
    assert forall|k: int| 0 <= k < points.len() implies (#[trigger] points[k] == pts[0]
        || points[k] == pts[m - 1]) by {
        assert(points.contains(points[k]));
        let at = choose|at: int| 0 <= at < pts.len() && pts[at] == points[k];
    }
    assert forall|k: int| 0 <= k < points.len() implies is_before_or_at(
        pts[0]@,
        (#[trigger] points[k])@,
    ) by {
        if m == 2 {
            assert(is_before_or_at(pts[0]@, pts[1]@));
        }
    }
    assert forall|j: int, k: int| 0 <= j < m && 0 <= k < points.len() implies #[trigger] turn(
        pts[j]@,
        pts[(j + 1) % m]@,
        points[k]@,
    ) >= 0 by {
        let (a, b, q) = (pts[j]@, pts[(j + 1) % m]@, points[k]@);
        assert(q == a || q == b);
        assert(turn(a, b, q) == 0) by (nonlinear_arith)
            requires
                q == a || q == b,
                turn(a, b, q) == (b.0 - a.0) * (q.1 - a.1) - (b.1 - a.1) * (q.0 - a.0),
        ;
    }
    if m == 2 {
        assert(is_before_or_at(pts[0]@, pts[1]@) && pts[0]@ != pts[1]@);
    }
    assert forall|k: int| 0 <= k < points.len() implies is_before_or_at(
        (#[trigger] points[k])@,
        pts[m - 1]@,
    ) by {
        if m == 2 {
            assert(is_before_or_at(pts[0]@, pts[1]@));
        }
    }
}

/// The two chains of the hull, the one from the first point to the last
/// and the one back, make the hull, where the ends of the second are left
/// out.
proof fn lemma_closed(
    lower: Seq<Vector2D>,
    upper: Seq<Vector2D>,
    pts: Seq<Vector2D>,
    points: Seq<Vector2D>,
)
    requires
        pts.len() >= 3,
        is_strictly_ordered(pts),
        forall|p: Vector2D| pts.contains(p) <==> points.contains(p),
        is_hull_chain(lower, pts, true),
        is_hull_chain(upper, pts, false),
        lower.len() >= 2,
        upper.len() >= 2,
        lower[0] == pts[0],
        lower[lower.len() - 1] == pts[pts.len() - 1],
        upper[0] == pts[pts.len() - 1],
        upper[upper.len() - 1] == pts[0],
        forall|j: int| 0 <= j < lower.len() ==> pts.contains(#[trigger] lower[j]),
        forall|j: int| 0 <= j < upper.len() ==> pts.contains(#[trigger] upper[j]),
    ensures
        is_hull(lower + upper.subrange(1, upper.len() - 1), points),
{
    let hull = lower + upper.subrange(1, upper.len() - 1);
    let m = hull.len() as int;
    let l = lower.len() as int;
    let u = upper.len() as int;
    let n = pts.len() as int;
    assert(m == l + u - 2);
    // the vertex and the one after it, for each place of the hull
    assert forall|j: int| 0 <= j < m implies (if j + 1 < l {
        hull[j] == lower[j] && #[trigger] hull[(j + 1) % m] == lower[j + 1]
    } else {
        hull[j] == upper[j - (l - 1)] && hull[(j + 1) % m] == upper[j - (l - 1) + 1]
    }) by {
        if j + 1 < m {
            vstd::arithmetic::div_mod::lemma_small_mod((j + 1) as nat, m as nat);
        } else {
            vstd::arithmetic::div_mod::lemma_mod_self_0(m);
        }
    }
    assert forall|j: int| 0 <= j < m implies points.contains(#[trigger] hull[j]) by {
        if j < l {
            assert(pts.contains(lower[j]));
        } else {
            assert(pts.contains(upper[j - l + 1]));
        }
    }
    assert forall|k: int| 0 <= k < points.len() implies is_before_or_at(
        hull[0]@,
        (#[trigger] points[k])@,
    ) by {
        assert(points.contains(points[k]));
        let at = choose|at: int| 0 <= at < n && pts[at] == points[k];
        if at > 0 {
            assert(is_before_or_at(pts[0]@, pts[at]@));
        }
    }
    assert forall|j: int, k: int| 0 <= j < m && 0 <= k < points.len() implies #[trigger] turn(
        hull[j]@,
        hull[(j + 1) % m]@,
        points[k]@,
    ) >= 0 by {
        assert(points.contains(points[k]));
        let at = choose|at: int| 0 <= at < n && pts[at] == points[k];
        assert(is_left_of(lower, pts[at]@));
        assert(is_left_of(upper, pts[at]@));
        assert(hull[(j + 1) % m] == hull[(j + 1) % m]);
        if j + 1 < l {
            assert(turn(lower[j]@, lower[j + 1]@, pts[at]@) >= 0);
        } else {
            let i = j - (l - 1);
            assert(turn(upper[i]@, upper[i + 1]@, pts[at]@) >= 0);
        }
    }
    if m == 2 {
        assert(is_before(pts[0]@, pts[n - 1]@)) by {
            assert(is_before_or_at(pts[0]@, pts[n - 1]@) && pts[0]@ != pts[n - 1]@);
        }
        assert forall|k: int| 0 <= k < points.len() implies is_before_or_at(
            (#[trigger] points[k])@,
            hull[m - 1]@,
        ) by {
            assert(points.contains(points[k]));
            let at = choose|at: int| 0 <= at < n && pts[at] == points[k];
            if at < n - 1 {
                assert(is_before_or_at(pts[at]@, pts[n - 1]@));
            }
        }
    }
    if m >= 3 {
        assert forall|j: int| 0 <= j < m implies #[trigger] turn(
            hull[j]@,
            hull[(j + 1) % m]@,
            hull[(j + 2) % m]@,
        ) > 0 by {
            let next = (j + 1) % m;
            if j + 1 < m {
                vstd::arithmetic::div_mod::lemma_small_mod((j + 1) as nat, m as nat);
            } else {
                vstd::arithmetic::div_mod::lemma_mod_self_0(m);
            }
            if j + 2 < m {
                vstd::arithmetic::div_mod::lemma_small_mod((j + 2) as nat, m as nat);
            } else if j + 2 == m {
                vstd::arithmetic::div_mod::lemma_mod_self_0(m);
            } else {
                vstd::arithmetic::div_mod::lemma_fundamental_div_mod_converse(j + 2, m, 1, 1);
            }
            assert(hull[next] == hull[next]);
            if next == 0 {
                // where the chain back meets the chain forth
                lemma_junction(upper, lower, pts, false);
                assert(hull[j] == upper[u - 2]);
                assert(hull[(j + 2) % m] == lower[1]);
            } else if next == l - 1 {
                // where the chain forth meets the chain back
                lemma_junction(lower, upper, pts, true);
                assert(hull[j] == lower[l - 2]);
                assert(hull[(j + 2) % m] == upper[1]);
            } else if next < l - 1 {
                assert(turn(lower[j]@, lower[j + 1]@, lower[j + 2]@) > 0);
            } else {
                let i = j - (l - 1);
                assert(hull[j] == upper[i]);
                assert(hull[(j + 2) % m] == upper[i + 2]);
                assert(turn(upper[i]@, upper[i + 1]@, upper[i + 2]@) > 0);
            }
        }
    }
}

/// Where `a` and `c` are on one line with `b`, and both before `b`, or
/// both after `b`, they are on one side of `b`: a point that the way from
/// `b` to the one has on its left, the way from `b` to the other has on
/// its left too.
proof fn lemma_ray(a: (int, int), b: (int, int), c: (int, int), x: (int, int))
    requires
        (is_before(a, b) && is_before(c, b)) || (is_before(b, a) && is_before(b, c)),
        turn(b, a, c) == 0,
    ensures
        turn(b, a, x) > 0 <==> turn(b, c, x) > 0,
        turn(b, a, x) < 0 <==> turn(b, c, x) < 0,
{
    let v = vector_2d::difference(a, b);
    let w = vector_2d::difference(c, b);
    let d = vector_2d::difference(x, b);
    lemma_cross_products(v, w, d);
    let (vw, vd, wd) = (
        vector_2d::cross_product(v, w),
        vector_2d::cross_product(v, d),
        vector_2d::cross_product(w, d),
    );
    assert(w.0 * vd == v.0 * wd) by (nonlinear_arith)
        requires
            w.0 * vd == d.0 * vw + v.0 * wd,
            vw == 0,
    ;
    if v.0 != 0 && w.0 != 0 {
        assert((vd > 0 <==> wd > 0) && (vd < 0 <==> wd < 0)) by (nonlinear_arith)
            requires
                w.0 * vd == v.0 * wd,
                (v.0 < 0 && w.0 < 0) || (v.0 > 0 && w.0 > 0),
        ;
    } else {
        // both are straight below `b`, or both straight above
        assert(v.0 == 0 && w.0 == 0) by (nonlinear_arith)
            requires
                vw == v.0 * w.1 - v.1 * w.0,
                vw == 0,
                v.0 == 0 || w.0 == 0,
                v.0 == 0 ==> v.1 != 0,
                w.0 == 0 ==> w.1 != 0,
        ;
        assert((vd > 0 <==> wd > 0) && (vd < 0 <==> wd < 0)) by (nonlinear_arith)
            requires
                vd == v.0 * d.1 - v.1 * d.0,
                wd == w.0 * d.1 - w.1 * d.0,
                v.0 == 0,
                w.0 == 0,
                (v.1 < 0 && w.1 < 0) || (v.1 > 0 && w.1 > 0),
        ;
    }
}

/// The turn from `a` over `b` to `c` is the turn from `b` over `c` to `a`.
proof fn lemma_rotated_turn(a: (int, int), b: (int, int), c: (int, int))
    ensures
        turn(a, b, c) == turn(b, c, a),
{
    assert((b.0 - a.0) * (c.1 - a.1) - (b.1 - a.1) * (c.0 - a.0) == (c.0 - b.0) * (a.1 - b.1) - (c.1
        - b.1) * (a.0 - b.0)) by (nonlinear_arith);
}

/// Where one chain of the hull ends and the other begins, the hull turns
/// left, if it has three vertices or more.
proof fn lemma_junction(
    first: Seq<Vector2D>,
    second: Seq<Vector2D>,
    seen: Seq<Vector2D>,
    forwards: bool,
)
    requires
        is_hull_chain(first, seen, forwards),
        is_hull_chain(second, seen, !forwards),
        first.len() >= 2,
        second.len() >= 2,
        first.len() + second.len() >= 5,
        first[first.len() - 1] == second[0],
        second[second.len() - 1] == first[0],
        forall|j: int| 0 <= j < first.len() ==> seen.contains(#[trigger] first[j]),
        forall|j: int| 0 <= j < second.len() ==> seen.contains(#[trigger] second[j]),
    ensures
        turn(first[first.len() - 2]@, first[first.len() - 1]@, second[1]@) > 0,
{
    let f = first.len() as int;
    let a = first[f - 2]@;
    let b = first[f - 1]@;
    let c = second[1]@;
    assert(is_ahead(first[f - 2]@, first[f - 1]@, forwards));
    assert(is_ahead(second[0]@, second[1]@, !forwards));
    // `c` is on or left of the last edge of the first chain
    assert(seen.contains(second[1]));
    let kc = choose|k: int| 0 <= k < seen.len() && seen[k] == second[1];
    assert(is_left_of(first, seen[kc]@));
    assert(turn(first[f - 2]@, first[f - 2 + 1]@, c) >= 0);
    if turn(a, b, c) == 0 {
        lemma_opposite_turn(a, b, c);
        if second.len() >= 3 {
            let x = second[2];
            let z = 0int;
            assert(turn(second[z]@, second[z + 1]@, second[z + 2]@) > 0);
            lemma_ray(a, b, c, x@);
            lemma_opposite_turn(a, b, x@);
            assert(seen.contains(second[2]));
            let kx = choose|k: int| 0 <= k < seen.len() && seen[k] == second[2];
            assert(is_left_of(first, seen[kx]@));
            assert(turn(first[f - 2]@, first[f - 2 + 1]@, x@) >= 0);
        } else {
            let s = first[f - 3];
            assert(turn(first[f - 3]@, first[f - 3 + 1]@, first[f - 3 + 2]@) > 0);
            lemma_rotated_turn(s@, a, b);
            lemma_opposite_turn(a, b, s@);
            lemma_ray(a, b, c, s@);
            assert(seen.contains(first[f - 3]));
            let ks = choose|k: int| 0 <= k < seen.len() && seen[k] == first[f - 3];
            assert(is_left_of(second, seen[ks]@));
            let z = 0int;
            assert(turn(second[z]@, second[z + 1]@, s@) >= 0);
        }
    }
}

} // verus!
