//! Vector in 2D
//!
//! A 2D vector type with the common geometric operations.

use vstd::prelude::*;

verus! {

/// A 2D vector with integer coordinates.
///
/// `Vector2D((x, y))` is the vector from the origin to the point `(x, y)`.
/// Its view is the pair of its coordinates as mathematical integers.
#[derive(Debug, Clone, Copy, PartialEq, Eq, Default, Hash)]
pub struct Vector2D(pub (i64, i64));

impl View for Vector2D {
    type V = (int, int);

    open spec fn view(&self) -> (int, int) {
        (self.0.0 as int, self.0.1 as int)
    }
}

/// `v` fits in a pair of `i64` coordinates.
pub open spec fn is_representable(v: (int, int)) -> bool {
    i64::MIN <= v.0 <= i64::MAX && i64::MIN <= v.1 <= i64::MAX
}

/// The sum of two vectors.
pub open spec fn sum(a: (int, int), b: (int, int)) -> (int, int) {
    (a.0 + b.0, a.1 + b.1)
}

/// The difference of two vectors.
pub open spec fn difference(a: (int, int), b: (int, int)) -> (int, int) {
    (a.0 - b.0, a.1 - b.1)
}

/// The vector `b` scaled by `a`.
pub open spec fn scaled(a: int, b: (int, int)) -> (int, int) {
    (a * b.0, a * b.1)
}

/// The dot product `xa * xb + ya * yb`.
pub open spec fn dot_product(a: (int, int), b: (int, int)) -> int {
    a.0 * b.0 + a.1 * b.1
}

/// The cross product `xa * yb - ya * xb`: positive if `b` is
/// counter-clockwise from `a`, negative if clockwise, zero if collinear.
pub open spec fn cross_product(a: (int, int), b: (int, int)) -> int {
    a.0 * b.1 - a.1 * b.0
}

impl Vector2D {
    /// Creates a new vector from x and y coordinates.
    pub fn new(x: i64, y: i64) -> (v: Self)
        ensures
            v@ == (x as int, y as int),
    {
        Self((x, y))
    }

    /// Returns the x-coordinate of the vector.
    #[inline]
    pub fn x(&self) -> (x: i64)
        ensures
            x == self@.0,
    {
        self.0.0
    }

    /// Returns the y-coordinate of the vector.
    #[inline]
    pub fn y(&self) -> (y: i64)
        ensures
            y == self@.1,
    {
        self.0.1
    }

    /// Returns the sum `self + other`.
    #[inline]
    pub fn add(&self, other: &Self) -> (v: Self)
        requires
            is_representable(sum(self@, other@)),
        ensures
            v@ == sum(self@, other@),
    {
        Self((self.x() + other.x(), self.y() + other.y()))
    }

    /// Returns the difference `self - other`.
    #[inline]
    pub fn sub(&self, other: &Self) -> (v: Self)
        requires
            is_representable(difference(self@, other@)),
        ensures
            v@ == difference(self@, other@),
    {
        Self((self.x() - other.x(), self.y() - other.y()))
    }

    /// Returns the vector scaled by `a`.
    #[inline]
    pub fn scalar(&self, a: i64) -> (v: Self)
        requires
            is_representable(scaled(a as int, self@)),
        ensures
            v@ == scaled(a as int, self@),
    {
        Self((a * self.x(), a * self.y()))
    }

    /// Returns the dot product with `other`.
    #[inline]
    pub fn dot(&self, other: &Self) -> (d: i64)
        requires
            i64::MIN <= self@.0 * other@.0 <= i64::MAX,
            i64::MIN <= self@.1 * other@.1 <= i64::MAX,
            i64::MIN <= dot_product(self@, other@) <= i64::MAX,
        ensures
            d == dot_product(self@, other@),
    {
        self.x() * other.x() + self.y() * other.y()
    }

    /// Returns the cross product with `other`.
    #[inline]
    pub fn cross(&self, other: &Self) -> (c: i64)
        requires
            i64::MIN <= self@.0 * other@.1 <= i64::MAX,
            i64::MIN <= self@.1 * other@.0 <= i64::MAX,
            i64::MIN <= cross_product(self@, other@) <= i64::MAX,
        ensures
            c == cross_product(self@, other@),
    {
        self.x() * other.y() - self.y() * other.x()
    }

    /// Returns the squared norm `x^2 + y^2`.
    #[inline]
    pub fn norm_pow2(&self) -> (d: i64)
        requires
            self@.0 * self@.0 <= i64::MAX,
            self@.1 * self@.1 <= i64::MAX,
            dot_product(self@, self@) <= i64::MAX,
        ensures
            d == dot_product(self@, self@),
    {
        proof {
            assert(self@.0 * self@.0 >= 0) by (nonlinear_arith);
            assert(self@.1 * self@.1 >= 0) by (nonlinear_arith);
        }
        self.x() * self.x() + self.y() * self.y()
    }
}

impl From<(i64, i64)> for Vector2D {
    fn from(t: (i64, i64)) -> (v: Self) {
        Vector2D(t)
    }
}

impl vstd::std_specs::convert::FromSpecImpl<(i64, i64)> for Vector2D {
    open spec fn obeys_from_spec() -> bool {
        true
    }

    open spec fn from_spec(t: (i64, i64)) -> Self {
        Vector2D(t)
    }
}

impl From<Vector2D> for (i64, i64) {
    fn from(v: Vector2D) -> (t: Self) {
        v.0
    }
}

impl vstd::std_specs::convert::FromSpecImpl<Vector2D> for (i64, i64) {
    open spec fn obeys_from_spec() -> bool {
        true
    }

    open spec fn from_spec(v: Vector2D) -> Self {
        v.0
    }
}

} // verus!
