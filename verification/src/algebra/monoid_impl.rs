//! Standard implementations of monoids.
//!
//! # Available monoids
//!
//! - [`AffineMonoid`]: composition of affine transformations

use std::marker::PhantomData;

use vstd::arithmetic::div_mod;
use vstd::prelude::*;

use crate::algebra::monoid::Monoid;

verus! {

/// The monoid of affine transformations over the integer type `T` under
/// composition.
///
/// - **set**: pairs [`Affine(a, b)`](Affine) that stand for
///   `f(x) = ax + b`.
/// - **operation**: function composition `g ∘ f`.
/// - **identity**: `Affine(1, 0)`, which stands for `f(x) = x`.
///
/// # Composition Order
///
/// `op(&f, &g)` is `g ∘ f`, which applies `f` first, then `g`: for
/// `f = (a1, b1)` and `g = (a2, b2)` it is `(a1 a2, a2 b1 + b2)`.
///
/// # Arithmetic
///
/// The coefficients are computed in the arithmetic of `T`, which wraps
/// around at the ends of its range. That arithmetic is a ring, so the
/// composition is associative for all coefficients.
///
/// # Supported Types
///
/// - `i32`, `i64`, `i128`
/// - `u32`, `u64`, `u128`
pub struct AffineMonoid<T>(PhantomData<T>);

/// The affine transformation `f(x) = ax + b` with `a` the first and `b`
/// the second field.
#[derive(Debug, PartialEq, Eq, Hash)]
pub struct Affine<T>(pub T, pub T);

impl<T: Copy> Clone for Affine<T> {
    fn clone(&self) -> (copy: Self)
        ensures
            copy == *self,
    {
        *self
    }
}

impl<T: Copy> Copy for Affine<T> {

}

/// The coefficients of `g ∘ f` for `f = a` and `g = b`, over the integers.
pub open spec fn compose(a: (int, int), b: (int, int)) -> (int, int) {
    (a.0 * b.0, a.1 * b.0 + b.1)
}

/// The number in `0 .. r` that differs from `x` by a multiple of `r`: what
/// `x` wraps around to in an unsigned type with `r` values.
pub open spec fn wrap(x: int, r: int) -> int {
    x % r
}

/// The number in `-r/2 .. r/2` that differs from `x` by a multiple of `r`:
/// what `x` wraps around to in a signed type with `r` values.
pub open spec fn wrap_signed(x: int, r: int) -> int {
    if x % r >= r / 2 {
        x % r - r
    } else {
        x % r
    }
}

/// Wrapping around keeps the remainder on division by `r`.
pub proof fn lemma_wrap_signed(x: int, r: int)
    requires
        r >= 2,
        r % 2 == 0,
    ensures
        wrap_signed(x, r) % r == x % r,
        -(r / 2) <= wrap_signed(x, r) < r / 2,
        -(r / 2) <= x < r / 2 ==> wrap_signed(x, r) == x,
{
    div_mod::lemma_mod_bound(x, r);
    div_mod::lemma_mod_twice(x, r);
    if x % r >= r / 2 {
        div_mod::lemma_mod_sub_multiples_vanish(x % r, r);
    }
    if 0 <= x < r / 2 {
        div_mod::lemma_small_mod(x as nat, r as nat);
    } else if -(r / 2) <= x < 0 {
        div_mod::lemma_fundamental_div_mod_converse(x, r, -1, x + r);
    }
}

/// Composition modulo `r` does not depend on where the intermediate
/// coefficients are reduced, and is associative.
pub proof fn lemma_compose_mod(a: (int, int), b: (int, int), c: (int, int), r: int)
    requires
        r > 0,
    ensures
        // the first coefficient of (a then b) then c, and of a then (b then c)
        (((a.0 * b.0) % r) * c.0) % r == (a.0 * b.0 * c.0) % r,
        (a.0 * ((b.0 * c.0) % r)) % r == (a.0 * b.0 * c.0) % r,
        // the second coefficient of either
        (((a.1 * b.0 + b.1) % r) * c.0 + c.1) % r == (a.1 * b.0 * c.0 + b.1 * c.0 + c.1) % r,
        (a.1 * ((b.0 * c.0) % r) + (b.1 * c.0 + c.1) % r) % r == (a.1 * b.0 * c.0 + b.1 * c.0
            + c.1) % r,
        // the second coefficient of one composition, reduced in two steps
        (((a.1 * b.0) % r) + b.1) % r == (a.1 * b.0 + b.1) % r,
{
    div_mod::lemma_mul_mod_noop_general(a.0 * b.0, c.0, r);
    div_mod::lemma_mul_mod_noop_general(a.0, b.0 * c.0, r);
    assert(a.0 * (b.0 * c.0) == a.0 * b.0 * c.0) by (nonlinear_arith);
    let s = a.1 * b.0 + b.1;
    div_mod::lemma_mul_mod_noop_general(s, c.0, r);
    div_mod::lemma_add_mod_noop((s % r) * c.0, c.1, r);
    div_mod::lemma_add_mod_noop(s * c.0, c.1, r);
    assert(s * c.0 + c.1 == a.1 * b.0 * c.0 + b.1 * c.0 + c.1) by (nonlinear_arith)
        requires
            s == a.1 * b.0 + b.1,
    ;
    let t = b.0 * c.0;
    let u = b.1 * c.0 + c.1;
    div_mod::lemma_mul_mod_noop_general(a.1, t, r);
    div_mod::lemma_add_mod_noop(a.1 * (t % r), u % r, r);
    div_mod::lemma_add_mod_noop(a.1 * t, u, r);
    div_mod::lemma_mod_twice(u, r);
    div_mod::lemma_add_mod_noop(a.1 * (t % r), u, r);
    assert(a.1 * t + u == a.1 * b.0 * c.0 + b.1 * c.0 + c.1) by (nonlinear_arith)
        requires
            t == b.0 * c.0,
            u == b.1 * c.0 + c.1,
    ;
    div_mod::lemma_add_mod_noop((a.1 * b.0) % r, b.1, r);
    div_mod::lemma_add_mod_noop(a.1 * b.0, b.1, r);
    div_mod::lemma_mod_twice(a.1 * b.0, r);
}

impl Monoid for AffineMonoid<i32> {
    type S = Affine<i32>;

    open spec fn identity_spec() -> Affine<i32> {
        Affine(1, 0)
    }

    open spec fn op_spec(a: Affine<i32>, b: Affine<i32>) -> Affine<i32> {
        let c = compose((a.0 as int, a.1 as int), (b.0 as int, b.1 as int));
        Affine(wrap_signed(c.0, (u32::MAX as int + 1)) as i32, wrap_signed(c.1, (u32::MAX as int + 1)) as i32)
    }

    proof fn lemma_identity(a: Affine<i32>) {
        lemma_wrap_signed(a.0 as int, (u32::MAX as int + 1));
        lemma_wrap_signed(a.1 as int, (u32::MAX as int + 1));
        assert(a.0 * 1 == a.0 && a.1 * 1 + 0 == a.1 && 1 * a.0 == a.0 && 0 * a.0 + a.1 == a.1);
    }

    proof fn lemma_associative(a: Affine<i32>, b: Affine<i32>, c: Affine<i32>) {
        let r = (u32::MAX as int + 1);
        let ab = compose((a.0 as int, a.1 as int), (b.0 as int, b.1 as int));
        let bc = compose((b.0 as int, b.1 as int), (c.0 as int, c.1 as int));
        let ab_w = (wrap_signed(ab.0, r), wrap_signed(ab.1, r));
        let bc_w = (wrap_signed(bc.0, r), wrap_signed(bc.1, r));
        lemma_wrap_signed(ab.0, r);
        lemma_wrap_signed(ab.1, r);
        lemma_wrap_signed(bc.0, r);
        lemma_wrap_signed(bc.1, r);
        lemma_compose_mod(
            (a.0 as int, a.1 as int),
            (b.0 as int, b.1 as int),
            (c.0 as int, c.1 as int),
            r,
        );
        // reducing to the signed range instead of `0 .. r` changes nothing modulo `r`
        div_mod::lemma_mul_mod_noop_general(ab_w.0, c.0 as int, r);
        div_mod::lemma_mul_mod_noop_general(ab.0, c.0 as int, r);
        div_mod::lemma_mul_mod_noop_general(a.0 as int, bc_w.0, r);
        div_mod::lemma_mul_mod_noop_general(a.0 as int, bc.0, r);
        div_mod::lemma_mul_mod_noop_general(ab_w.1, c.0 as int, r);
        div_mod::lemma_mul_mod_noop_general(ab.1, c.0 as int, r);
        div_mod::lemma_add_mod_noop(ab_w.1 * c.0, c.1 as int, r);
        div_mod::lemma_add_mod_noop((ab.1 % r) * c.0, c.1 as int, r);
        div_mod::lemma_mul_mod_noop_general(a.1 as int, bc_w.0, r);
        div_mod::lemma_mul_mod_noop_general(a.1 as int, bc.0, r);
        div_mod::lemma_add_mod_noop(a.1 * bc_w.0, bc_w.1, r);
        div_mod::lemma_add_mod_noop(a.1 * (bc.0 % r), bc.1 % r, r);
        div_mod::lemma_mod_twice(bc.1, r);
    }

    #[inline]
    fn identity() -> Affine<i32> {
        Affine(1, 0)
    }

    #[inline]
    fn op(a: &Affine<i32>, b: &Affine<i32>) -> Affine<i32> {
        proof {
            let r = (u32::MAX as int + 1);
            let p = wrap_signed(a.1 * b.0, r);
            lemma_wrap_signed(a.1 * b.0, r);
            lemma_wrap_signed(a.1 * b.0 + b.1, r);
            div_mod::lemma_add_mod_noop(p, b.1 as int, r);
            div_mod::lemma_add_mod_noop(a.1 * b.0, b.1 as int, r);
            div_mod::lemma_mod_twice(b.1 as int, r);
            // `p + b.1`, brought back into range by one step, is the wrapped sum
            let s = p + b.1;
            let w = if s >= r / 2 {
                s - r
            } else if s < -(r / 2) {
                s + r
            } else {
                s
            };
            lemma_wrap_signed(w, r);
            if s >= r / 2 {
                div_mod::lemma_mod_sub_multiples_vanish(s, r);
            } else if s < -(r / 2) {
                div_mod::lemma_mod_add_multiples_vanish(s, r);
            }
        }
        Affine(a.0.wrapping_mul(b.0), a.1.wrapping_mul(b.0).wrapping_add(b.1))
    }
}

impl Monoid for AffineMonoid<i64> {
    type S = Affine<i64>;

    open spec fn identity_spec() -> Affine<i64> {
        Affine(1, 0)
    }

    open spec fn op_spec(a: Affine<i64>, b: Affine<i64>) -> Affine<i64> {
        let c = compose((a.0 as int, a.1 as int), (b.0 as int, b.1 as int));
        Affine(wrap_signed(c.0, (u64::MAX as int + 1)) as i64, wrap_signed(c.1, (u64::MAX as int + 1)) as i64)
    }

    proof fn lemma_identity(a: Affine<i64>) {
        lemma_wrap_signed(a.0 as int, (u64::MAX as int + 1));
        lemma_wrap_signed(a.1 as int, (u64::MAX as int + 1));
        assert(a.0 * 1 == a.0 && a.1 * 1 + 0 == a.1 && 1 * a.0 == a.0 && 0 * a.0 + a.1 == a.1);
    }

    proof fn lemma_associative(a: Affine<i64>, b: Affine<i64>, c: Affine<i64>) {
        let r = (u64::MAX as int + 1);
        let ab = compose((a.0 as int, a.1 as int), (b.0 as int, b.1 as int));
        let bc = compose((b.0 as int, b.1 as int), (c.0 as int, c.1 as int));
        let ab_w = (wrap_signed(ab.0, r), wrap_signed(ab.1, r));
        let bc_w = (wrap_signed(bc.0, r), wrap_signed(bc.1, r));
        lemma_wrap_signed(ab.0, r);
        lemma_wrap_signed(ab.1, r);
        lemma_wrap_signed(bc.0, r);
        lemma_wrap_signed(bc.1, r);
        lemma_compose_mod(
            (a.0 as int, a.1 as int),
            (b.0 as int, b.1 as int),
            (c.0 as int, c.1 as int),
            r,
        );
        // reducing to the signed range instead of `0 .. r` changes nothing modulo `r`
        div_mod::lemma_mul_mod_noop_general(ab_w.0, c.0 as int, r);
        div_mod::lemma_mul_mod_noop_general(ab.0, c.0 as int, r);
        div_mod::lemma_mul_mod_noop_general(a.0 as int, bc_w.0, r);
        div_mod::lemma_mul_mod_noop_general(a.0 as int, bc.0, r);
        div_mod::lemma_mul_mod_noop_general(ab_w.1, c.0 as int, r);
        div_mod::lemma_mul_mod_noop_general(ab.1, c.0 as int, r);
        div_mod::lemma_add_mod_noop(ab_w.1 * c.0, c.1 as int, r);
        div_mod::lemma_add_mod_noop((ab.1 % r) * c.0, c.1 as int, r);
        div_mod::lemma_mul_mod_noop_general(a.1 as int, bc_w.0, r);
        div_mod::lemma_mul_mod_noop_general(a.1 as int, bc.0, r);
        div_mod::lemma_add_mod_noop(a.1 * bc_w.0, bc_w.1, r);
        div_mod::lemma_add_mod_noop(a.1 * (bc.0 % r), bc.1 % r, r);
        div_mod::lemma_mod_twice(bc.1, r);
    }

    #[inline]
    fn identity() -> Affine<i64> {
        Affine(1, 0)
    }

    #[inline]
    fn op(a: &Affine<i64>, b: &Affine<i64>) -> Affine<i64> {
        proof {
            let r = (u64::MAX as int + 1);
            let p = wrap_signed(a.1 * b.0, r);
            lemma_wrap_signed(a.1 * b.0, r);
            lemma_wrap_signed(a.1 * b.0 + b.1, r);
            div_mod::lemma_add_mod_noop(p, b.1 as int, r);
            div_mod::lemma_add_mod_noop(a.1 * b.0, b.1 as int, r);
            div_mod::lemma_mod_twice(b.1 as int, r);
            // `p + b.1`, brought back into range by one step, is the wrapped sum
            let s = p + b.1;
            let w = if s >= r / 2 {
                s - r
            } else if s < -(r / 2) {
                s + r
            } else {
                s
            };
            lemma_wrap_signed(w, r);
            if s >= r / 2 {
                div_mod::lemma_mod_sub_multiples_vanish(s, r);
            } else if s < -(r / 2) {
                div_mod::lemma_mod_add_multiples_vanish(s, r);
            }
        }
        Affine(a.0.wrapping_mul(b.0), a.1.wrapping_mul(b.0).wrapping_add(b.1))
    }
}

impl Monoid for AffineMonoid<i128> {
    type S = Affine<i128>;

    open spec fn identity_spec() -> Affine<i128> {
        Affine(1, 0)
    }

    open spec fn op_spec(a: Affine<i128>, b: Affine<i128>) -> Affine<i128> {
        let c = compose((a.0 as int, a.1 as int), (b.0 as int, b.1 as int));
        Affine(wrap_signed(c.0, (u128::MAX as int + 1)) as i128, wrap_signed(c.1, (u128::MAX as int + 1)) as i128)
    }

    proof fn lemma_identity(a: Affine<i128>) {
        lemma_wrap_signed(a.0 as int, (u128::MAX as int + 1));
        lemma_wrap_signed(a.1 as int, (u128::MAX as int + 1));
        assert(a.0 * 1 == a.0 && a.1 * 1 + 0 == a.1 && 1 * a.0 == a.0 && 0 * a.0 + a.1 == a.1);
    }

    proof fn lemma_associative(a: Affine<i128>, b: Affine<i128>, c: Affine<i128>) {
        let r = (u128::MAX as int + 1);
        let ab = compose((a.0 as int, a.1 as int), (b.0 as int, b.1 as int));
        let bc = compose((b.0 as int, b.1 as int), (c.0 as int, c.1 as int));
        let ab_w = (wrap_signed(ab.0, r), wrap_signed(ab.1, r));
        let bc_w = (wrap_signed(bc.0, r), wrap_signed(bc.1, r));
        lemma_wrap_signed(ab.0, r);
        lemma_wrap_signed(ab.1, r);
        lemma_wrap_signed(bc.0, r);
        lemma_wrap_signed(bc.1, r);
        lemma_compose_mod(
            (a.0 as int, a.1 as int),
            (b.0 as int, b.1 as int),
            (c.0 as int, c.1 as int),
            r,
        );
        // reducing to the signed range instead of `0 .. r` changes nothing modulo `r`
        div_mod::lemma_mul_mod_noop_general(ab_w.0, c.0 as int, r);
        div_mod::lemma_mul_mod_noop_general(ab.0, c.0 as int, r);
        div_mod::lemma_mul_mod_noop_general(a.0 as int, bc_w.0, r);
        div_mod::lemma_mul_mod_noop_general(a.0 as int, bc.0, r);
        div_mod::lemma_mul_mod_noop_general(ab_w.1, c.0 as int, r);
        div_mod::lemma_mul_mod_noop_general(ab.1, c.0 as int, r);
        div_mod::lemma_add_mod_noop(ab_w.1 * c.0, c.1 as int, r);
        div_mod::lemma_add_mod_noop((ab.1 % r) * c.0, c.1 as int, r);
        div_mod::lemma_mul_mod_noop_general(a.1 as int, bc_w.0, r);
        div_mod::lemma_mul_mod_noop_general(a.1 as int, bc.0, r);
        div_mod::lemma_add_mod_noop(a.1 * bc_w.0, bc_w.1, r);
        div_mod::lemma_add_mod_noop(a.1 * (bc.0 % r), bc.1 % r, r);
        div_mod::lemma_mod_twice(bc.1, r);
    }

    #[inline]
    fn identity() -> Affine<i128> {
        Affine(1, 0)
    }

    #[inline]
    fn op(a: &Affine<i128>, b: &Affine<i128>) -> Affine<i128> {
        proof {
            let r = (u128::MAX as int + 1);
            let p = wrap_signed(a.1 * b.0, r);
            lemma_wrap_signed(a.1 * b.0, r);
            lemma_wrap_signed(a.1 * b.0 + b.1, r);
            div_mod::lemma_add_mod_noop(p, b.1 as int, r);
            div_mod::lemma_add_mod_noop(a.1 * b.0, b.1 as int, r);
            div_mod::lemma_mod_twice(b.1 as int, r);
            // `p + b.1`, brought back into range by one step, is the wrapped sum
            let s = p + b.1;
            let w = if s >= r / 2 {
                s - r
            } else if s < -(r / 2) {
                s + r
            } else {
                s
            };
            lemma_wrap_signed(w, r);
            if s >= r / 2 {
                div_mod::lemma_mod_sub_multiples_vanish(s, r);
            } else if s < -(r / 2) {
                div_mod::lemma_mod_add_multiples_vanish(s, r);
            }
        }
        Affine(a.0.wrapping_mul(b.0), a.1.wrapping_mul(b.0).wrapping_add(b.1))
    }
}

impl Monoid for AffineMonoid<u32> {
    type S = Affine<u32>;

    open spec fn identity_spec() -> Affine<u32> {
        Affine(1, 0)
    }

    open spec fn op_spec(a: Affine<u32>, b: Affine<u32>) -> Affine<u32> {
        let c = compose((a.0 as int, a.1 as int), (b.0 as int, b.1 as int));
        Affine(wrap(c.0, (u32::MAX as int + 1)) as u32, wrap(c.1, (u32::MAX as int + 1)) as u32)
    }

    proof fn lemma_identity(a: Affine<u32>) {
        div_mod::lemma_small_mod(a.0 as nat, (u32::MAX as int + 1) as nat);
        div_mod::lemma_small_mod(a.1 as nat, (u32::MAX as int + 1) as nat);
        assert(a.0 * 1 == a.0 && a.1 * 1 + 0 == a.1 && 1 * a.0 == a.0 && 0 * a.0 + a.1 == a.1);
    }

    proof fn lemma_associative(a: Affine<u32>, b: Affine<u32>, c: Affine<u32>) {
        lemma_compose_mod(
            (a.0 as int, a.1 as int),
            (b.0 as int, b.1 as int),
            (c.0 as int, c.1 as int),
            (u32::MAX as int + 1),
        );
        div_mod::lemma_mod_bound(a.0 * b.0, (u32::MAX as int + 1));
        div_mod::lemma_mod_bound(a.1 * b.0 + b.1, (u32::MAX as int + 1));
        div_mod::lemma_mod_bound(b.0 * c.0, (u32::MAX as int + 1));
        div_mod::lemma_mod_bound(b.1 * c.0 + c.1, (u32::MAX as int + 1));
    }

    #[inline]
    fn identity() -> Affine<u32> {
        Affine(1, 0)
    }

    #[inline]
    fn op(a: &Affine<u32>, b: &Affine<u32>) -> Affine<u32> {
        proof {
            lemma_compose_mod(
                (a.0 as int, a.1 as int),
                (b.0 as int, b.1 as int),
                (0, 0),
                (u32::MAX as int + 1),
            );
            div_mod::lemma_mod_bound(a.1 * b.0, (u32::MAX as int + 1));
            div_mod::lemma_mod_bound(a.1 * b.0 + b.1, (u32::MAX as int + 1));
            let p = (a.1 * b.0) % (u32::MAX as int + 1);
            if p + b.1 >= (u32::MAX as int + 1) {
                div_mod::lemma_fundamental_div_mod_converse(p + b.1, (u32::MAX as int + 1), 1, p + b.1 - (u32::MAX as int + 1));
            } else {
                div_mod::lemma_small_mod((p + b.1) as nat, (u32::MAX as int + 1) as nat);
            }
        }
        Affine(a.0.wrapping_mul(b.0), a.1.wrapping_mul(b.0).wrapping_add(b.1))
    }
}

impl Monoid for AffineMonoid<u64> {
    type S = Affine<u64>;

    open spec fn identity_spec() -> Affine<u64> {
        Affine(1, 0)
    }

    open spec fn op_spec(a: Affine<u64>, b: Affine<u64>) -> Affine<u64> {
        let c = compose((a.0 as int, a.1 as int), (b.0 as int, b.1 as int));
        Affine(wrap(c.0, (u64::MAX as int + 1)) as u64, wrap(c.1, (u64::MAX as int + 1)) as u64)
    }

    proof fn lemma_identity(a: Affine<u64>) {
        div_mod::lemma_small_mod(a.0 as nat, (u64::MAX as int + 1) as nat);
        div_mod::lemma_small_mod(a.1 as nat, (u64::MAX as int + 1) as nat);
        assert(a.0 * 1 == a.0 && a.1 * 1 + 0 == a.1 && 1 * a.0 == a.0 && 0 * a.0 + a.1 == a.1);
    }

    proof fn lemma_associative(a: Affine<u64>, b: Affine<u64>, c: Affine<u64>) {
        lemma_compose_mod(
            (a.0 as int, a.1 as int),
            (b.0 as int, b.1 as int),
            (c.0 as int, c.1 as int),
            (u64::MAX as int + 1),
        );
        div_mod::lemma_mod_bound(a.0 * b.0, (u64::MAX as int + 1));
        div_mod::lemma_mod_bound(a.1 * b.0 + b.1, (u64::MAX as int + 1));
        div_mod::lemma_mod_bound(b.0 * c.0, (u64::MAX as int + 1));
        div_mod::lemma_mod_bound(b.1 * c.0 + c.1, (u64::MAX as int + 1));
    }

    #[inline]
    fn identity() -> Affine<u64> {
        Affine(1, 0)
    }

    #[inline]
    fn op(a: &Affine<u64>, b: &Affine<u64>) -> Affine<u64> {
        proof {
            lemma_compose_mod(
                (a.0 as int, a.1 as int),
                (b.0 as int, b.1 as int),
                (0, 0),
                (u64::MAX as int + 1),
            );
            div_mod::lemma_mod_bound(a.1 * b.0, (u64::MAX as int + 1));
            div_mod::lemma_mod_bound(a.1 * b.0 + b.1, (u64::MAX as int + 1));
            let p = (a.1 * b.0) % (u64::MAX as int + 1);
            if p + b.1 >= (u64::MAX as int + 1) {
                div_mod::lemma_fundamental_div_mod_converse(p + b.1, (u64::MAX as int + 1), 1, p + b.1 - (u64::MAX as int + 1));
            } else {
                div_mod::lemma_small_mod((p + b.1) as nat, (u64::MAX as int + 1) as nat);
            }
        }
        Affine(a.0.wrapping_mul(b.0), a.1.wrapping_mul(b.0).wrapping_add(b.1))
    }
}

impl Monoid for AffineMonoid<u128> {
    type S = Affine<u128>;

    open spec fn identity_spec() -> Affine<u128> {
        Affine(1, 0)
    }

    open spec fn op_spec(a: Affine<u128>, b: Affine<u128>) -> Affine<u128> {
        let c = compose((a.0 as int, a.1 as int), (b.0 as int, b.1 as int));
        Affine(wrap(c.0, (u128::MAX as int + 1)) as u128, wrap(c.1, (u128::MAX as int + 1)) as u128)
    }

    proof fn lemma_identity(a: Affine<u128>) {
        div_mod::lemma_small_mod(a.0 as nat, (u128::MAX as int + 1) as nat);
        div_mod::lemma_small_mod(a.1 as nat, (u128::MAX as int + 1) as nat);
        assert(a.0 * 1 == a.0 && a.1 * 1 + 0 == a.1 && 1 * a.0 == a.0 && 0 * a.0 + a.1 == a.1);
    }

    proof fn lemma_associative(a: Affine<u128>, b: Affine<u128>, c: Affine<u128>) {
        lemma_compose_mod(
            (a.0 as int, a.1 as int),
            (b.0 as int, b.1 as int),
            (c.0 as int, c.1 as int),
            (u128::MAX as int + 1),
        );
        div_mod::lemma_mod_bound(a.0 * b.0, (u128::MAX as int + 1));
        div_mod::lemma_mod_bound(a.1 * b.0 + b.1, (u128::MAX as int + 1));
        div_mod::lemma_mod_bound(b.0 * c.0, (u128::MAX as int + 1));
        div_mod::lemma_mod_bound(b.1 * c.0 + c.1, (u128::MAX as int + 1));
    }

    #[inline]
    fn identity() -> Affine<u128> {
        Affine(1, 0)
    }

    #[inline]
    fn op(a: &Affine<u128>, b: &Affine<u128>) -> Affine<u128> {
        proof {
            lemma_compose_mod(
                (a.0 as int, a.1 as int),
                (b.0 as int, b.1 as int),
                (0, 0),
                (u128::MAX as int + 1),
            );
            div_mod::lemma_mod_bound(a.1 * b.0, (u128::MAX as int + 1));
            div_mod::lemma_mod_bound(a.1 * b.0 + b.1, (u128::MAX as int + 1));
            let p = (a.1 * b.0) % (u128::MAX as int + 1);
            if p + b.1 >= (u128::MAX as int + 1) {
                div_mod::lemma_fundamental_div_mod_converse(p + b.1, (u128::MAX as int + 1), 1, p + b.1 - (u128::MAX as int + 1));
            } else {
                div_mod::lemma_small_mod((p + b.1) as nat, (u128::MAX as int + 1) as nat);
            }
        }
        Affine(a.0.wrapping_mul(b.0), a.1.wrapping_mul(b.0).wrapping_add(b.1))
    }
}

} // verus!
