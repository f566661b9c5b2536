//! Monoid Action
//!
//! A monoid of *operators* acting on a monoid of *values*.
//!
//! # Definition
//!
//! A monoid action consists of:
//! - a value monoid `(S, *, e_S)`,
//! - an operator monoid `(F, *, e_F)`,
//! - an action `S x F -> S`, written `x.f` here, such that
//!   - **identity**: `x.e_F = x`,
//!   - **composition**: `x.(f * g) = (x.f).g`: the right operand of a
//!     composed operator is applied after the left one,
//!   - **distribution**: `(a * b).f = (a.f) * (b.f)`.

use vstd::prelude::*;

use crate::algebra::fold;

verus! {

/// A *monoid action*.
///
/// Every executable operation is tied to a mathematical counterpart, and an
/// implementation has to prove the axioms of the two monoids and of the
/// action about those counterparts.
pub trait MonoidAction {
    /// The underlying value type.
    type S;

    /// The underlying operator type.
    type F: Clone;

    /// The identity of the values, as a mathematical value.
    spec fn identity_s_spec() -> Self::S;

    /// The identity of the operators, as a mathematical value.
    spec fn identity_f_spec() -> Self::F;

    /// The operation on values, as a mathematical function.
    spec fn op_s_spec(a: Self::S, b: Self::S) -> Self::S;

    /// The composition of operators, as a mathematical function.
    spec fn op_f_spec(f: Self::F, g: Self::F) -> Self::F;

    /// The action of an operator on a value, as a mathematical function.
    spec fn apply_spec(x: Self::S, f: Self::F) -> Self::S;

    /// `identity_s` is a left and right identity of `op_s`.
    proof fn lemma_identity_s(a: Self::S)
        ensures
            Self::op_s_spec(a, Self::identity_s_spec()) == a,
            Self::op_s_spec(Self::identity_s_spec(), a) == a,
    ;

    /// `op_s` is associative.
    proof fn lemma_associative_s(a: Self::S, b: Self::S, c: Self::S)
        ensures
            Self::op_s_spec(Self::op_s_spec(a, b), c) == Self::op_s_spec(
                a,
                Self::op_s_spec(b, c),
            ),
    ;

    /// `identity_f` is a left and right identity of `op_f`.
    proof fn lemma_identity_f(f: Self::F)
        ensures
            Self::op_f_spec(f, Self::identity_f_spec()) == f,
            Self::op_f_spec(Self::identity_f_spec(), f) == f,
    ;

    /// `op_f` is associative.
    proof fn lemma_associative_f(f: Self::F, g: Self::F, h: Self::F)
        ensures
            Self::op_f_spec(Self::op_f_spec(f, g), h) == Self::op_f_spec(
                f,
                Self::op_f_spec(g, h),
            ),
    ;

    /// Applying the identity operator changes nothing.
    proof fn lemma_apply_identity(x: Self::S)
        ensures
            Self::apply_spec(x, Self::identity_f_spec()) == x,
    ;

    /// Applying `op_f(f, g)` is applying `f`, then `g`.
    proof fn lemma_apply_composition(x: Self::S, f: Self::F, g: Self::F)
        ensures
            Self::apply_spec(x, Self::op_f_spec(f, g)) == Self::apply_spec(
                Self::apply_spec(x, f),
                g,
            ),
    ;

    /// Applying an operator to a product is applying it to both factors.
    proof fn lemma_apply_distributes(a: Self::S, b: Self::S, f: Self::F)
        ensures
            Self::apply_spec(Self::op_s_spec(a, b), f) == Self::op_s_spec(
                Self::apply_spec(a, f),
                Self::apply_spec(b, f),
            ),
    ;

    /// Returns the identity element of the values.
    fn identity_s() -> (e: Self::S)
        ensures
            e == Self::identity_s_spec(),
    ;

    /// Returns the identity element of the operators.
    fn identity_f() -> (e: Self::F)
        ensures
            e == Self::identity_f_spec(),
    ;

    /// Returns the product of the values `a` and `b`.
    fn op_s(a: &Self::S, b: &Self::S) -> (r: Self::S)
        ensures
            r == Self::op_s_spec(*a, *b),
    ;

    /// Returns the operator that applies `f`, then `g`.
    fn op_f(f: &Self::F, g: &Self::F) -> (r: Self::F)
        ensures
            r == Self::op_f_spec(*f, *g),
    ;

    /// Applies the operator `f` to `x` in place.
    fn apply(x: &mut Self::S, f: &Self::F)
        ensures
            *final(x) == Self::apply_spec(*old(x), *f),
    ;
}

/// The operation on the values of `A` as a mathematical function value.
pub open spec fn op_s_fn<A: MonoidAction>() -> spec_fn(A::S, A::S) -> A::S {
    |a: A::S, b: A::S| A::op_s_spec(a, b)
}

/// The product `s[0] * s[1] * .. * s[len - 1]` of values of `A`, taken from
/// left to right; the identity for the empty sequence.
pub open spec fn fold<A: MonoidAction>(s: Seq<A::S>) -> A::S {
    fold::product(s, A::identity_s_spec(), op_s_fn::<A>())
}

/// The values of every implementation of [`MonoidAction`] satisfy the
/// monoid axioms.
pub proof fn lemma_is_monoid<A: MonoidAction>()
    ensures
        fold::is_monoid(A::identity_s_spec(), op_s_fn::<A>()),
{
    reveal(fold::is_monoid);
    let e = A::identity_s_spec();
    let op = op_s_fn::<A>();
    assert forall|a: A::S| #[trigger] op(a, e) == a by {
        A::lemma_identity_s(a);
    }
    assert forall|a: A::S| #[trigger] op(e, a) == a by {
        A::lemma_identity_s(a);
    }
    assert forall|a: A::S, b: A::S, c: A::S| #[trigger] op(op(a, b), c) == op(a, op(b, c)) by {
        A::lemma_associative_s(a, b, c);
    }
}

/// Folding a sequence of identities gives the identity: the whole of it,
/// and so every range of it.
pub proof fn lemma_fold_identities<A: MonoidAction>(s: Seq<A::S>)
    requires
        forall|i: int| 0 <= i < s.len() ==> s[i] == A::identity_s_spec(),
    ensures
        fold::<A>(s) == A::identity_s_spec(),
        fold::<A>(s.subrange(0, s.len() as int)) == A::identity_s_spec(),
{
    lemma_is_monoid::<A>();
    fold::lemma_product_identities(s, A::identity_s_spec(), op_s_fn::<A>());
    assert(s.subrange(0, s.len() as int) =~= s);
}

/// Folding a range is folding its two parts, split anywhere, and combining
/// the results in order: `fold(l..r) == op_s(fold(l..mid), fold(mid..r))`.
pub proof fn lemma_fold_split<A: MonoidAction>(s: Seq<A::S>, l: int, mid: int, r: int)
    requires
        0 <= l <= mid <= r <= s.len(),
    ensures
        fold::<A>(s.subrange(l, r)) == A::op_s_spec(
            fold::<A>(s.subrange(l, mid)),
            fold::<A>(s.subrange(mid, r)),
        ),
{
    lemma_is_monoid::<A>();
    fold::lemma_product_split(s, A::identity_s_spec(), op_s_fn::<A>(), l, mid, r);
}

/// The sequence `s` with the operator `f` applied to each element of the
/// range `l..r`: what a range update leaves behind.
pub open spec fn applied<A: MonoidAction>(s: Seq<A::S>, l: int, r: int, f: A::F) -> Seq<A::S> {
    Seq::new(
        s.len(),
        |i: int|
            if l <= i < r {
                A::apply_spec(s[i], f)
            } else {
                s[i]
            },
    )
}

} // verus!
