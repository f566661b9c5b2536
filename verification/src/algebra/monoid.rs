//! Monoid
//!
//! A set with an associative binary operation and an identity element.

use vstd::prelude::*;

use crate::algebra::fold;

verus! {

/// A *monoid*: a carrier [`Self::S`], an associative operation [`Self::op`]
/// and an identity element [`Self::identity`].
///
/// The executable operations are tied to their mathematical counterparts
/// `op_spec` and `identity_spec`, and an implementation has to prove the two
/// monoid axioms about them.
pub trait Monoid {
    /// The underlying set of the monoid.
    type S: Clone;

    /// The identity element, as a mathematical value.
    spec fn identity_spec() -> Self::S;

    /// The binary operation, as a mathematical function.
    spec fn op_spec(a: Self::S, b: Self::S) -> Self::S;

    /// `e` is a left and right identity of the operation.
    proof fn lemma_identity(a: Self::S)
        ensures
            Self::op_spec(a, Self::identity_spec()) == a,
            Self::op_spec(Self::identity_spec(), a) == a,
    ;

    /// The operation is associative.
    proof fn lemma_associative(a: Self::S, b: Self::S, c: Self::S)
        ensures
            Self::op_spec(Self::op_spec(a, b), c) == Self::op_spec(a, Self::op_spec(b, c)),
    ;

    /// Returns the identity element of the monoid.
    fn identity() -> (e: Self::S)
        ensures
            e == Self::identity_spec(),
    ;

    /// Returns the result of the binary operation on `a` and `b`.
    fn op(a: &Self::S, b: &Self::S) -> (r: Self::S)
        ensures
            r == Self::op_spec(*a, *b),
    ;
}

/// The operation of `M` as a mathematical function value.
pub open spec fn op_fn<M: Monoid>() -> spec_fn(M::S, M::S) -> M::S {
    |a: M::S, b: M::S| M::op_spec(a, b)
}

/// The product `s[0] * s[1] * .. * s[len - 1]` in `M`, taken from left to
/// right; the identity for the empty sequence.
pub open spec fn fold<M: Monoid>(s: Seq<M::S>) -> M::S {
    fold::product(s, M::identity_spec(), op_fn::<M>())
}

/// Every implementation of [`Monoid`] satisfies the monoid axioms.
pub proof fn lemma_is_monoid<M: Monoid>()
    ensures
        fold::is_monoid(M::identity_spec(), op_fn::<M>()),
{
    reveal(fold::is_monoid);
    let e = M::identity_spec();
    let op = op_fn::<M>();
    assert forall|a: M::S| #[trigger] op(a, e) == a by {
        M::lemma_identity(a);
    }
    assert forall|a: M::S| #[trigger] op(e, a) == a by {
        M::lemma_identity(a);
    }
    assert forall|a: M::S, b: M::S, c: M::S| #[trigger] op(op(a, b), c) == op(a, op(b, c)) by {
        M::lemma_associative(a, b, c);
    }
}

/// Folding a sequence of identities gives the identity: the whole of it,
/// and so every range of it.
pub proof fn lemma_fold_identities<M: Monoid>(s: Seq<M::S>)
    requires
        forall|i: int| 0 <= i < s.len() ==> s[i] == M::identity_spec(),
    ensures
        fold::<M>(s) == M::identity_spec(),
        fold::<M>(s.subrange(0, s.len() as int)) == M::identity_spec(),
{
    lemma_is_monoid::<M>();
    fold::lemma_product_identities(s, M::identity_spec(), op_fn::<M>());
    assert(s.subrange(0, s.len() as int) =~= s);
}

/// After the element at `i` has been set to `x`, the element at `i` is `x`,
/// and so is the fold of the range that holds nothing but it.
pub proof fn lemma_fold_after_set<M: Monoid>(s: Seq<M::S>, i: int, x: M::S)
    requires
        0 <= i < s.len(),
    ensures
        s.update(i, x)[i] == x,
        fold::<M>(s.update(i, x).subrange(i, i + 1)) == x,
{
    lemma_is_monoid::<M>();
    fold::lemma_product_single(
        s.update(i, x).subrange(i, i + 1),
        M::identity_spec(),
        op_fn::<M>(),
    );
}

/// Folding a range is folding its two parts, split anywhere, and combining
/// the results in order: `fold(l..r) == op(fold(l..mid), fold(mid..r))`.
pub proof fn lemma_fold_split<M: Monoid>(s: Seq<M::S>, l: int, mid: int, r: int)
    requires
        0 <= l <= mid <= r <= s.len(),
    ensures
        fold::<M>(s.subrange(l, r)) == M::op_spec(
            fold::<M>(s.subrange(l, mid)),
            fold::<M>(s.subrange(mid, r)),
        ),
{
    lemma_is_monoid::<M>();
    fold::lemma_product_split(s, M::identity_spec(), op_fn::<M>(), l, mid, r);
}

} // verus!
