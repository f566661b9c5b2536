//! Ordered products of a sequence under a binary operation.
//!
//! The range-query trees answer "combine `a[l], .., a[r-1]` from left to
//! right". This module defines that combination once, for any operation given
//! as a mathematical function, and proves the facts about it that only need
//! the monoid axioms.

use vstd::prelude::*;

verus! {

/// `e` and `op` satisfy the monoid axioms: `e` is a two-sided identity of
/// `op`, and `op` is associative.
#[verifier::opaque]
pub open spec fn is_monoid<S>(e: S, op: spec_fn(S, S) -> S) -> bool {
    &&& forall|a: S| #[trigger] op(a, e) == a
    &&& forall|a: S| #[trigger] op(e, a) == a
    &&& forall|a: S, b: S, c: S| #[trigger] op(op(a, b), c) == op(a, op(b, c))
}

/// The product `s[0] * s[1] * .. * s[len - 1]`, taken from left to right;
/// `e` for the empty sequence.
pub open spec fn product<S>(s: Seq<S>, e: S, op: spec_fn(S, S) -> S) -> S
    decreases s.len(),
{
    if s.len() == 0 {
        e
    } else {
        op(product(s.drop_last(), e, op), s.last())
    }
}

pub proof fn lemma_right_identity<S>(e: S, op: spec_fn(S, S) -> S, a: S)
    requires
        is_monoid(e, op),
    ensures
        op(a, e) == a,
{
    reveal(is_monoid);
}

pub proof fn lemma_left_identity<S>(e: S, op: spec_fn(S, S) -> S, a: S)
    requires
        is_monoid(e, op),
    ensures
        op(e, a) == a,
{
    reveal(is_monoid);
}

pub proof fn lemma_associative<S>(e: S, op: spec_fn(S, S) -> S, a: S, b: S, c: S)
    requires
        is_monoid(e, op),
    ensures
        op(op(a, b), c) == op(a, op(b, c)),
{
    reveal(is_monoid);
}

/// The product of a one-element sequence is that element.
pub proof fn lemma_product_single<S>(s: Seq<S>, e: S, op: spec_fn(S, S) -> S)
    requires
        is_monoid(e, op),
        s.len() == 1,
    ensures
        product(s, e, op) == s[0],
{
    assert(s.drop_last().len() == 0);
    assert(product(s.drop_last(), e, op) == e);
    lemma_left_identity(e, op, s[0]);
}

/// The product of a concatenation is the product of the two products.
pub proof fn lemma_product_concat<S>(a: Seq<S>, b: Seq<S>, e: S, op: spec_fn(S, S) -> S)
    requires
        is_monoid(e, op),
    ensures
        product(a + b, e, op) == op(product(a, e, op), product(b, e, op)),
    decreases b.len(),
{
    if b.len() == 0 {
        assert(a + b =~= a);
        lemma_right_identity(e, op, product(a, e, op));
    } else {
        assert((a + b).drop_last() =~= a + b.drop_last());
        assert((a + b).last() == b.last());
        lemma_product_concat(a, b.drop_last(), e, op);
        lemma_associative(e, op, product(a, e, op), product(b.drop_last(), e, op), b.last());
    }
}

/// Splitting a range at any point in it and combining the two products, in
/// order, gives the product of the whole range.
pub proof fn lemma_product_split<S>(
    s: Seq<S>,
    e: S,
    op: spec_fn(S, S) -> S,
    l: int,
    mid: int,
    r: int,
)
    requires
        is_monoid(e, op),
        0 <= l <= mid <= r <= s.len(),
    ensures
        product(s.subrange(l, r), e, op) == op(
            product(s.subrange(l, mid), e, op),
            product(s.subrange(mid, r), e, op),
        ),
{
    assert(s.subrange(l, r) =~= s.subrange(l, mid) + s.subrange(mid, r));
    lemma_product_concat(s.subrange(l, mid), s.subrange(mid, r), e, op);
}

/// A sequence that holds nothing but the identity has the identity as its
/// product.
pub proof fn lemma_product_identities<S>(s: Seq<S>, e: S, op: spec_fn(S, S) -> S)
    requires
        is_monoid(e, op),
        forall|i: int| 0 <= i < s.len() ==> s[i] == e,
    ensures
        product(s, e, op) == e,
    decreases s.len(),
{
    if s.len() > 0 {
        lemma_product_identities(s.drop_last(), e, op);
        lemma_right_identity(e, op, e);
    }
}

} // verus!
