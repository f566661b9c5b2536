//! Group
//!
//! A set with an associative binary operation, an identity element and an
//! inverse for every element.
//!
//! # Definition
//!
//! A set `G` with a binary operation `*` is a group if
//!
//! - **associativity**: `(a * b) * c = a * (b * c)` for all `a, b, c`,
//! - **identity**: there is an `e` with `a * e = e * a = a` for all `a`,
//! - **inverse**: every `a` has an `a^(-1)` with
//!   `a * a^(-1) = a^(-1) * a = e`.

use vstd::prelude::*;

verus! {

/// A *group*: a carrier [`Self::G`], an associative operation
/// [`Self::op`], an identity element [`Self::identity`] and inverses
/// [`Self::inv`].
///
/// The executable operations are tied to their mathematical counterparts,
/// and an implementation has to prove the group axioms about them.
pub trait Group {
    /// The underlying set of the group.
    type G: Clone;

    /// The identity element, as a mathematical value.
    spec fn identity_spec() -> Self::G;

    /// The binary operation, as a mathematical function.
    spec fn op_spec(a: Self::G, b: Self::G) -> Self::G;

    /// The inverse, as a mathematical function.
    spec fn inv_spec(a: Self::G) -> Self::G;

    /// `e` is a left and right identity of the operation.
    proof fn lemma_identity(a: Self::G)
        ensures
            Self::op_spec(a, Self::identity_spec()) == a,
            Self::op_spec(Self::identity_spec(), a) == a,
    ;

    /// The operation is associative.
    proof fn lemma_associative(a: Self::G, b: Self::G, c: Self::G)
        ensures
            Self::op_spec(Self::op_spec(a, b), c) == Self::op_spec(a, Self::op_spec(b, c)),
    ;

    /// `inv(a)` is a left and right inverse of `a`.
    proof fn lemma_inverse(a: Self::G)
        ensures
            Self::op_spec(a, Self::inv_spec(a)) == Self::identity_spec(),
            Self::op_spec(Self::inv_spec(a), a) == Self::identity_spec(),
    ;

    /// Returns the identity element of the group.
    fn identity() -> (e: Self::G)
        ensures
            e == Self::identity_spec(),
    ;

    /// Returns the result of the binary operation on `a` and `b`.
    fn op(a: &Self::G, b: &Self::G) -> (r: Self::G)
        ensures
            r == Self::op_spec(*a, *b),
    ;

    /// Returns the inverse element of `a`.
    fn inv(a: &Self::G) -> (r: Self::G)
        ensures
            r == Self::inv_spec(*a),
    ;

    /// Returns `a * b^(-1)`.
    #[inline]
    fn div(a: &Self::G, b: &Self::G) -> (r: Self::G)
        ensures
            r == Self::op_spec(*a, Self::inv_spec(*b)),
    {
        Self::op(a, &Self::inv(b))
    }
}

} // verus!
