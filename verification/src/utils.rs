//! Utilities
//!
//! # Available traits
//!
//! - [`ChMinMax`]: `chmin` and `chmax` on every `PartialOrd` value.

use vstd::prelude::*;
use vstd::std_specs::cmp::PartialOrdIs;
use vstd::std_specs::cmp::PartialOrdSpec;

verus! {

/// Updating a value to the smaller, or the larger, of itself and another.
///
/// # Available methods
///
/// - [`chmin`](Self::chmin): keeps the smaller value
/// - [`chmax`](Self::chmax): keeps the larger value
pub trait ChMinMax: Sized {
    /// Replaces `self` by `x` if `x` is smaller; returns whether it did.
    fn chmin(&mut self, x: Self) -> bool;

    /// Replaces `self` by `x` if `x` is larger; returns whether it did.
    fn chmax(&mut self, x: Self) -> bool;
}

impl<T: PartialOrd> ChMinMax for T {
    /// Updates `self` to the minimum of `self` and `x`.
    /// Returns `true` if `self` was updated (i.e., `self > x`), `false`
    /// otherwise.
    fn chmin(&mut self, x: Self) -> (updated: bool)
        ensures
            T::obeys_partial_cmp_spec() ==> updated == (*old(self)).is_gt(&x),
            *final(self) == if updated {
                x
            } else {
                *old(self)
            },
    {
        if *self > x {
            *self = x;
            true
        } else {
            false
        }
    }

    /// Updates `self` to the maximum of `self` and `x`.
    /// Returns `true` if `self` was updated (i.e., `self < x`), `false`
    /// otherwise.
    fn chmax(&mut self, x: Self) -> (updated: bool)
        ensures
            T::obeys_partial_cmp_spec() ==> updated == (*old(self)).is_lt(&x),
            *final(self) == if updated {
                x
            } else {
                *old(self)
            },
    {
        if *self < x {
            *self = x;
            true
        } else {
            false
        }
    }
}

} // verus!
