//! Specifications of standard-library functions that the library calls.
//!
//! Nothing here is proved: each item states what the documentation of the
//! standard library says of a function.

use vstd::prelude::*;

verus! {

/// [`slice::reverse`] turns the order of the elements around, in place.
pub assume_specification<Elem>[ <[Elem]>::reverse ](slice: &mut [Elem])
    ensures
        final(slice)@ == old(slice)@.reverse(),
;

} // verus!
