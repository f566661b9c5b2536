//! Interval arguments of the range queries.

use vstd::prelude::*;

verus! {

/// One end of an interval of positions in a sequence.
///
/// A pair of bounds, one for each end, names an interval in any of the usual
/// forms; the queries normalise it to the half-open form `[l, r)`.
#[derive(Debug, Clone, Copy)]
pub enum Bound {
    /// The interval reaches up to and including this position.
    Included(usize),
    /// The interval reaches up to, but not including, this position.
    Excluded(usize),
    /// The interval reaches to the end of the sequence on this side.
    Unbounded,
}

impl Bound {
    /// The first position of an interval that starts at this bound.
    pub open spec fn first(self) -> int {
        match self {
            Bound::Included(x) => x as int,
            Bound::Excluded(x) => x + 1,
            Bound::Unbounded => 0,
        }
    }

    /// One past the last position of an interval that ends at this bound, in
    /// a sequence of `n` elements.
    pub open spec fn past(self, n: int) -> int {
        match self {
            Bound::Included(x) => x + 1,
            Bound::Excluded(x) => x as int,
            Bound::Unbounded => n,
        }
    }
}

/// The pair of bounds names a non-reversed interval inside `0 .. n`.
pub open spec fn is_range(start: Bound, end: Bound, n: int) -> bool {
    0 <= start.first() <= end.past(n) <= n
}

/// Normalises an interval inside a sequence of `n` elements to `[l, r)`.
pub fn half_open(start: Bound, end: Bound, n: usize) -> (lr: (usize, usize))
    requires
        is_range(start, end, n as int),
    ensures
        lr.0 == start.first(),
        lr.1 == end.past(n as int),
{
    let l = match start {
        Bound::Included(x) => x,
        Bound::Excluded(x) => x + 1,
        Bound::Unbounded => 0,
    };
    let r = match end {
        Bound::Included(x) => x + 1,
        Bound::Excluded(x) => x,
        Bound::Unbounded => n,
    };
    (l, r)
}

} // verus!
