//! Run Length
//!
//! Compressing and decompressing sequences by run-length encoding.
//!
//! # Definition
//!
//! **Run-length encoding** represents a sequence by its runs of equal
//! consecutive elements, each as a pair `(value, count)`. For a sequence
//! `a`, its encoding is the sequence `r = [(v0, c0), .., (vm, cm)]` where
//! - each `ci > 0`,
//! - `vi != v(i+1)` for all `0 <= i < m`,
//! - `a` is `v0` repeated `c0` times, then `v1` repeated `c1` times, and so
//!   on.

use vstd::laws_eq;
use vstd::prelude::*;

verus! {

/// The sequence that `runs` encodes: each value repeated as often as its
/// count says, in order.
pub open spec fn expand<T>(runs: Seq<(T, usize)>) -> Seq<T>
    decreases runs.len(),
{
    if runs.len() == 0 {
        Seq::empty()
    } else {
        expand(runs.drop_last()) + Seq::new(runs.last().1 as nat, |i: int| runs.last().0)
    }
}

/// No run of `runs` is empty, and no two neighbouring runs have the same
/// value.
pub open spec fn is_compressed<T>(runs: Seq<(T, usize)>) -> bool {
    &&& forall|i: int| 0 <= i < runs.len() ==> (#[trigger] runs[i]).1 > 0
    &&& forall|i: int| 0 <= i < runs.len() - 1 ==> (#[trigger] runs[i]).0 != runs[i + 1].0
}

/// Encodes a sequence by run-length encoding.
///
/// ## Returns
///
/// The runs of `a`: pairs `(value, count)` with positive counts, no two
/// neighbours with the same value, that expand to `a` again.
///
/// ## Complexity
///
/// `O(n)`, where `n` is the length of the input sequence.
pub fn run_length_encoding<T: Copy + PartialEq>(a: &[T]) -> (runs: Vec<(T, usize)>)
    requires
        laws_eq::obeys_concrete_eq::<T>(),
    ensures
        is_compressed(runs@),
        expand(runs@) == a@,
{
    let mut runs: Vec<(T, usize)> = Vec::new();
    let mut i: usize = 0;
    proof {
        reveal(laws_eq::obeys_concrete_eq);
        assert(a@.subrange(0, 0) =~= expand(runs@));
    }
    while i < a.len()
        invariant
            laws_eq::obeys_concrete_eq::<T>(),
            i <= a@.len(),
            is_compressed(runs@),
            expand(runs@) == a@.subrange(0, i as int),
            forall|j: int| 0 <= j < runs@.len() ==> (#[trigger] runs@[j]).1 <= i,
        decreases a@.len() - i,
    {
        let x = a[i];
        let k = runs.len();
        let ghost before = runs@;
        proof {
            reveal(laws_eq::obeys_concrete_eq);
        }
        if k > 0 && runs[k - 1].0 == x {
            let count = runs[k - 1].1;
            runs[k - 1] = (x, count + 1);
            proof {
                assert(runs@.drop_last() =~= before.drop_last());
                assert(Seq::new((count + 1) as nat, |i: int| x) =~= Seq::new(
                    count as nat,
                    |i: int| x,
                ).push(x));
                assert(expand(runs@) =~= expand(before).push(x));
            }
        } else {
            runs.push((x, 1));
            proof {
                assert(runs@.drop_last() =~= before);
                assert(Seq::new(1, |i: int| x) =~= seq![x]);
                assert(expand(runs@) =~= expand(before).push(x));
            }
        }
        proof {
            assert(a@.subrange(0, i + 1) =~= a@.subrange(0, i as int).push(x));
        }
        i += 1;
    }
    proof {
        assert(a@.subrange(0, a@.len() as int) =~= a@);
    }
    runs
}

/// Decodes a run-length encoded sequence.
///
/// For any sequence `s`,
/// `run_length_decofing(&run_length_encoding(&s))` is `s` again.
///
/// ## Returns
///
/// The sequence in which each `value` is repeated `count` times.
///
/// ## Complexity
///
/// `O(n)`, where `n` is the total length of the decoded sequence.
pub fn run_length_decofing<T: Copy + PartialEq>(a: &[(T, usize)]) -> (decoded: Vec<T>)
    ensures
        decoded@ == expand(a@),
{
    let mut decoded: Vec<T> = Vec::new();
    let mut i: usize = 0;
    proof {
        assert(a@.subrange(0, 0) =~= Seq::empty());
    }
    while i < a.len()
        invariant
            i <= a@.len(),
            decoded@ == expand(a@.subrange(0, i as int)),
        decreases a@.len() - i,
    {
        let (value, count) = a[i];
        let ghost before = decoded@;
        let mut j: usize = 0;
        while j < count
            invariant
                j <= count,
                decoded@ == before + Seq::new(j as nat, |i: int| value),
            decreases count - j,
        {
            decoded.push(value);
            proof {
                assert(decoded@ =~= before + Seq::new((j + 1) as nat, |i: int| value));
            }
            j += 1;
        }
        proof {
            assert(a@.subrange(0, i + 1).drop_last() =~= a@.subrange(0, i as int));
        }
        i += 1;
    }
    proof {
        assert(a@.subrange(0, a@.len() as int) =~= a@);
    }
    decoded
}

} // verus!
