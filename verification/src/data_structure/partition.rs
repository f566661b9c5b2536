//! Partitions of `0 .. n` given by a representative for each element.
//!
//! A sequence `roots` of length `n` stands for the partition of `0 .. n`
//! in which `x` and `y` belong together where `roots[x] == roots[y]`. This
//! module counts the elements of a class and the classes, proves what
//! merging two classes does to the counts, and says when a buffer of parent
//! links is a forest whose trees are the classes.

use vstd::prelude::*;

verus! {

/// The number of elements whose representative is `r`.
pub open spec fn class_size(roots: Seq<usize>, r: usize) -> nat
    decreases roots.len(),
{
    if roots.len() == 0 {
        0
    } else {
        class_size(roots.drop_last(), r) + if roots.last() == r {
            1nat
        } else {
            0nat
        }
    }
}

/// The number of elements that are their own representative: the number
/// of classes, where every representative represents itself.
pub open spec fn class_count(roots: Seq<usize>) -> nat
    decreases roots.len(),
{
    if roots.len() == 0 {
        0
    } else {
        class_count(roots.drop_last()) + if roots.last() == roots.len() - 1 {
            1nat
        } else {
            0nat
        }
    }
}

/// The partition into singletons: every element represents itself.
pub open spec fn singletons(n: nat) -> Seq<usize> {
    Seq::new(n, |i: int| i as usize)
}

/// The partition `roots` after the class of `gone` has joined the class of
/// `keep`.
pub open spec fn merged(roots: Seq<usize>, keep: usize, gone: usize) -> Seq<usize> {
    Seq::new(
        roots.len(),
        |i: int|
            if roots[i] == gone {
                keep
            } else {
                roots[i]
            },
    )
}

/// The entry of `x` in the parent buffer agrees with the representatives
/// and the step counts.
pub open spec fn is_linked(parent: Seq<i32>, roots: Seq<usize>, steps: Seq<nat>, x: int) -> bool {
    let p = parent[x];
    let r = roots[x];
    &&& r < parent.len()
    &&& parent[r as int] < 0
    &&& if p < 0 {
        &&& r == x
        &&& steps[x] == 0
        &&& -p == class_size(roots, r)
    } else {
        &&& p < parent.len()
        &&& roots[p as int] == r
        &&& steps[p as int] < steps[x]
    }
}

/// The parent buffer is a forest over the elements, whose trees are the
/// classes of `roots`.
pub open spec fn is_forest(parent: Seq<i32>, roots: Seq<usize>, steps: Seq<nat>) -> bool {
    &&& parent.len() <= i32::MAX
    &&& roots.len() == parent.len()
    &&& steps.len() == parent.len()
    &&& forall|x: int| 0 <= x < parent.len() ==> #[trigger] is_linked(parent, roots, steps, x)
}

/// A class has at most as many elements as there are.
pub proof fn lemma_class_size_bound(roots: Seq<usize>, r: usize)
    ensures
        class_size(roots, r) <= roots.len(),
    decreases roots.len(),
{
    if roots.len() > 0 {
        lemma_class_size_bound(roots.drop_last(), r);
    }
}

/// Two different classes have together at most as many elements as there
/// are.
pub proof fn lemma_two_classes_bound(roots: Seq<usize>, r: usize, s: usize)
    requires
        r != s,
    ensures
        class_size(roots, r) + class_size(roots, s) <= roots.len(),
    decreases roots.len(),
{
    if roots.len() > 0 {
        lemma_two_classes_bound(roots.drop_last(), r, s);
    }
}

/// Where the element `x` represents itself, it counts as a class.
pub proof fn lemma_class_count_positive(roots: Seq<usize>, x: int)
    requires
        0 <= x < roots.len(),
        roots[x] == x,
    ensures
        class_count(roots) >= 1,
    decreases roots.len(),
{
    if x < roots.len() - 1 {
        lemma_class_count_positive(roots.drop_last(), x);
    }
}

/// Among singletons every class has one element, and there are as many
/// classes as elements.
pub proof fn lemma_singletons(n: nat, r: usize)
    requires
        n <= usize::MAX,
    ensures
        r < n ==> class_size(singletons(n), r) == 1,
        r >= n ==> class_size(singletons(n), r) == 0,
        class_count(singletons(n)) == n,
    decreases n,
{
    if n > 0 {
        lemma_singletons((n - 1) as nat, r);
        assert(singletons(n).drop_last() =~= singletons((n - 1) as nat));
    }
}

/// Merging the class of `gone` into the class of `keep` adds its size to
/// that of `keep`, empties it, and leaves the other classes as they are.
pub proof fn lemma_merged_class_size(roots: Seq<usize>, keep: usize, gone: usize, r: usize)
    requires
        keep != gone,
    ensures
        class_size(merged(roots, keep, gone), r) == if r == keep {
            class_size(roots, keep) + class_size(roots, gone)
        } else if r == gone {
            0
        } else {
            class_size(roots, r)
        },
    decreases roots.len(),
{
    if roots.len() > 0 {
        lemma_merged_class_size(roots.drop_last(), keep, gone, r);
        assert(merged(roots, keep, gone).drop_last() =~= merged(roots.drop_last(), keep, gone));
    }
}

/// Merging the class that `gone` represents into another one leaves one
/// class less.
pub proof fn lemma_merged_class_count(roots: Seq<usize>, keep: usize, gone: usize)
    requires
        keep != gone,
        keep < roots.len(),
        roots[keep as int] == keep,
    ensures
        class_count(merged(roots, keep, gone)) + (if gone < roots.len() && roots[gone as int]
            == gone {
            1nat
        } else {
            0nat
        }) == class_count(roots),
    decreases roots.len(),
{
    if roots.len() > 0 {
        let shorter = roots.drop_last();
        assert(merged(roots, keep, gone).drop_last() =~= merged(shorter, keep, gone));
        if keep < shorter.len() {
            lemma_merged_class_count(shorter, keep, gone);
        } else {
            lemma_merged_unrepresented(shorter, keep, gone);
        }
    }
}

/// Merging into a class whose representative is no index of the sequence
/// leaves one class less where `gone` represents itself, and else as many
/// as before.
proof fn lemma_merged_unrepresented(roots: Seq<usize>, keep: usize, gone: usize)
    requires
        keep != gone,
        keep >= roots.len(),
    ensures
        class_count(merged(roots, keep, gone)) + (if gone < roots.len() && roots[gone as int]
            == gone {
            1nat
        } else {
            0nat
        }) == class_count(roots),
    decreases roots.len(),
{
    if roots.len() > 0 {
        let shorter = roots.drop_last();
        assert(merged(roots, keep, gone).drop_last() =~= merged(shorter, keep, gone));
        lemma_merged_unrepresented(shorter, keep, gone);
    }
}

} // verus!
