//! Disjoint Set Union (Union-Find)
//!
//! This data structure maintains a collection of disjoint sets. It supports
//! two primary operations:
//!
//! - **find**: determine which set an element belongs to.
//! - **union**: merge two sets into one.

use vstd::prelude::*;

use crate::data_structure::partition;

verus! {

/// A *Disjoint Set Union* (DSU), also known as a *Union-Find* data
/// structure.
///
/// Each element initially belongs to its own singleton set. Sets can be
/// merged (`union`) and queried for membership (`find` or `is_same`).
///
/// The view of the structure gives each element the representative of the
/// set that it belongs to.
#[derive(Clone)]
pub struct DSU {
    /// For a representative, minus the size of its set; for any other
    /// element, an element of the same set that is nearer to the
    /// representative.
    parent: Vec<i32>,
    /// The number of sets.
    num_sets: usize,
    /// The representative of each element.
    roots: Ghost<Seq<usize>>,
    /// The number of steps from each element to its representative.
    steps: Ghost<Seq<nat>>,
}

impl View for DSU {
    type V = Seq<usize>;

    closed spec fn view(&self) -> Seq<usize> {
        self.roots@
    }
}

impl DSU {
    /// The representation invariant.
    pub closed spec fn wf(&self) -> bool {
        &&& partition::is_forest(self.parent@, self.roots@, self.steps@)
        &&& self.num_sets == partition::class_count(self.roots@)
    }

    /// Every element has a representative among the elements, which
    /// represents itself.
    pub proof fn lemma_representatives(&self, x: int)
        requires
            self.wf(),
            0 <= x < self@.len(),
        ensures
            self@[x] < self@.len(),
            self@[self@[x] as int] == self@[x],
    {
        assert(partition::is_linked(self.parent@, self.roots@, self.steps@, x));
        assert(partition::is_linked(self.parent@, self.roots@, self.steps@, self.roots@[x] as int));
    }

    /// Creates a new DSU with `n` disjoint singleton sets.
    ///
    /// ## Complexity
    ///
    /// `O(n)`
    pub fn new(n: usize) -> (dsu: Self)
        requires
            n <= i32::MAX,
        ensures
            dsu.wf(),
            dsu@ == partition::singletons(n as nat),
    {
        let mut parent: Vec<i32> = Vec::with_capacity(n);
        let mut i: usize = 0;
        while i < n
            invariant
                i <= n,
                parent@.len() == i,
                forall|j: int| 0 <= j < i ==> parent@[j] == -1,
            decreases n - i,
        {
            parent.push(-1);
            i += 1;
        }
        let ghost roots = partition::singletons(n as nat);
        let ghost steps = Seq::new(n as nat, |i: int| 0nat);
        proof {
            partition::lemma_singletons(n as nat, 0);
            assert forall|x: int| 0 <= x < n implies #[trigger] partition::is_linked(
                parent@,
                roots,
                steps,
                x,
            ) by {
                partition::lemma_singletons(n as nat, x as usize);
            }
        }
        Self { parent, num_sets: n, roots: Ghost(roots), steps: Ghost(steps) }
    }

    /// Returns the representative of the set containing `x`, and shortens
    /// the paths from `x` and the elements above it to the representative.
    ///
    /// ## Complexity
    ///
    /// `O(α(n))` amortized, where α is the inverse Ackermann function.
    pub fn find(&mut self, x: usize) -> (root: usize)
        requires
            old(self).wf(),
            x < old(self)@.len(),
        ensures
            final(self).wf(),
            final(self)@ == old(self)@,
            root == old(self)@[x as int],
            root < old(self)@.len(),
            old(self)@[root as int] == root,
    {
        proof {
            self.lemma_representatives(x as int);
        }
        let mut x = x;
        let mut root = x;
        while self.parent[root] >= 0
            invariant
                self.wf(),
                root < self.parent@.len(),
                self.roots@[root as int] == self.roots@[x as int],
            decreases self.steps@[root as int],
        {
            proof {
                assert(partition::is_linked(self.parent@, self.roots@, self.steps@, root as int));
            }
            root = self.parent[root] as usize;
        }
        proof {
            assert(partition::is_linked(self.parent@, self.roots@, self.steps@, root as int));
        }
        while self.parent[x] >= 0
            invariant
                self.wf(),
                self.roots@ == old(self).roots@,
                self.num_sets == old(self).num_sets,
                x < self.parent@.len(),
                root < self.parent@.len(),
                self.parent@[root as int] < 0,
                self.roots@[x as int] == root,
            decreases self.steps@[x as int],
        {
            let ghost (parent0, steps0) = (self.parent@, self.steps@);
            proof {
                assert(partition::is_linked(parent0, self.roots@, steps0, x as int));
                assert(partition::is_linked(parent0, self.roots@, steps0, root as int));
            }
            let parent = self.parent[x] as usize;
            self.parent[x] = root as i32;
            proof {
                self.steps@ = steps0.update(x as int, 1);
                assert forall|y: int| 0 <= y < self.parent@.len() implies #[trigger] partition::is_linked(
                    self.parent@,
                    self.roots@,
                    self.steps@,
                    y,
                ) by {
                    assert(partition::is_linked(parent0, self.roots@, steps0, y));
                    assert(partition::is_linked(parent0, self.roots@, steps0, self.roots@[y] as int));
                    if y != x && parent0[y] == x {
                        assert(steps0[y] > steps0[x as int] >= 1);
                    }
                }
            }
            x = parent;
        }
        root
    }

    /// Returns `true` if `x` and `y` belong to the same set.
    ///
    /// ## Complexity
    ///
    /// `O(α(n))` amortized, where α is the inverse Ackermann function.
    pub fn is_same(&mut self, x: usize, y: usize) -> (same: bool)
        requires
            old(self).wf(),
            x < old(self)@.len(),
            y < old(self)@.len(),
        ensures
            final(self).wf(),
            final(self)@ == old(self)@,
            same == (old(self)@[x as int] == old(self)@[y as int]),
    {
        let a = self.find(x);
        let b = self.find(y);
        a == b
    }

    /// Merges the sets containing `x` and `y`: the smaller set joins the
    /// larger one, and where both have the same size, that of `y` joins
    /// that of `x`.
    ///
    /// ## Returns
    ///
    /// - `true` if the sets were disjoint and are now merged.
    /// - `false` if `x` and `y` were already in the same set.
    ///
    /// ## Complexity
    ///
    /// `O(α(n))` amortized, where α is the inverse Ackermann function.
    pub fn union(&mut self, x: usize, y: usize) -> (merged: bool)
        requires
            old(self).wf(),
            x < old(self)@.len(),
            y < old(self)@.len(),
        ensures
            final(self).wf(),
            merged == (old(self)@[x as int] != old(self)@[y as int]),
            !merged ==> final(self)@ == old(self)@,
            merged ==> final(self)@ == (if partition::class_size(old(self)@, old(self)@[x as int])
                >= partition::class_size(old(self)@, old(self)@[y as int]) {
                partition::merged(old(self)@, old(self)@[x as int], old(self)@[y as int])
            } else {
                partition::merged(old(self)@, old(self)@[y as int], old(self)@[x as int])
            }),
    {
        let mut x = self.find(x);
        let mut y = self.find(y);
        if x == y {
            return false;
        }
        proof {
            assert(partition::is_linked(self.parent@, self.roots@, self.steps@, x as int));
            assert(partition::is_linked(self.parent@, self.roots@, self.steps@, y as int));
        }
        if self.parent[x] > self.parent[y] {
            core::mem::swap(&mut x, &mut y);
        }
        let ghost (parent0, roots0, steps0) = (self.parent@, self.roots@, self.steps@);
        proof {
            partition::lemma_two_classes_bound(roots0, x, y);
            partition::lemma_class_count_positive(roots0, y as int);
            partition::lemma_merged_class_count(roots0, x, y);
        }
        self.parent[x] += self.parent[y];
        self.parent[y] = x as i32;
        self.num_sets -= 1;
        proof {
            self.roots@ = partition::merged(roots0, x, y);
            self.steps@ = Seq::new(
                steps0.len(),
                |i: int|
                    if roots0[i] == y {
                        steps0[i] + 1
                    } else {
                        steps0[i]
                    },
            );
            assert forall|z: int| 0 <= z < self.parent@.len() implies #[trigger] partition::is_linked(
                self.parent@,
                self.roots@,
                self.steps@,
                z,
            ) by {
                assert(partition::is_linked(parent0, roots0, steps0, z));
                assert(partition::is_linked(parent0, roots0, steps0, roots0[z] as int));
                partition::lemma_merged_class_size(roots0, x, y, self.roots@[z]);
                if parent0[z] >= 0 {
                    assert(partition::is_linked(parent0, roots0, steps0, parent0[z] as int));
                }
            }
        }
        true
    }

    /// Returns the size of the set containing `x`.
    ///
    /// ## Complexity
    ///
    /// `O(α(n))` amortized, where α is the inverse Ackermann function.
    pub fn set_size(&mut self, x: usize) -> (size: usize)
        requires
            old(self).wf(),
            x < old(self)@.len(),
        ensures
            final(self).wf(),
            final(self)@ == old(self)@,
            size == partition::class_size(old(self)@, old(self)@[x as int]),
    {
        let root = self.find(x);
        proof {
            assert(partition::is_linked(self.parent@, self.roots@, self.steps@, x as int));
            assert(partition::is_linked(self.parent@, self.roots@, self.steps@, root as int));
            partition::lemma_class_size_bound(self.roots@, root);
        }
        (-self.parent[root]) as usize
    }

    /// Returns the total number of disjoint sets.
    ///
    /// # Complexity
    ///
    /// `O(1)`
    pub fn num_sets(&self) -> (count: usize)
        requires
            self.wf(),
        ensures
            count == partition::class_count(self@),
    {
        self.num_sets
    }

    /// Returns the total number of elements managed by this DSU.
    ///
    /// ## Complexity
    ///
    /// `O(1)`
    pub fn len(&self) -> (n: usize)
        requires
            self.wf(),
        ensures
            n == self@.len(),
    {
        self.parent.len()
    }

    /// Returns `true` if the DSU contains no elements.
    pub fn is_empty(&self) -> (empty: bool)
        requires
            self.wf(),
        ensures
            empty == (self@.len() == 0),
    {
        self.parent.len() == 0
    }
}

} // verus!
