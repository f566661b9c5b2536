//! Potential Disjoint Set Union (Union-Find)
//!
//! A data structure that maintains a collection of disjoint sets, with a
//! potential for each element.
//!
//! # Definition
//!
//! A potential DSU manages `n` elements (indexed `0..n`) partitioned into
//! disjoint sets. Each element `x` has a **potential** `p[x]` relative to
//! the representative of its set.
//!
//! For elements `x` and `y` in the same set, the potential difference from
//! `x` to `y` is `p[x]^(-1) * p[y]`.
//!
//! The potentials are elements of a group `(G, *, e)`, which need not be
//! commutative.

use vstd::laws_eq;
use vstd::prelude::*;

use crate::algebra::group::Group;
use crate::data_structure::partition;

verus! {

/// What a potential DSU stands for.
pub struct Potentials<G> {
    /// The representative of each element.
    pub roots: Seq<usize>,
    /// The potential of each element, relative to its representative.
    pub potentials: Seq<G>,
}

/// Cloning a `G` gives an equal `G`, and `==` on `G` is equality.
pub open spec fn is_plain<G: Clone + PartialEq>() -> bool {
    &&& laws_eq::obeys_concrete_eq::<G>()
    &&& forall|a: G, b: G| cloned(a, b) ==> a == b
}

/// The potential that links the representative of `to` below that of
/// `from`, so that the difference from `from` to `to` becomes `p`: with
/// `pf` and `pt` the potentials of `from` and `to`, it is
/// `pf * p * pt^(-1)`.
pub open spec fn link<T: Group>(pf: T::G, p: T::G, pt: T::G) -> T::G {
    T::op_spec(T::op_spec(pf, p), T::inv_spec(pt))
}

/// The potentials after the class of `gone` has joined another class:
/// those of the class of `gone` are shifted by `shift` from the left.
pub open spec fn shifted<T: Group>(
    roots: Seq<usize>,
    potentials: Seq<T::G>,
    gone: usize,
    shift: T::G,
) -> Seq<T::G> {
    Seq::new(
        potentials.len(),
        |i: int|
            if roots[i] == gone {
                T::op_spec(shift, potentials[i])
            } else {
                potentials[i]
            },
    )
}

/// What `before` becomes when the sets of `from` and `to`, two different
/// ones, are merged with the potential difference `p` from `from` to `to`:
/// the smaller set joins the larger one, the set of `to` where both have
/// the same size, and its potentials are shifted.
pub open spec fn united<T: Group>(
    before: Potentials<T::G>,
    from: usize,
    to: usize,
    p: T::G,
) -> Potentials<T::G> {
    let rf = before.roots[from as int];
    let rt = before.roots[to as int];
    let l = link::<T>(before.potentials[from as int], p, before.potentials[to as int]);
    if partition::class_size(before.roots, rf) >= partition::class_size(before.roots, rt) {
        Potentials {
            roots: partition::merged(before.roots, rf, rt),
            potentials: shifted::<T>(before.roots, before.potentials, rt, l),
        }
    } else {
        Potentials {
            roots: partition::merged(before.roots, rt, rf),
            potentials: shifted::<T>(before.roots, before.potentials, rf, T::inv_spec(l)),
        }
    }
}

/// A *Potential DSU*, also known as a *Potential Union-Find* data
/// structure.
///
/// ## Type Parameters
///
/// - `T`: A type implementing the [`Group`] trait. The group need not be
///   commutative.
#[derive(Clone)]
pub struct PotentialDSU<T: Group> {
    /// For a representative, minus the size of its set; for any other
    /// element, an element of the same set that is nearer to the
    /// representative.
    parent: Vec<i32>,
    /// The potential from the parent to this element; the identity for a
    /// representative.
    potential: Vec<T::G>,
    /// The number of disjoint sets.
    num_sets: usize,
    /// The representative of each element.
    roots: Ghost<Seq<usize>>,
    /// The number of steps from each element to its representative.
    steps: Ghost<Seq<nat>>,
    /// The potential from the representative to each element.
    total: Ghost<Seq<T::G>>,
}

impl<T: Group> View for PotentialDSU<T> {
    type V = Potentials<T::G>;

    closed spec fn view(&self) -> Potentials<T::G> {
        Potentials { roots: self.roots@, potentials: self.total@ }
    }
}

/// The potential of `x` relative to its representative is that of its
/// parent, followed by the potential from the parent to `x`.
pub open spec fn is_weighted<T: Group>(
    parent: Seq<i32>,
    potential: Seq<T::G>,
    total: Seq<T::G>,
    x: int,
) -> bool {
    if parent[x] < 0 {
        potential[x] == T::identity_spec() && total[x] == T::identity_spec()
    } else {
        total[x] == T::op_spec(total[parent[x] as int], potential[x])
    }
}

impl<T: Group> PotentialDSU<T> where T::G: PartialEq {
    /// The representation invariant.
    pub closed spec fn wf(&self) -> bool {
        &&& is_plain::<T::G>()
        &&& partition::is_forest(self.parent@, self.roots@, self.steps@)
        &&& self.num_sets == partition::class_count(self.roots@)
        &&& self.potential@.len() == self.parent@.len()
        &&& self.total@.len() == self.parent@.len()
        &&& forall|x: int|
            0 <= x < self.parent@.len() ==> #[trigger] is_weighted::<T>(
                self.parent@,
                self.potential@,
                self.total@,
                x,
            )
    }

    /// Every element has a representative among the elements, which
    /// represents itself and has the identity as its potential; and there
    /// are as many potentials as elements.
    pub proof fn lemma_representatives(&self, x: int)
        requires
            self.wf(),
            0 <= x < self@.roots.len(),
        ensures
            self@.potentials.len() == self@.roots.len(),
            self@.roots[x] < self@.roots.len(),
            self@.roots[self@.roots[x] as int] == self@.roots[x],
            self@.potentials[self@.roots[x] as int] == T::identity_spec(),
    {
        let r = self.roots@[x] as int;
        assert(partition::is_linked(self.parent@, self.roots@, self.steps@, x));
        assert(partition::is_linked(self.parent@, self.roots@, self.steps@, r));
        assert(is_weighted::<T>(self.parent@, self.potential@, self.total@, r));
    }

    /// Creates a new potential DSU with `n` disjoint singleton sets.
    ///
    /// ## Complexity
    ///
    /// `O(n)`
    pub fn new(n: usize) -> (dsu: Self)
        requires
            n <= i32::MAX,
            is_plain::<T::G>(),
        ensures
            dsu.wf(),
            dsu@.roots == partition::singletons(n as nat),
            dsu@.potentials == Seq::new(n as nat, |i: int| T::identity_spec()),
    {
        let mut parent: Vec<i32> = Vec::with_capacity(n);
        let mut potential: Vec<T::G> = Vec::with_capacity(n);
        let mut i: usize = 0;
        while i < n
            invariant
                i <= n,
                parent@.len() == i,
                potential@.len() == i,
                forall|j: int| 0 <= j < i ==> parent@[j] == -1,
                forall|j: int| 0 <= j < i ==> potential@[j] == T::identity_spec(),
            decreases n - i,
        {
            parent.push(-1);
            potential.push(T::identity());
            i += 1;
        }
        let ghost roots = partition::singletons(n as nat);
        let ghost steps = Seq::new(n as nat, |i: int| 0nat);
        let ghost total = Seq::new(n as nat, |i: int| T::identity_spec());
        proof {
            partition::lemma_singletons(n as nat, 0);
            assert forall|x: int| 0 <= x < n implies #[trigger] partition::is_linked(
                parent@,
                roots,
                steps,
                x,
            ) by {
                partition::lemma_singletons(n as nat, x as usize);
            }
        }
        Self {
            parent,
            potential,
            num_sets: n,
            roots: Ghost(roots),
            steps: Ghost(steps),
            total: Ghost(total),
        }
    }

    /// Finds the representative of the set containing `x`, and the
    /// potential from the representative to `x`: the product of the
    /// potentials along the path from the representative down to `x`.
    ///
    /// ## Complexity
    ///
    /// `O(log n)`
    #[inline]
    pub fn find(&self, x: usize) -> (found: (usize, T::G))
        requires
            self.wf(),
            x < self@.roots.len(),
        ensures
            found.0 == self@.roots[x as int],
            found.0 < self@.roots.len(),
            self@.roots[found.0 as int] == found.0,
            found.1 == self@.potentials[x as int],
    {
        let ghost start = x as int;
        let ghost e = T::identity_spec();
        let mut x = x;
        let mut potential = self.potential[x].clone();
        let ghost mut below = e;
        proof {
            assert(cloned(self.potential@[start], potential));
            self.lemma_representatives(start);
            T::lemma_identity(self.potential@[start]);
            T::lemma_identity(self.total@[start]);
        }
        while self.parent[x] >= 0
            invariant
                self.wf(),
                0 <= start < self.parent@.len(),
                x < self.parent@.len(),
                self.roots@[x as int] == self.roots@[start],
                potential == T::op_spec(self.potential@[x as int], below),
                self.total@[start] == T::op_spec(self.total@[x as int], below),
            decreases self.steps@[x as int],
        {
            proof {
                let up = self.parent@[x as int] as int;
                assert(partition::is_linked(self.parent@, self.roots@, self.steps@, x as int));
                assert(is_weighted::<T>(self.parent@, self.potential@, self.total@, x as int));
                T::lemma_associative(self.total@[up], self.potential@[x as int], below);
                below = potential;
            }
            x = self.parent[x] as usize;
            potential = T::op(&self.potential[x], &potential);
        }
        proof {
            assert(partition::is_linked(self.parent@, self.roots@, self.steps@, x as int));
            assert(is_weighted::<T>(self.parent@, self.potential@, self.total@, x as int));
            T::lemma_identity(below);
        }
        (x, potential)
    }

    /// Returns the potential difference from `from` to `to` if they are in
    /// the same set.
    ///
    /// ## Returns
    ///
    /// - `Some(p)` with `p = potential(from)^(-1) * potential(to)`, so that
    ///   `potential(to) = potential(from) * p`, if they are in the same set.
    /// - `None` if `from` and `to` do not belong to the same set.
    ///
    /// ## Complexity
    ///
    /// `O(log n)`
    #[inline]
    pub fn potential(&self, from: usize, to: usize) -> (difference: Option<T::G>)
        requires
            self.wf(),
            from < self@.roots.len(),
            to < self@.roots.len(),
        ensures
            difference == if self@.roots[from as int] == self@.roots[to as int] {
                Some(
                    T::op_spec(
                        T::inv_spec(self@.potentials[from as int]),
                        self@.potentials[to as int],
                    ),
                )
            } else {
                None
            },
    {
        let (from, potential_from) = self.find(from);
        let (to, potential_to) = self.find(to);
        if from == to {
            Some(T::op(&T::inv(&potential_from), &potential_to))
        } else {
            None
        }
    }

    /// Merges the sets containing `from` and `to` under the constraint
    /// that the potential difference from `from` to `to` is `p`.
    ///
    /// The smaller set joins the larger one, and where both have the same
    /// size, that of `to` joins that of `from`. The potentials of the set
    /// that joins are shifted so that the constraint holds.
    ///
    /// ## Returns
    ///
    /// - `true` if the sets were disjoint and are now merged, or if they
    ///   were one set already in which the difference is `p`.
    /// - `false` if `from` and `to` were in the same set already and the
    ///   difference between them is not `p`. Nothing is changed then.
    ///
    /// ## Complexity
    ///
    /// `O(log n)`
    #[inline]
    pub fn union(&mut self, from: usize, to: usize, p: &T::G) -> (consistent: bool)
        requires
            old(self).wf(),
            from < old(self)@.roots.len(),
            to < old(self)@.roots.len(),
        ensures
            final(self).wf(),
            old(self)@.roots[from as int] == old(self)@.roots[to as int] ==> {
                &&& final(self)@ == old(self)@
                &&& consistent == (T::op_spec(old(self)@.potentials[from as int], *p) == old(self)@.potentials[to as int])
            },
            old(self)@.roots[from as int] != old(self)@.roots[to as int] ==> {
                &&& consistent
                &&& final(self)@ == united::<T>(old(self)@, from, to, *p)
            },
    {
        let (mut from, potential_from) = self.find(from);
        let (mut to, potential_to) = self.find(to);
        if from == to {
            proof {
                reveal(laws_eq::obeys_concrete_eq);
            }
            T::op(&potential_from, p) == potential_to
        } else {
            let mut p = T::div(&T::op(&potential_from, p), &potential_to);
            proof {
                assert(partition::is_linked(self.parent@, self.roots@, self.steps@, from as int));
                assert(partition::is_linked(self.parent@, self.roots@, self.steps@, to as int));
            }
            if self.parent[from] > self.parent[to] {
                core::mem::swap(&mut from, &mut to);
                p = T::inv(&p);
            }
            let ghost (parent0, roots0, steps0) = (self.parent@, self.roots@, self.steps@);
            let ghost (potential0, total0) = (self.potential@, self.total@);
            proof {
                partition::lemma_two_classes_bound(roots0, from, to);
                partition::lemma_class_count_positive(roots0, to as int);
                partition::lemma_merged_class_count(roots0, from, to);
            }
            self.parent[from] += self.parent[to];
            self.parent[to] = from as i32;
            self.potential[to] = p;
            self.num_sets -= 1;
            proof {
                self.roots@ = partition::merged(roots0, from, to);
                self.steps@ = Seq::new(
                    steps0.len(),
                    |i: int|
                        if roots0[i] == to {
                            steps0[i] + 1
                        } else {
                            steps0[i]
                        },
                );
                self.total@ = shifted::<T>(roots0, total0, to, p);
                assert forall|z: int| 0 <= z < self.parent@.len() implies #[trigger] partition::is_linked(
                    self.parent@,
                    self.roots@,
                    self.steps@,
                    z,
                ) by {
                    assert(partition::is_linked(parent0, roots0, steps0, z));
                    assert(partition::is_linked(parent0, roots0, steps0, roots0[z] as int));
                    partition::lemma_merged_class_size(roots0, from, to, self.roots@[z]);
                    if parent0[z] >= 0 {
                        assert(partition::is_linked(parent0, roots0, steps0, parent0[z] as int));
                    }
                }
                assert forall|z: int| 0 <= z < self.parent@.len() implies #[trigger] is_weighted::<T>(
                    self.parent@,
                    self.potential@,
                    self.total@,
                    z,
                ) by {
                    assert(is_weighted::<T>(parent0, potential0, total0, z));
                    assert(partition::is_linked(parent0, roots0, steps0, z));
                    assert(is_weighted::<T>(parent0, potential0, total0, from as int));
                    assert(is_weighted::<T>(parent0, potential0, total0, to as int));
                    T::lemma_identity(p);
                    if parent0[z] >= 0 {
                        let up = parent0[z] as int;
                        T::lemma_associative(p, total0[up], potential0[z]);
                    }
                }
            }
            true
        }
    }

    /// Returns the size of the set containing `x`.
    ///
    /// ## Complexity
    ///
    /// `O(log n)`
    pub fn set_size(&self, x: usize) -> (size: usize)
        requires
            self.wf(),
            x < self@.roots.len(),
        ensures
            size == partition::class_size(self@.roots, self@.roots[x as int]),
    {
        let root = self.find(x).0;
        proof {
            assert(partition::is_linked(self.parent@, self.roots@, self.steps@, root as int));
            partition::lemma_class_size_bound(self.roots@, root);
        }
        (-self.parent[root]) as usize
    }

    /// Returns the total number of disjoint sets.
    ///
    /// ## Complexity
    ///
    /// `O(1)`
    pub fn num_sets(&self) -> (count: usize)
        requires
            self.wf(),
        ensures
            count == partition::class_count(self@.roots),
    {
        self.num_sets
    }

    /// Returns the total number of elements managed by this potential DSU.
    ///
    /// ## Complexity
    ///
    /// `O(1)`
    pub fn len(&self) -> (n: usize)
        requires
            self.wf(),
        ensures
            n == self@.roots.len(),
    {
        self.parent.len()
    }

    /// Returns `true` if the potential DSU contains no elements.
    pub fn is_empty(&self) -> (empty: bool)
        requires
            self.wf(),
        ensures
            empty == (self@.roots.len() == 0),
    {
        self.parent.len() == 0
    }
}

} // verus!
