//! Segment Tree
//!
//! A data structure for range queries and point updates on a sequence whose
//! elements are combined by an associative operation (a monoid).
//!
//! It supports the following operations:
//!
//! - **set**: overwrite a single element
//! - **range fold**: combine the elements of a range, from left to right

use vstd::arithmetic::power2;
use vstd::prelude::*;

use crate::algebra::fold;
use crate::algebra::monoid;
use crate::algebra::monoid::Monoid;
use crate::ds::layout;
use crate::ds::range;
use crate::ds::range::Bound;

verus! {

/// A *Segment Tree* over the monoid `T`.
///
/// The tree manages a sequence `a` of fixed length `n`, its view. If `op` and
/// `clone` of the monoid take `O(1)` time, every operation but construction
/// takes `O(log n)`.
#[derive(Debug, Clone)]
pub struct SegTree<T: Monoid> {
    /// The length of the managed sequence.
    n: usize,
    /// The capacity of the tree: the smallest power of two that is `>= n`.
    m: usize,
    /// The tree, in `2 * m` slots.
    ///
    /// - slot `m + i` holds `a[i]` for `i < n`, and the identity for
    ///   `n <= i < m`;
    /// - slot `k` holds `op(data[2k], data[2k + 1])` for `0 < k < m`;
    /// - slot `0` is unused.
    data: Vec<T::S>,
}

impl<T: Monoid> View for SegTree<T> {
    type V = Seq<T::S>;

    /// The managed sequence.
    closed spec fn view(&self) -> Seq<T::S> {
        self.data@.subrange(self.m as int, self.m + self.n)
    }
}

impl<T: Monoid> SegTree<T> {
    /// The representation invariant: the buffer has the shape described at
    /// its declaration.
    pub closed spec fn wf(&self) -> bool {
        &&& self.m == layout::capacity_for(self.n as nat)
        &&& self.data@.len() == 2 * self.m <= usize::MAX
        &&& layout::is_aggregated(self.data@, monoid::op_fn::<T>(), self.m as nat)
        &&& forall|i: int|
            self.m + self.n <= i < 2 * self.m ==> #[trigger] self.data@[i] == T::identity_spec()
    }

    /// The facts about the shape of the tree that every operation starts
    /// from.
    proof fn lemma_shape(&self)
        requires
            self.wf(),
        ensures
            layout::is_capacity(self.m as nat),
            1 <= self.m,
            self.n <= self.m,
            2 * self.m <= usize::MAX,
            self@.len() == self.n,
            self@ =~= layout::leaves(self.data@, self.m as nat).subrange(0, self.n as int),
            fold::is_monoid(T::identity_spec(), monoid::op_fn::<T>()),
    {
        layout::lemma_capacity_for(self.n as nat);
        power2::lemma_pow2_pos(layout::depth(self.m as nat));
        monoid::lemma_is_monoid::<T>();
    }

    /// Creates a segment tree that manages `n` copies of the identity.
    ///
    /// ## Complexity
    ///
    /// `O(n)`
    pub fn new(n: usize) -> (tree: Self)
        requires
            2 * layout::capacity_for(n as nat) <= usize::MAX,
        ensures
            tree.wf(),
            tree@.len() == n,
            forall|i: int| 0 <= i < n ==> tree@[i] == T::identity_spec(),
    {
        let m = layout::capacity(n);
        let mut data: Vec<T::S> = Vec::with_capacity(2 * m);
        let mut i: usize = 0;
        while i < 2 * m
            invariant
                i <= 2 * m <= usize::MAX,
                data@.len() == i,
                forall|j: int| 0 <= j < i ==> #[trigger] data@[j] == T::identity_spec(),
            decreases 2 * m - i,
        {
            data.push(T::identity());
            i += 1;
        }
        proof {
            layout::lemma_capacity_for(n as nat);
            assert forall|k: int| 1 <= k < m implies #[trigger] layout::is_product_of_children(
                data@,
                monoid::op_fn::<T>(),
                k,
            ) by {
                T::lemma_identity(T::identity_spec());
            }
        }
        SegTree { n, m, data }
    }

    /// Creates a segment tree that manages a copy of `a`.
    ///
    /// ## Complexity
    ///
    /// `O(n)`
    pub fn from_vec(a: &[T::S]) -> (tree: Self)
        requires
            2 * layout::capacity_for(a@.len()) <= usize::MAX,
        ensures
            tree.wf(),
            tree@.len() == a@.len(),
            forall|i: int| 0 <= i < a@.len() ==> cloned(a@[i], #[trigger] tree@[i]),
    {
        let n = a.len();
        let m = layout::capacity(n);
        proof {
            layout::lemma_capacity_for(n as nat);
        }
        let mut data: Vec<T::S> = Vec::with_capacity(2 * m);
        let mut i: usize = 0;
        while i < m
            invariant
                i <= m,
                data@.len() == i,
            decreases m - i,
        {
            data.push(T::identity());
            i += 1;
        }
        i = 0;
        while i < n
            invariant
                i <= n <= m,
                n == a@.len(),
                data@.len() == m + i,
                forall|j: int| 0 <= j < i ==> cloned(a@[j], #[trigger] data@[m + j]),
            decreases n - i,
        {
            data.push(a[i].clone());
            i += 1;
        }
        while i < m
            invariant
                n <= i <= m,
                n == a@.len(),
                data@.len() == m + i,
                forall|j: int| 0 <= j < n ==> cloned(a@[j], #[trigger] data@[m + j]),
                forall|j: int| m + n <= j < m + i ==> #[trigger] data@[j] == T::identity_spec(),
            decreases m - i,
        {
            data.push(T::identity());
            i += 1;
        }
        let mut k: usize = m;
        while k > 1
            invariant
                1 <= k <= m,
                n <= m,
                n == a@.len(),
                2 * m <= usize::MAX,
                data@.len() == 2 * m,
                forall|j: int| 0 <= j < n ==> cloned(a@[j], #[trigger] data@[m + j]),
                forall|j: int| m + n <= j < 2 * m ==> #[trigger] data@[j] == T::identity_spec(),
                forall|j: int|
                    k <= j < m ==> #[trigger] layout::is_product_of_children(
                        data@,
                        monoid::op_fn::<T>(),
                        j,
                    ),
            decreases k,
        {
            let ghost before = data@;
            k -= 1;
            let x = T::op(&data[2 * k], &data[2 * k + 1]);
            data[k] = x;
            proof {
                assert forall|j: int| k <= j < m implies #[trigger] layout::is_product_of_children(
                    data@,
                    monoid::op_fn::<T>(),
                    j,
                ) by {
                    if j > k {
                        assert(layout::is_product_of_children(before, monoid::op_fn::<T>(), j));
                    }
                }
            }
        }
        let tree = SegTree { n, m, data };
        proof {
            assert forall|i: int| 0 <= i < a@.len() implies cloned(a@[i], #[trigger] tree@[i]) by {
                assert(tree@[i] == tree.data@[m + i]);
            }
        }
        tree
    }

    /// Overwrites the element at position `i` with `x`.
    ///
    /// ## Complexity
    ///
    /// `O(log n)`
    pub fn set(&mut self, i: usize, x: T::S)
        requires
            old(self).wf(),
            i < old(self)@.len(),
        ensures
            final(self).wf(),
            final(self)@ == old(self)@.update(i as int, x),
    {
        proof {
            self.lemma_shape();
        }
        let ghost op = monoid::op_fn::<T>();
        let mut k = i + self.m;
        let ghost leaf = k;
        self.data[k] = x;
        let ghost mut child = k as nat;
        proof {
            assert forall|j: int| 1 <= j < self.m implies #[trigger] layout::is_product_of_children(
                self.data@,
                op,
                j,
            ) || layout::above(j as nat, child) by {
                if j != leaf / 2 {
                    assert(layout::is_product_of_children(old(self).data@, op, j));
                }
            }
        }
        k >>= 1;
        assert(k == leaf / 2) by (bit_vector)
            requires
                k == leaf >> 1,
        ;
        while k > 0
            invariant
                self.n == old(self).n,
                self.m == old(self).m,
                old(self).wf(),
                self.data@.len() == 2 * self.m,
                1 <= child < 2 * self.m,
                k == child / 2,
                self.m <= leaf < 2 * self.m,
                op == monoid::op_fn::<T>(),
                self.data@[leaf as int] == x,
                forall|j: int|
                    self.m <= j < 2 * self.m && j != leaf ==> #[trigger] self.data@[j] == old(
                        self,
                    ).data@[j],
                forall|j: int|
                    1 <= j < self.m ==> #[trigger] layout::is_product_of_children(self.data@, op, j)
                        || layout::above(j as nat, child),
            decreases k,
        {
            let ghost before = self.data@;
            let v = T::op(&self.data[2 * k], &self.data[2 * k + 1]);
            self.data[k] = v;
            proof {
                assert forall|j: int| 1 <= j < self.m implies #[trigger] layout::is_product_of_children(
                    self.data@,
                    op,
                    j,
                ) || layout::above(j as nat, k as nat) by {
                    if j != k && !layout::above(j as nat, k as nat) {
                        assert(!layout::above(j as nat, child));
                        assert(layout::is_product_of_children(before, op, j));
                    }
                }
                child = k as nat;
            }
            let ghost up = k;
            k >>= 1;
            assert(k == up / 2) by (bit_vector)
                requires
                    k == up >> 1,
            ;
        }
        proof {
            assert(final(self)@ =~= old(self)@.update(i as int, x)) by {
                assert forall|j: int| 0 <= j < self.n implies self@[j] == old(self)@.update(
                    i as int,
                    x,
                )[j] by {
                    assert(self@[j] == self.data@[self.m + j]);
                }
            }
            assert forall|j: int| 1 <= j < self.m implies #[trigger] layout::is_product_of_children(
                self.data@,
                op,
                j,
            ) by {
                assert(!layout::above(j as nat, child));
            }
        }
    }

    /// Returns a reference to the element at position `i`.
    ///
    /// ## Complexity
    ///
    /// `O(1)`
    pub fn get(&self, i: usize) -> (x: &T::S)
        requires
            self.wf(),
            i < self@.len(),
        ensures
            *x == self@[i as int],
    {
        proof {
            self.lemma_shape();
        }
        &self.data[i + self.m]
    }

    /// Combines the elements of the interval from `start` to `end`, from
    /// left to right.
    ///
    /// The two accumulators keep the order of the elements: what lies left
    /// of the part not yet visited goes into `left`, what lies right of it
    /// into `right`.
    ///
    /// ## Complexity
    ///
    /// `O(log n)`
    pub fn range_fold(&self, start: Bound, end: Bound) -> (product: T::S)
        requires
            self.wf(),
            range::is_range(start, end, self@.len() as int),
        ensures
            product == monoid::fold::<T>(
                self@.subrange(start.first(), end.past(self@.len() as int)),
            ),
    {
        proof {
            self.lemma_shape();
            power2::lemma2_to64();
        }
        let (first, past) = range::half_open(start, end, self.n);
        let ghost e = T::identity_spec();
        let ghost op = monoid::op_fn::<T>();
        let ghost row = layout::leaves(self.data@, self.m as nat);
        let mut l = first + self.m;
        let mut r = past + self.m;
        let mut left = T::identity();
        let mut right = T::identity();
        let ghost mut h: nat = 0;
        proof {
            assert(row.subrange(first as int, first as int).len() == 0);
            assert(row.subrange(past as int, past as int).len() == 0);
            assert(l * power2::pow2(h) == l && r * power2::pow2(h) == r) by (nonlinear_arith)
                requires
                    power2::pow2(h) == 1,
            ;
        }
        while l < r
            invariant
                self.wf(),
                fold::is_monoid(e, op),
                layout::is_capacity(self.m as nat),
                e == T::identity_spec(),
                op == monoid::op_fn::<T>(),
                row == layout::leaves(self.data@, self.m as nat),
                l <= r <= 2 * self.m,
                past <= self.n <= self.m,
                first <= l * power2::pow2(h) - self.m,
                l * power2::pow2(h) <= r * power2::pow2(h),
                r * power2::pow2(h) - self.m <= past,
                left == fold::product(
                    row.subrange(first as int, l * power2::pow2(h) - self.m),
                    e,
                    op,
                ),
                right == fold::product(
                    row.subrange(r * power2::pow2(h) - self.m, past as int),
                    e,
                    op,
                ),
            decreases r - l,
        {
            let ghost w = power2::pow2(h);
            assert(l & 1 == l % 2) by (bit_vector);
            if l & 1 == 1 {
                proof {
                    layout::lemma_left_slot(self.m as nat, h, l as nat, r as nat);
                    layout::lemma_left_step(
                        self.data@,
                        e,
                        op,
                        self.m as nat,
                        h,
                        l as nat,
                        r as nat,
                        first as int,
                        left,
                    );
                }
                left = T::op(&left, &self.data[l]);
                l += 1;
            }
            assert(r & 1 == r % 2) by (bit_vector);
            if r & 1 == 1 {
                proof {
                    layout::lemma_right_slot(self.m as nat, h, l as nat, r as nat);
                    layout::lemma_right_step(
                        self.data@,
                        e,
                        op,
                        self.m as nat,
                        h,
                        l as nat,
                        r as nat,
                        past as int,
                        right,
                    );
                }
                r -= 1;
                right = T::op(&self.data[r], &right);
            }
            proof {
                layout::lemma_halve(l as nat, h);
                layout::lemma_halve(r as nat, h);
                h = h + 1;
            }
            let ghost (pl, pr) = (l, r);
            l >>= 1;
            r >>= 1;
            assert(l == pl / 2 && r == pr / 2) by (bit_vector)
                requires
                    l == pl >> 1,
                    r == pr >> 1,
            ;
        }
        proof {
            let w = power2::pow2(h) as int;
            let cut = l * w - self.m;
            fold::lemma_product_split(row, e, op, first as int, cut, past as int);
            assert(row.subrange(first as int, past as int) =~= self@.subrange(
                first as int,
                past as int,
            ));
        }
        T::op(&left, &right)
    }

    /// Returns the combination of the whole sequence.
    ///
    /// ## Complexity
    ///
    /// `O(1)`
    pub fn all_fold(&self) -> (product: T::S)
        requires
            self.wf(),
        ensures
            cloned(monoid::fold::<T>(self@), product),
    {
        proof {
            self.lemma_shape();
            let e = T::identity_spec();
            let op = monoid::op_fn::<T>();
            let m = self.m as nat;
            let row = layout::leaves(self.data@, m);
            layout::lemma_node_product(self.data@, e, op, m, 1);
            layout::lemma_root(m);
            fold::lemma_product_split(row, e, op, 0, self.n as int, m as int);
            fold::lemma_product_identities(row.subrange(self.n as int, m as int), e, op);
            fold::lemma_right_identity(e, op, fold::product(row.subrange(0, self.n as int), e, op));
            assert(row.subrange(0, m as int) =~= row);
        }
        self.data[1].clone()
    }
}

} // verus!
