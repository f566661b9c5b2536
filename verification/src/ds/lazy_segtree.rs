//! Lazy Segment Tree
//!
//! A data structure for range queries and range updates on a sequence.
//!
//! It supports the following operations:
//!
//! - **range_apply**: apply an operator to all elements of a range
//! - **range_fold**: combine the elements of a range, from left to right
//!
//! Updates are *lazy*: an operator applied to a range is recorded at the few
//! slots that cover the range, and reaches the slots below them only when a
//! later operation passes through.

use vstd::arithmetic::power2;
use vstd::prelude::*;

use crate::algebra::fold;
use crate::algebra::monoid_action;
use crate::algebra::monoid_action::MonoidAction;
use crate::ds::layout;
use crate::ds::pending;
use crate::ds::range;
use crate::ds::range::Bound;

verus! {

/// A *Lazy Segment Tree* over the monoid action `T`.
///
/// The tree manages a sequence `a` of fixed length `n`, its view. If the
/// operations of the action take `O(1)` time, every operation but
/// construction takes `O(log n)`.
#[derive(Debug, Clone)]
pub struct LazySegTree<T: MonoidAction> {
    /// The length of the managed sequence.
    n: usize,
    /// The capacity of the tree: the smallest power of two that is `>= n`.
    m: usize,
    /// The aggregates, in `2 * m` slots: the leaves at `m .. 2m`, the
    /// aggregate of slots `2k` and `2k + 1` at `k`; slot `0` is unused.
    data: Vec<T::S>,
    /// The pending operators, in `2 * m` slots: the operator at `k` has been
    /// applied to the aggregate at `k`, and to nothing below `k`.
    func: Vec<T::F>,
}

impl<T: MonoidAction> View for LazySegTree<T> {
    type V = Seq<T::S>;

    /// The managed sequence: what the leaves stand for once every pending
    /// operator has reached them.
    closed spec fn view(&self) -> Seq<T::S> {
        pending::values::<T>(self.data@, self.func@).subrange(self.m as int, self.m + self.n)
    }
}

impl<T: MonoidAction> LazySegTree<T> {
    /// The representation invariant: the buffers have the shape described
    /// at their declaration, and the leaves after those of the sequence
    /// hold the identity, with nothing pending above them.
    pub closed spec fn wf(&self) -> bool {
        &&& self.m == layout::capacity_for(self.n as nat)
        &&& 2 * self.m <= usize::MAX
        &&& pending::is_lazy_tree::<T>(self.data@, self.func@, self.m as nat)
        &&& pending::is_padded::<T>(self.data@, self.func@, self.m as nat, self.n as nat)
    }

    /// The facts about the shape of the tree that every operation starts
    /// from.
    proof fn lemma_shape(&self)
        requires
            self.wf(),
        ensures
            layout::is_capacity(self.m as nat),
            1 <= self.m,
            self.n <= self.m,
            2 * self.m <= usize::MAX,
            self.data@.len() == 2 * self.m,
            self.func@.len() == 2 * self.m,
            self@.len() == self.n,
            self@ =~= layout::leaves(
                pending::values::<T>(self.data@, self.func@),
                self.m as nat,
            ).subrange(0, self.n as int),
            fold::is_monoid(T::identity_s_spec(), monoid_action::op_s_fn::<T>()),
    {
        layout::lemma_capacity_for(self.n as nat);
        power2::lemma_pow2_pos(layout::depth(self.m as nat));
        monoid_action::lemma_is_monoid::<T>();
    }

    /// Creates a lazy segment tree that manages `n` copies of the identity.
    ///
    /// ## Complexity
    ///
    /// `O(n)`
    pub fn new(n: usize) -> (tree: Self)
        requires
            2 * layout::capacity_for(n as nat) <= usize::MAX,
        ensures
            tree.wf(),
            tree@.len() == n,
            forall|i: int| 0 <= i < n ==> tree@[i] == T::identity_s_spec(),
    {
        let m = layout::capacity(n);
        let mut data: Vec<T::S> = Vec::with_capacity(2 * m);
        let mut func: Vec<T::F> = Vec::with_capacity(2 * m);
        let mut i: usize = 0;
        while i < 2 * m
            invariant
                i <= 2 * m <= usize::MAX,
                data@.len() == i,
                func@.len() == i,
                forall|j: int| 0 <= j < i ==> #[trigger] data@[j] == T::identity_s_spec(),
                forall|j: int| 0 <= j < i ==> #[trigger] func@[j] == T::identity_f_spec(),
            decreases 2 * m - i,
        {
            data.push(T::identity_s());
            func.push(T::identity_f());
            i += 1;
        }
        let tree = LazySegTree { n, m, data, func };
        proof {
            layout::lemma_capacity_for(n as nat);
            assert forall|k: int| 1 <= k < m implies #[trigger] pending::is_pending_node::<T>(
                tree.data@,
                tree.func@,
                k,
            ) by {
                T::lemma_identity_s(T::identity_s_spec());
                T::lemma_apply_identity(T::identity_s_spec());
            }
            assert forall|i: int| 0 <= i < n implies tree@[i] == T::identity_s_spec() by {
                Self::lemma_nothing_pending(tree.func@, (m + i) as nat);
                pending::lemma_settled_clean::<T>(tree.func@, (m + i) as nat, tree.data@[m + i]);
            }
        }
        tree
    }

    /// Where every operator is the identity, nothing is pending above any
    /// slot.
    proof fn lemma_nothing_pending(func: Seq<T::F>, k: nat)
        requires
            k < func.len(),
            forall|j: int| 0 <= j < func.len() ==> #[trigger] func[j] == T::identity_f_spec(),
        ensures
            pending::is_clean_above::<T>(func, k),
    {
        assert forall|a: nat| #[trigger] layout::above(a, k) implies func[a as int]
            == T::identity_f_spec() by {
            layout::lemma_above_bounds(a, k);
        }
    }

    /// Pushes the operator pending at the inner slot `k` down to the two
    /// children of `k`: applies it to their aggregates, composes it onto
    /// their own pending operators, and leaves the identity at `k`.
    fn push(&mut self, k: usize)
        requires
            old(self).wf(),
            1 <= k < old(self).m,
        ensures
            final(self).n == old(self).n,
            final(self).m == old(self).m,
            final(self).data@ == pending::pushed_data::<T>(
                old(self).data@,
                old(self).func@,
                k as int,
            ),
            final(self).func@ == pending::pushed_func::<T>(old(self).func@, k as int),
    {
        let mut f = T::identity_f();
        core::mem::swap(&mut self.func[k], &mut f);
        T::apply(&mut self.data[2 * k], &f);
        T::apply(&mut self.data[2 * k + 1], &f);
        self.func[2 * k] = T::op_f(&self.func[2 * k], &f);
        self.func[2 * k + 1] = T::op_f(&self.func[2 * k + 1], &f);
        proof {
            assert(self.data@ =~= pending::pushed_data::<T>(
                old(self).data@,
                old(self).func@,
                k as int,
            ));
            assert(self.func@ =~= pending::pushed_func::<T>(old(self).func@, k as int));
        }
    }
}

impl<T: MonoidAction> LazySegTree<T> {
    /// Pushes down, from the root towards the leaves, every operator that
    /// is pending at a slot straddling the leaf slot `l` or the leaf slot
    /// `r`. Afterwards no operator is pending above any slot that a walk
    /// over the interval between `l` and `r` reads or writes.
    fn push_down(&mut self, l: usize, r: usize)
        requires
            old(self).wf(),
            old(self).m <= l <= r <= 2 * old(self).m,
        ensures
            final(self).wf(),
            final(self).n == old(self).n,
            final(self).m == old(self).m,
            pending::values::<T>(final(self).data@, final(self).func@) == pending::values::<T>(
                old(self).data@,
                old(self).func@,
            ),
            pending::is_clean_on_cut::<T>(
                final(self).func@,
                final(self).m as nat,
                l - final(self).m,
                r - final(self).m,
            ),
    {
        proof {
            self.lemma_shape();
        }
        let ghost m = self.m as nat;
        let ghost first = l - self.m;
        let ghost past = r - self.m;
        let d = layout::height(self.m) as usize;
        let mut k = d;
        while k >= 1
            invariant
                self.wf(),
                self.n == old(self).n,
                self.m == old(self).m == m,
                layout::is_capacity(m),
                k <= d == layout::depth(m),
                d < usize::BITS,
                first == l - m,
                past == r - m,
                m <= l <= r <= 2 * m,
                pending::values::<T>(self.data@, self.func@) == pending::values::<T>(
                    old(self).data@,
                    old(self).func@,
                ),
                forall|j: nat|
                    1 <= j < m && #[trigger] pending::is_cut(m, j, first, past) && layout::depth(j)
                        + k < d ==> self.func@[j as int] == T::identity_f_spec(),
            decreases k,
        {
            let ghost w = power2::pow2(k as nat) as int;
            let ghost func0 = self.func@;
            if !layout::is_aligned(l, k) {
                proof {
                    layout::lemma_straddles_level(m, first, k as nat);
                    pending::lemma_push_values::<T>(self.data@, self.func@, m, (l as int / w) as nat);
                    pending::lemma_push_tree::<T>(self.data@, self.func@, m, (l as int / w) as nat);
                    pending::lemma_push_padded::<T>(
                        self.data@,
                        self.func@,
                        m,
                        self.n as nat,
                        (l as int / w) as nat,
                    );
                }
                self.push(layout::ancestor(l, k));
            }
            let ghost func1 = self.func@;
            if !layout::is_aligned(r, k) {
                proof {
                    layout::lemma_straddles_level(m, past, k as nat);
                    pending::lemma_push_values::<T>(self.data@, self.func@, m, (r as int / w) as nat);
                    pending::lemma_push_tree::<T>(self.data@, self.func@, m, (r as int / w) as nat);
                    pending::lemma_push_padded::<T>(
                        self.data@,
                        self.func@,
                        m,
                        self.n as nat,
                        (r as int / w) as nat,
                    );
                }
                self.push(layout::ancestor(r - 1, k));
            }
            proof {
                assert forall|j: nat|
                    1 <= j < m && #[trigger] pending::is_cut(m, j, first, past) && layout::depth(j)
                        + (k - 1) < d implies self.func@[j as int] == T::identity_f_spec() by {
                    let x = if layout::straddles(m, j, first) {
                        first
                    } else {
                        past
                    };
                    layout::lemma_level_straddles(m, j, x);
                    let a = l as int / w;
                    let b = r as int / w;
                    if l as int % w != 0 {
                        layout::lemma_straddles_level(m, first, k as nat);
                    }
                    if r as int % w != 0 {
                        layout::lemma_straddles_level(m, past, k as nat);
                    }
                    if layout::depth(j) + k < d {
                        assert(func0[j as int] == T::identity_f_spec());
                        assert(func1[j as int] == func0[j as int]);
                    } else {
                        assert(layout::width(m, j) == w);
                        assert(j == a || j == b);
                    }
                }
            }
            k -= 1;
        }
        proof {
            assert forall|j: nat|
                1 <= j < m && #[trigger] pending::is_cut(m, j, first, past) implies self.func@[j as int]
                == T::identity_f_spec() by {
                let x = if layout::straddles(m, j, first) {
                    first
                } else {
                    past
                };
                layout::lemma_level_straddles(m, j, x);
            }
        }
    }

    /// Combines the elements of the interval from `start` to `end`, from
    /// left to right.
    ///
    /// The operators pending above the two ends of the interval are pushed
    /// down first, so that every aggregate that is read has absorbed all
    /// the operators above it. The managed sequence stays as it is.
    ///
    /// ## Complexity
    ///
    /// `O(log n)`
    pub fn range_fold(&mut self, start: Bound, end: Bound) -> (product: T::S)
        requires
            old(self).wf(),
            range::is_range(start, end, old(self)@.len() as int),
        ensures
            final(self).wf(),
            final(self)@ == old(self)@,
            product == monoid_action::fold::<T>(
                old(self)@.subrange(start.first(), end.past(old(self)@.len() as int)),
            ),
    {
        proof {
            self.lemma_shape();
            power2::lemma2_to64();
        }
        let (first, past) = range::half_open(start, end, self.n);
        let mut l = first + self.m;
        let mut r = past + self.m;
        self.push_down(l, r);
        proof {
            self.lemma_shape();
            pending::lemma_values_aggregated::<T>(self.data@, self.func@, self.m as nat);
        }
        let ghost m = self.m as nat;
        let ghost e = T::identity_s_spec();
        let ghost op = monoid_action::op_s_fn::<T>();
        let ghost tree = pending::values::<T>(self.data@, self.func@);
        let ghost row = layout::leaves(tree, m);
        let mut left = T::identity_s();
        let mut right = T::identity_s();
        let ghost mut h: nat = 0;
        proof {
            assert(row.subrange(first as int, first as int).len() == 0);
            assert(row.subrange(past as int, past as int).len() == 0);
            assert(l * power2::pow2(h) == l && r * power2::pow2(h) == r) by (nonlinear_arith)
                requires
                    power2::pow2(h) == 1,
            ;
        }
        while l < r
            invariant
                self.wf(),
                self.m == m,
                self.data@.len() == 2 * m,
                fold::is_monoid(e, op),
                layout::is_capacity(m),
                e == T::identity_s_spec(),
                op == monoid_action::op_s_fn::<T>(),
                tree == pending::values::<T>(self.data@, self.func@),
                layout::is_aggregated(tree, op, m),
                row == layout::leaves(tree, m),
                pending::is_clean_on_cut::<T>(self.func@, m, first as int, past as int),
                l <= r <= 2 * m,
                past <= m,
                first <= l * power2::pow2(h) - m < first + power2::pow2(h),
                l * power2::pow2(h) <= r * power2::pow2(h),
                past - power2::pow2(h) < r * power2::pow2(h) - m <= past,
                left == fold::product(row.subrange(first as int, l * power2::pow2(h) - m), e, op),
                right == fold::product(row.subrange(r * power2::pow2(h) - m, past as int), e, op),
            decreases r - l,
        {
            assert(l & 1 == l % 2) by (bit_vector);
            if l & 1 == 1 {
                proof {
                    layout::lemma_left_slot(m, h, l as nat, r as nat);
                    layout::lemma_left_step(tree, e, op, m, h, l as nat, r as nat, first as int, left);
                    if l > 1 {
                        layout::lemma_left_parent(m, l as nat, first as int);
                    }
                    pending::lemma_clean_above_from_cut::<T>(
                        self.data@,
                        self.func@,
                        m,
                        l as nat,
                        first as int,
                        past as int,
                    );
                }
                left = T::op_s(&left, &self.data[l]);
                l += 1;
            }
            assert(r & 1 == r % 2) by (bit_vector);
            if r & 1 == 1 {
                proof {
                    layout::lemma_right_slot(m, h, l as nat, r as nat);
                    layout::lemma_right_step(tree, e, op, m, h, l as nat, r as nat, past as int, right);
                    layout::lemma_right_parent(m, (r - 1) as nat, past as int);
                    pending::lemma_clean_above_from_cut::<T>(
                        self.data@,
                        self.func@,
                        m,
                        (r - 1) as nat,
                        first as int,
                        past as int,
                    );
                }
                r -= 1;
                right = T::op_s(&self.data[r], &right);
            }
            proof {
                layout::lemma_halve(l as nat, h);
                layout::lemma_halve(r as nat, h);
                layout::lemma_pow2_double(h);
                h = h + 1;
            }
            let ghost (pl, pr) = (l, r);
            l >>= 1;
            r >>= 1;
            assert(l == pl / 2 && r == pr / 2) by (bit_vector)
                requires
                    l == pl >> 1,
                    r == pr >> 1,
            ;
        }
        proof {
            let cut = l * power2::pow2(h) - m;
            fold::lemma_product_split(row, e, op, first as int, cut, past as int);
            assert(row.subrange(first as int, past as int) =~= old(self)@.subrange(
                first as int,
                past as int,
            ));
        }
        T::op_s(&left, &right)
    }
}

impl<T: MonoidAction> LazySegTree<T> {
    /// Recomputes, from the leaves towards the root, the aggregate of every
    /// slot that straddles the leaf slot `l` or the leaf slot `r`: the only
    /// slots whose children a walk over the interval between `l` and `r`
    /// may have changed.
    fn pull_up(&mut self, l: usize, r: usize)
        requires
            old(self).m == layout::capacity_for(old(self).n as nat),
            2 * old(self).m <= usize::MAX,
            old(self).data@.len() == 2 * old(self).m,
            old(self).func@.len() == 2 * old(self).m,
            old(self).m <= l <= r <= 2 * old(self).m,
            pending::is_padded::<T>(
                old(self).data@,
                old(self).func@,
                old(self).m as nat,
                old(self).n as nat,
            ),
            pending::is_clean_on_cut::<T>(
                old(self).func@,
                old(self).m as nat,
                l - old(self).m,
                r - old(self).m,
            ),
            forall|k: int|
                1 <= k < old(self).m ==> #[trigger] pending::is_pending_node::<T>(
                    old(self).data@,
                    old(self).func@,
                    k,
                ) || pending::is_cut(
                    old(self).m as nat,
                    k as nat,
                    l - old(self).m,
                    r - old(self).m,
                ),
        ensures
            final(self).wf(),
            final(self).n == old(self).n,
            final(self).m == old(self).m,
            final(self).func@ == old(self).func@,
            forall|j: int|
                old(self).m <= j < 2 * old(self).m ==> #[trigger] final(self).data@[j] == old(
                    self,
                ).data@[j],
    {
        let ghost m = self.m as nat;
        let ghost first = l - self.m;
        let ghost past = r - self.m;
        proof {
            layout::lemma_capacity_for(self.n as nat);
            assert forall|j: int| 1 <= j < m implies #[trigger] pending::is_pending_node::<T>(
                self.data@,
                self.func@,
                j,
            ) || (pending::is_cut(m, j as nat, first, past) && layout::depth(j as nat) + 1
                <= layout::depth(m)) by {
                if !pending::is_pending_node::<T>(self.data@, self.func@, j) {
                    let x = if layout::straddles(m, j as nat, first) {
                        first
                    } else {
                        past
                    };
                    layout::lemma_level_straddles(m, j as nat, x);
                }
            }
        }
        let d = layout::height(self.m) as usize;
        let mut k: usize = 1;
        while k <= d
            invariant
                self.n == old(self).n,
                self.m == old(self).m == m,
                self.func@ == old(self).func@,
                self.data@.len() == 2 * m,
                old(self).data@.len() == 2 * m,
                self.func@.len() == 2 * m,
                2 * m <= usize::MAX,
                layout::is_capacity(m),
                1 <= k <= d + 1,
                d == layout::depth(m),
                d < usize::BITS,
                first == l - m,
                past == r - m,
                m <= l <= r <= 2 * m,
                pending::is_clean_on_cut::<T>(self.func@, m, first, past),
                forall|j: int| m <= j < 2 * m ==> #[trigger] self.data@[j] == old(self).data@[j],
                forall|j: int|
                    1 <= j < m ==> #[trigger] pending::is_pending_node::<T>(
                        self.data@,
                        self.func@,
                        j,
                    ) || (pending::is_cut(m, j as nat, first, past) && layout::depth(j as nat) + k
                        <= d),
            decreases d + 1 - k,
        {
            let ghost w = power2::pow2(k as nat) as int;
            let ghost data0 = self.data@;
            if !layout::is_aligned(l, k) {
                proof {
                    layout::lemma_straddles_level(m, first, k as nat);
                }
                let a = layout::ancestor(l, k);
                let x = T::op_s(&self.data[2 * a], &self.data[2 * a + 1]);
                self.data[a] = x;
                proof {
                    assert(pending::is_cut(m, a as nat, first, past));
                    T::lemma_apply_identity(x);
                    assert(pending::is_pending_node::<T>(self.data@, self.func@, a as int));
                }
            }
            let ghost data1 = self.data@;
            if !layout::is_aligned(r, k) {
                proof {
                    layout::lemma_straddles_level(m, past, k as nat);
                }
                let b = layout::ancestor(r - 1, k);
                let x = T::op_s(&self.data[2 * b], &self.data[2 * b + 1]);
                self.data[b] = x;
                proof {
                    assert(pending::is_cut(m, b as nat, first, past));
                    T::lemma_apply_identity(x);
                    assert(pending::is_pending_node::<T>(self.data@, self.func@, b as int));
                }
            }
            proof {
                let a = l as int / w;
                let b = r as int / w;
                if l as int % w != 0 {
                    layout::lemma_straddles_level(m, first, k as nat);
                }
                if r as int % w != 0 {
                    layout::lemma_straddles_level(m, past, k as nat);
                }
                assert forall|j: int| 1 <= j < m implies #[trigger] pending::is_pending_node::<T>(
                    self.data@,
                    self.func@,
                    j,
                ) || (pending::is_cut(m, j as nat, first, past) && layout::depth(j as nat) + (k + 1)
                    <= d) by {
                    let fixed_a = l as int % w != 0 && j == a;
                    let fixed_b = r as int % w != 0 && j == b;
                    let under_a = l as int % w != 0 && (2 * j == a || 2 * j + 1 == a);
                    let under_b = r as int % w != 0 && (2 * j == b || 2 * j + 1 == b);
                    if fixed_b {
                    } else if fixed_a {
                        assert(pending::is_pending_node::<T>(data1, self.func@, j));
                    } else if under_a || under_b {
                        let c = if under_a {
                            a
                        } else {
                            b
                        };
                        let x = if under_a {
                            first
                        } else {
                            past
                        };
                        assert(c / 2 == j);
                        assert(layout::above(j as nat, c as nat));
                        layout::lemma_straddles_above(m, j as nat, c as nat, x);
                    } else if pending::is_pending_node::<T>(data0, self.func@, j) {
                    } else {
                        let x = if layout::straddles(m, j as nat, first) {
                            first
                        } else {
                            past
                        };
                        layout::lemma_level_straddles(m, j as nat, x);
                        if layout::depth(j as nat) + k == d {
                            assert(layout::width(m, j as nat) == w);
                            assert(false);
                        }
                    }
                }
            }
            k += 1;
        }
        proof {
            assert forall|j: int| 1 <= j < m implies #[trigger] pending::is_pending_node::<T>(
                self.data@,
                self.func@,
                j,
            ) by {
                if !pending::is_pending_node::<T>(self.data@, self.func@, j) {
                    layout::lemma_range(m, j as nat);
                }
            }
        }
    }

    /// Applies the operator `f` to every element of the interval from
    /// `start` to `end`.
    ///
    /// The operators pending above the two ends of the interval are pushed
    /// down first. Then `f` is applied to the aggregate of each slot that
    /// the walk over the interval covers as a whole, and composed onto the
    /// operator pending there. At last the aggregates above those slots are
    /// recomputed from their children.
    ///
    /// ## Complexity
    ///
    /// `O(log n)`
    pub fn range_apply(&mut self, start: Bound, end: Bound, f: &T::F)
        requires
            old(self).wf(),
            range::is_range(start, end, old(self)@.len() as int),
        ensures
            final(self).wf(),
            final(self)@ == monoid_action::applied::<T>(
                old(self)@,
                start.first(),
                end.past(old(self)@.len() as int),
                *f,
            ),
    {
        proof {
            self.lemma_shape();
            power2::lemma2_to64();
        }
        let (first, past) = range::half_open(start, end, self.n);
        let l0 = first + self.m;
        let r0 = past + self.m;
        self.push_down(l0, r0);
        proof {
            self.lemma_shape();
        }
        let ghost m = self.m as nat;
        let ghost v0 = pending::values::<T>(self.data@, self.func@);
        let mut l = l0;
        let mut r = r0;
        let ghost mut h: nat = 0;
        proof {
            assert(l * power2::pow2(h) == l && r * power2::pow2(h) == r) by (nonlinear_arith)
                requires
                    power2::pow2(h) == 1,
            ;
        }
        while l < r
            invariant
                self.n == old(self).n,
                self.m == old(self).m == m,
                self.m == layout::capacity_for(self.n as nat),
                2 * m <= usize::MAX,
                layout::is_capacity(m),
                l <= r <= 2 * m,
                past <= self.n <= m,
                pending::is_padded::<T>(self.data@, self.func@, m, self.n as nat),
                first <= l * power2::pow2(h) - m < first + power2::pow2(h),
                l * power2::pow2(h) <= r * power2::pow2(h),
                past - power2::pow2(h) < r * power2::pow2(h) - m <= past,
                pending::is_applied::<T>(
                    self.data@,
                    self.func@,
                    m,
                    v0,
                    *f,
                    first as int,
                    l * power2::pow2(h) - m,
                    r * power2::pow2(h) - m,
                    past as int,
                ),
            decreases r - l,
        {
            assert(l & 1 == l % 2) by (bit_vector);
            if l & 1 == 1 {
                proof {
                    layout::lemma_left_slot(m, h, l as nat, r as nat);
                    if l > 1 {
                        layout::lemma_left_parent(m, l as nat, first as int);
                    }
                    pending::lemma_touch_step::<T>(
                        self.data@,
                        self.func@,
                        m,
                        v0,
                        *f,
                        first as int,
                        l * power2::pow2(h) - m,
                        r * power2::pow2(h) - m,
                        past as int,
                        l as nat,
                        (l + 1) * power2::pow2(h) - m,
                        r * power2::pow2(h) - m,
                    );
                    pending::lemma_touch_padded::<T>(
                        self.data@,
                        self.func@,
                        m,
                        self.n as nat,
                        l as nat,
                        *f,
                    );
                }
                let ghost (data0, func0) = (self.data@, self.func@);
                T::apply(&mut self.data[l], f);
                self.func[l] = T::op_f(&self.func[l], f);
                proof {
                    assert(self.data@ =~= pending::touched_data::<T>(data0, l as int, *f));
                    assert(self.func@ =~= pending::touched_func::<T>(func0, l as int, *f));
                }
                l += 1;
            }
            assert(r & 1 == r % 2) by (bit_vector);
            if r & 1 == 1 {
                proof {
                    layout::lemma_right_slot(m, h, l as nat, r as nat);
                    layout::lemma_right_parent(m, (r - 1) as nat, past as int);
                    pending::lemma_touch_step::<T>(
                        self.data@,
                        self.func@,
                        m,
                        v0,
                        *f,
                        first as int,
                        l * power2::pow2(h) - m,
                        r * power2::pow2(h) - m,
                        past as int,
                        (r - 1) as nat,
                        l * power2::pow2(h) - m,
                        (r - 1) * power2::pow2(h) - m,
                    );
                    pending::lemma_touch_padded::<T>(
                        self.data@,
                        self.func@,
                        m,
                        self.n as nat,
                        (r - 1) as nat,
                        *f,
                    );
                }
                r -= 1;
                let ghost (data0, func0) = (self.data@, self.func@);
                T::apply(&mut self.data[r], f);
                self.func[r] = T::op_f(&self.func[r], f);
                proof {
                    assert(self.data@ =~= pending::touched_data::<T>(data0, r as int, *f));
                    assert(self.func@ =~= pending::touched_func::<T>(func0, r as int, *f));
                }
            }
            proof {
                layout::lemma_halve(l as nat, h);
                layout::lemma_halve(r as nat, h);
                layout::lemma_pow2_double(h);
                h = h + 1;
            }
            let ghost (pl, pr) = (l, r);
            l >>= 1;
            r >>= 1;
            assert(l == pl / 2 && r == pr / 2) by (bit_vector)
                requires
                    l == pl >> 1,
                    r == pr >> 1,
            ;
        }
        let ghost reached = pending::values::<T>(self.data@, self.func@);
        self.pull_up(l0, r0);
        proof {
            self.lemma_shape();
            let after = monoid_action::applied::<T>(old(self)@, first as int, past as int, *f);
            assert forall|i: int| 0 <= i < old(self)@.len() implies #[trigger] self@[i]
                == after[i] by {
                assert(self@[i] == layout::leaves(reached, m)[i]);
                assert(old(self)@[i] == layout::leaves(v0, m)[i]);
            }
            assert(self@ =~= after);
        }
    }
}

impl<T: MonoidAction> LazySegTree<T> where T::S: Clone {
    /// Creates a lazy segment tree that manages a copy of `a`.
    ///
    /// ## Complexity
    ///
    /// `O(n)`
    pub fn from_slice(a: &[T::S]) -> (tree: Self)
        requires
            2 * layout::capacity_for(a@.len()) <= usize::MAX,
        ensures
            tree.wf(),
            tree@.len() == a@.len(),
            forall|i: int| 0 <= i < a@.len() ==> cloned(a@[i], #[trigger] tree@[i]),
    {
        let n = a.len();
        let m = layout::capacity(n);
        proof {
            layout::lemma_capacity_for(n as nat);
        }
        let mut data: Vec<T::S> = Vec::with_capacity(2 * m);
        let mut func: Vec<T::F> = Vec::with_capacity(2 * m);
        let mut i: usize = 0;
        while i < m
            invariant
                i <= m,
                2 * m <= usize::MAX,
                data@.len() == i,
                func@.len() == 2 * i,
                forall|j: int| 0 <= j < 2 * i ==> #[trigger] func@[j] == T::identity_f_spec(),
            decreases m - i,
        {
            data.push(T::identity_s());
            func.push(T::identity_f());
            func.push(T::identity_f());
            i += 1;
        }
        i = 0;
        while i < n
            invariant
                i <= n <= m,
                n == a@.len(),
                data@.len() == m + i,
                forall|j: int| 0 <= j < i ==> cloned(a@[j], #[trigger] data@[m + j]),
            decreases n - i,
        {
            data.push(a[i].clone());
            i += 1;
        }
        while i < m
            invariant
                n <= i <= m,
                n == a@.len(),
                data@.len() == m + i,
                forall|j: int| 0 <= j < n ==> cloned(a@[j], #[trigger] data@[m + j]),
                forall|j: int| m + n <= j < m + i ==> #[trigger] data@[j] == T::identity_s_spec(),
            decreases m - i,
        {
            data.push(T::identity_s());
            i += 1;
        }
        let mut k: usize = m;
        while k > 1
            invariant
                1 <= k <= m,
                n <= m,
                n == a@.len(),
                2 * m <= usize::MAX,
                data@.len() == 2 * m,
                func@.len() == 2 * m,
                forall|j: int| 0 <= j < 2 * m ==> #[trigger] func@[j] == T::identity_f_spec(),
                forall|j: int| 0 <= j < n ==> cloned(a@[j], #[trigger] data@[m + j]),
                forall|j: int| m + n <= j < 2 * m ==> #[trigger] data@[j] == T::identity_s_spec(),
                forall|j: int|
                    k <= j < m ==> #[trigger] pending::is_pending_node::<T>(data@, func@, j),
            decreases k,
        {
            let ghost before = data@;
            k -= 1;
            let x = T::op_s(&data[2 * k], &data[2 * k + 1]);
            data[k] = x;
            proof {
                assert forall|j: int| k <= j < m implies #[trigger] pending::is_pending_node::<T>(
                    data@,
                    func@,
                    j,
                ) by {
                    if j > k {
                        assert(pending::is_pending_node::<T>(before, func@, j));
                    } else {
                        T::lemma_apply_identity(x);
                    }
                }
            }
        }
        let tree = LazySegTree { n, m, data, func };
        proof {
            assert forall|i: int| 0 <= i < a@.len() implies cloned(a@[i], #[trigger] tree@[i]) by {
                Self::lemma_nothing_pending(tree.func@, (m + i) as nat);
                pending::lemma_settled_clean::<T>(tree.func@, (m + i) as nat, tree.data@[m + i]);
            }
        }
        tree
    }
}

} // verus!
