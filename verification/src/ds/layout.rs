//! Addressing of a complete binary tree that lives in a flat buffer.
//!
//! A tree of *capacity* `m` (a power of two) has its root at slot `1`, the
//! children of slot `k` at slots `2k` and `2k + 1`, and its `m` leaves at
//! slots `m .. 2m`. Slot `0` is unused. This module gives every slot the
//! range of leaves below it and proves how those ranges fit together.

use vstd::arithmetic::div_mod;
use vstd::arithmetic::power2;
use vstd::bits;
use vstd::prelude::*;
use vstd::std_specs::bits as std_bits;

use crate::algebra::fold;

verus! {

/// `floor(log2(k))`: how many levels slot `k` lies below the root.
pub open spec fn depth(k: nat) -> nat
    decreases k,
{
    if k <= 1 {
        0
    } else {
        1 + depth(k / 2)
    }
}

/// `m` is a power of two.
pub open spec fn is_capacity(m: nat) -> bool {
    m == power2::pow2(depth(m))
}

/// The smallest power of two that is at least `n`.
pub open spec fn capacity_for(n: nat) -> nat
    decreases n,
{
    if n <= 1 {
        1
    } else {
        2 * capacity_for((n + 1) / 2)
    }
}

/// The number of leaves below slot `k` in a tree of capacity `m`.
pub open spec fn width(m: nat, k: nat) -> nat {
    power2::pow2((depth(m) - depth(k)) as nat)
}

/// The position, among the leaves, of the first leaf below slot `k`.
pub open spec fn lo(m: nat, k: nat) -> int {
    k * width(m, k) - m
}

/// One past the position of the last leaf below slot `k`.
pub open spec fn hi(m: nat, k: nat) -> int {
    k * width(m, k) - m + width(m, k)
}

pub proof fn lemma_pow2_double(e: nat)
    ensures
        power2::pow2(e + 1) == 2 * power2::pow2(e),
        power2::pow2(e) >= 1,
{
    power2::lemma_pow2_unfold(e + 1);
    power2::lemma_pow2_pos(e);
}

pub proof fn lemma_pow2_zero()
    ensures
        power2::pow2(0) == 1,
{
    power2::lemma2_to64();
}

/// `2^depth(k) <= k < 2^(depth(k) + 1)`.
pub proof fn lemma_depth_bounds(k: nat)
    requires
        k >= 1,
    ensures
        power2::pow2(depth(k)) <= k < 2 * power2::pow2(depth(k)),
    decreases k,
{
    if k == 1 {
        lemma_pow2_zero();
    } else {
        lemma_depth_bounds(k / 2);
        lemma_pow2_double(depth(k / 2));
    }
}

/// The only `a` with `2^a <= k < 2^(a + 1)` is `depth(k)`.
pub proof fn lemma_depth_unique(k: nat, a: nat)
    requires
        power2::pow2(a) <= k < 2 * power2::pow2(a),
    ensures
        depth(k) == a,
    decreases a,
{
    if a == 0 {
        lemma_pow2_zero();
    } else {
        lemma_pow2_double((a - 1) as nat);
        lemma_depth_unique(k / 2, (a - 1) as nat);
    }
}

pub proof fn lemma_depth_monotonic(j: nat, k: nat)
    requires
        j <= k,
    ensures
        depth(j) <= depth(k),
    decreases k,
{
    if k > 1 && j > 1 {
        lemma_depth_monotonic(j / 2, k / 2);
    }
}

/// Every power of two is a capacity.
pub proof fn lemma_pow2_is_capacity(e: nat)
    ensures
        is_capacity(power2::pow2(e)),
        depth(power2::pow2(e)) == e,
{
    lemma_pow2_double(e);
    lemma_depth_unique(power2::pow2(e), e);
}

/// Doubling a capacity gives a capacity.
pub proof fn lemma_capacity_double(m: nat)
    requires
        is_capacity(m),
    ensures
        is_capacity(2 * m),
        depth(2 * m) == depth(m) + 1,
        m >= 1,
{
    lemma_pow2_double(depth(m));
    lemma_pow2_is_capacity(depth(m) + 1);
}

/// `capacity_for(n)` is a power of two, at least `n`, and less than `2n`
/// unless `n` is zero.
pub proof fn lemma_capacity_for(n: nat)
    ensures
        is_capacity(capacity_for(n)),
        n <= capacity_for(n),
        n >= 1 ==> capacity_for(n) < 2 * n,
    decreases n,
{
    if n <= 1 {
        lemma_pow2_zero();
    } else {
        lemma_capacity_for((n + 1) / 2);
        lemma_capacity_double(capacity_for((n + 1) / 2));
    }
}

/// A power of two `m >= n` whose half is below `n` is `capacity_for(n)`.
pub proof fn lemma_capacity_unique(n: nat, m: nat)
    requires
        is_capacity(m),
        n <= m,
        m == 1 || m < 2 * n,
    ensures
        m == capacity_for(n),
    decreases n,
{
    if n <= 1 {
        lemma_depth_bounds(m);
    } else {
        assert(depth(m) >= 1) by {
            if depth(m) == 0 {
                lemma_pow2_zero();
            }
        }
        lemma_pow2_double((depth(m) - 1) as nat);
        lemma_pow2_is_capacity((depth(m) - 1) as nat);
        lemma_capacity_unique((n + 1) / 2, m / 2);
    }
}

/// Every slot of the tree has a non-empty range of leaves inside `0 .. m`.
pub proof fn lemma_range(m: nat, k: nat)
    requires
        is_capacity(m),
        1 <= k < 2 * m,
    ensures
        depth(k) <= depth(m),
        width(m, k) >= 1,
        0 <= lo(m, k) < hi(m, k) <= m,
{
    lemma_depth_bounds(k);
    lemma_capacity_double(m);
    lemma_depth_monotonic(k, 2 * m);
    if depth(k) == depth(m) + 1 {
        assert(false);
    }
    let a = depth(k);
    let b = (depth(m) - depth(k)) as nat;
    power2::lemma_pow2_adds(a, b);
    power2::lemma_pow2_pos(b);
    let w = power2::pow2(b) as int;
    let p = power2::pow2(a) as int;
    assert(p * w <= k * w) by (nonlinear_arith)
        requires
            p <= k,
            w >= 0,
    ;
    assert((k + 1) * w <= 2 * p * w) by (nonlinear_arith)
        requires
            k + 1 <= 2 * p,
            w >= 0,
    ;
    assert((k + 1) * w == k * w + w) by (nonlinear_arith);
    assert(2 * p * w == 2 * (p * w)) by (nonlinear_arith);
}

/// A slot in `m .. 2m` is a leaf: the range below it is its own position.
pub proof fn lemma_leaf(m: nat, k: nat)
    requires
        is_capacity(m),
        m <= k < 2 * m,
    ensures
        width(m, k) == 1,
        lo(m, k) == k - m,
        hi(m, k) == k - m + 1,
{
    lemma_depth_unique(k, depth(m));
    lemma_pow2_zero();
}

/// The root covers all the leaves.
pub proof fn lemma_root(m: nat)
    requires
        is_capacity(m),
    ensures
        width(m, 1) == m,
        lo(m, 1) == 0,
        hi(m, 1) == m,
{
}

/// The range below an inner slot is the range below its left child
/// followed by the range below its right child.
pub proof fn lemma_children(m: nat, k: nat)
    requires
        is_capacity(m),
        1 <= k < m,
    ensures
        width(m, 2 * k) == width(m, 2 * k + 1),
        width(m, k) == 2 * width(m, 2 * k),
        lo(m, 2 * k) == lo(m, k),
        hi(m, 2 * k) == lo(m, 2 * k + 1),
        hi(m, 2 * k + 1) == hi(m, k),
{
    lemma_depth_bounds(k);
    lemma_depth_monotonic(k, m);
    assert(depth(2 * k) == depth(k) + 1);
    assert(depth(2 * k + 1) == depth(k) + 1) by {
        assert((2 * k + 1) / 2 == k);
    }
    let b = (depth(m) - depth(k) - 1) as nat;
    lemma_pow2_double(b);
    let w = power2::pow2(b) as int;
    assert(k * (2 * w) == (2 * k) * w) by (nonlinear_arith);
    assert((2 * k + 1) * w == (2 * k) * w + w) by (nonlinear_arith);
}

/// Slot `k` stands `h` levels above the leaves exactly when `k * 2^h` is a
/// leaf slot; the range below it then starts at that leaf and is `2^h` wide.
pub proof fn lemma_level(m: nat, k: nat, h: nat)
    requires
        is_capacity(m),
        m <= k * power2::pow2(h) < 2 * m,
    ensures
        1 <= k < 2 * m,
        h <= depth(m),
        depth(k) + h == depth(m),
        width(m, k) == power2::pow2(h),
        lo(m, k) == k * power2::pow2(h) - m,
        hi(m, k) == (k + 1) * power2::pow2(h) - m,
{
    let w = power2::pow2(h) as int;
    power2::lemma_pow2_pos(h);
    lemma_capacity_double(m);
    assert(k >= 1) by (nonlinear_arith)
        requires
            k * w >= 1,
            k >= 0,
    ;
    assert(k <= k * w) by (nonlinear_arith)
        requires
            w >= 1,
            k >= 0,
    ;
    assert(w <= k * w) by (nonlinear_arith)
        requires
            w >= 1,
            k >= 1,
    ;
    if h > depth(m) {
        power2::lemma_pow2_strictly_increases(depth(m), h);
        assert(h >= depth(m) + 1);
        if h > depth(m) + 1 {
            power2::lemma_pow2_strictly_increases(depth(m) + 1, h);
        }
        assert(false);
    }
    let a = (depth(m) - h) as nat;
    let p = power2::pow2(a) as int;
    power2::lemma_pow2_adds(a, h);
    power2::lemma_pow2_pos(a);
    assert(p <= k) by (nonlinear_arith)
        requires
            p * w <= k * w,
            w >= 1,
    ;
    assert(k < 2 * p) by (nonlinear_arith)
        requires
            k * w < 2 * (p * w),
            w >= 1,
    ;
    lemma_depth_unique(k, a);
    assert((k + 1) * w == k * w + w) by (nonlinear_arith);
}

/// Of two distinct powers of two, the larger is at least twice the smaller.
pub proof fn lemma_capacity_gap(a: nat, b: nat)
    requires
        is_capacity(a),
        is_capacity(b),
        a < b,
    ensures
        2 * a <= b,
{
    lemma_depth_monotonic(a, b);
    lemma_pow2_double(depth(a));
    if depth(a) + 1 < depth(b) {
        power2::lemma_pow2_strictly_increases(depth(a) + 1, depth(b));
    }
}

/// The leaves of a tree stored in `t`.
pub open spec fn leaves<S>(t: Seq<S>, m: nat) -> Seq<S> {
    t.subrange(m as int, 2 * m as int)
}

/// Slot `k` of `t` holds the product of its two children.
pub open spec fn is_product_of_children<S>(t: Seq<S>, op: spec_fn(S, S) -> S, k: int) -> bool {
    t[k] == op(t[2 * k], t[2 * k + 1])
}

/// Every inner slot of `t` holds the product of its two children.
pub open spec fn is_aggregated<S>(t: Seq<S>, op: spec_fn(S, S) -> S, m: nat) -> bool {
    forall|k: int| 1 <= k < m ==> #[trigger] is_product_of_children(t, op, k)
}

/// In an aggregated tree every slot holds the ordered product of the leaves
/// below it.
pub proof fn lemma_node_product<S>(t: Seq<S>, e: S, op: spec_fn(S, S) -> S, m: nat, k: nat)
    requires
        fold::is_monoid(e, op),
        is_capacity(m),
        t.len() == 2 * m,
        is_aggregated(t, op, m),
        1 <= k < 2 * m,
    ensures
        0 <= lo(m, k) < hi(m, k) <= m,
        t[k as int] == fold::product(leaves(t, m).subrange(lo(m, k), hi(m, k)), e, op),
    decreases 2 * m - k,
{
    lemma_range(m, k);
    let below = leaves(t, m).subrange(lo(m, k), hi(m, k));
    if k >= m {
        lemma_leaf(m, k);
        assert(below[0] == t[k as int]);
        fold::lemma_product_single(below, e, op);
    } else {
        lemma_children(m, k);
        lemma_node_product(t, e, op, m, 2 * k);
        lemma_node_product(t, e, op, m, 2 * k + 1);
        fold::lemma_product_split(leaves(t, m), e, op, lo(m, k), hi(m, 2 * k), hi(m, k));
        assert(is_product_of_children(t, op, k as int));
    }
}

/// Slot `a` lies on the path from slot `k` up to the root, `k` excluded.
pub open spec fn above(a: nat, k: nat) -> bool
    decreases k,
{
    k > 1 && (a == k / 2 || above(a, k / 2))
}

/// A slot above `k` is an inner slot at no more than half of `k`.
pub proof fn lemma_above_bounds(a: nat, k: nat)
    requires
        above(a, k),
    ensures
        1 <= a,
        2 * a <= k,
    decreases k,
{
    if a != k / 2 {
        lemma_above_bounds(a, k / 2);
    }
}

/// The parent of `c` lies above everything that `c` lies above, and above
/// `c` itself.
pub proof fn lemma_above_parent(c: nat, j: nat)
    requires
        c > 1,
        j == c || above(c, j),
    ensures
        above(c / 2, j),
    decreases j,
{
    assert(above(c / 2, c));
    if j != c && c != j / 2 {
        lemma_above_parent(c, j / 2);
    }
}

/// What lies below `k` is a child of `k` or lies below a child of `k`.
pub proof fn lemma_above_split(k: nat, j: nat)
    requires
        above(k, j),
    ensures
        j == 2 * k || j == 2 * k + 1 || above(2 * k, j) || above(2 * k + 1, j),
    decreases j,
{
    if j / 2 != k {
        lemma_above_split(k, j / 2);
    }
}

/// The range below a slot lies inside the range below every slot above it.
pub proof fn lemma_above_range(m: nat, a: nat, k: nat)
    requires
        is_capacity(m),
        1 <= k < 2 * m,
        above(a, k),
    ensures
        1 <= a < m,
        lo(m, a) <= lo(m, k),
        hi(m, k) <= hi(m, a),
    decreases k,
{
    lemma_above_bounds(a, k);
    let p = k / 2;
    lemma_children(m, p);
    lemma_range(m, 2 * p);
    lemma_range(m, 2 * p + 1);
    if a != p {
        lemma_above_range(m, a, p);
    }
}

/// A leaf whose position is in the range below slot `a` is `a` itself or
/// lies below `a`.
pub proof fn lemma_range_above(m: nat, a: nat, k: nat)
    requires
        is_capacity(m),
        1 <= a < 2 * m,
        m <= k < 2 * m,
        lo(m, a) <= k - m < hi(m, a),
    ensures
        k == a || above(a, k),
    decreases 2 * m - a,
{
    if a >= m {
        lemma_leaf(m, a);
    } else {
        lemma_children(m, a);
        let c = if k - m < hi(m, 2 * a) {
            2 * a
        } else {
            2 * a + 1
        };
        lemma_range_above(m, c, k);
        lemma_above_parent(c, k);
    }
}

/// The position `x` lies strictly inside the range below slot `k`: the
/// slot has leaves on both sides of a boundary at `x`.
pub open spec fn straddles(m: nat, k: nat, x: int) -> bool {
    lo(m, k) < x < hi(m, k)
}

/// Every slot above one that straddles `x` straddles `x` too.
pub proof fn lemma_straddles_above(m: nat, a: nat, k: nat, x: int)
    requires
        is_capacity(m),
        1 <= k < 2 * m,
        straddles(m, k, x),
        above(a, k),
    ensures
        straddles(m, a, x),
{
    lemma_above_range(m, a, k);
}

/// At each height `h >= 1` at most one slot straddles `x`: the one at
/// `(x + m) / 2^h`, and it does so when `x + m` is no multiple of `2^h`.
pub proof fn lemma_straddles_level(m: nat, x: int, h: nat)
    requires
        is_capacity(m),
        0 <= x <= m,
        1 <= h <= depth(m),
        (x + m) % (power2::pow2(h) as int) != 0,
    ensures
        1 <= (x + m) / (power2::pow2(h) as int) < m,
        (x + m - 1) / (power2::pow2(h) as int) == (x + m) / (power2::pow2(h) as int),
        depth(((x + m) / (power2::pow2(h) as int)) as nat) + h == depth(m),
        straddles(m, ((x + m) / (power2::pow2(h) as int)) as nat, x),
{
    let w = power2::pow2(h) as int;
    power2::lemma_pow2_pos(h);
    let a = (x + m) / w;
    let rest = (x + m) % w;
    div_mod::lemma_fundamental_div_mod(x + m, w);
    div_mod::lemma_mod_bound(x + m, w);
    assert(w * a == a * w) by (nonlinear_arith);
    div_mod::lemma_fundamental_div_mod_converse(x + m - 1, w, a, rest - 1);
    // `m` and `2m` are multiples of `2^h`, so `x + m` lies strictly between them
    let b = (depth(m) - h) as nat;
    let p = power2::pow2(b) as int;
    power2::lemma_pow2_adds(b, h);
    power2::lemma_pow2_pos(b);
    assert(p <= a) by (nonlinear_arith)
        requires
            p * w <= a * w + rest,
            rest < w,
            w >= 1,
    ;
    assert(a < 2 * p) by (nonlinear_arith)
        requires
            a * w + rest <= 2 * (p * w),
            rest > 0,
            w >= 1,
    ;
    assert(a * w < 2 * m) by (nonlinear_arith)
        requires
            a < 2 * p,
            p * w == m,
            w >= 1,
    ;
    assert(a * w >= m) by (nonlinear_arith)
        requires
            a >= p,
            p * w == m,
            w >= 1,
    ;
    lemma_level(m, a as nat, h);
    lemma_depth_bounds(a as nat);
    lemma_pow2_zero();
    if a >= m {
        lemma_depth_monotonic(m, a as nat);
    }
}

/// A slot that straddles `x` stands at some height `h >= 1`, and is the
/// slot at `(x + m) / 2^h`, where `x + m` is no multiple of `2^h`.
pub proof fn lemma_level_straddles(m: nat, k: nat, x: int)
    requires
        is_capacity(m),
        1 <= k < 2 * m,
        straddles(m, k, x),
    ensures
        1 <= k < m,
        depth(k) < depth(m),
        (x + m) % (width(m, k) as int) != 0,
        (x + m) / (width(m, k) as int) == k,
{
    lemma_range(m, k);
    let w = width(m, k) as int;
    let rest = x + m - k * w;
    div_mod::lemma_fundamental_div_mod_converse(x + m, w, k as int, rest);
    if k >= m {
        lemma_leaf(m, k);
    }
    if depth(k) == depth(m) {
        lemma_pow2_zero();
    }
}

/// A pointer `l` at height `h` that moves up one level keeps its place
/// among the leaves when it is even.
pub proof fn lemma_halve(l: nat, h: nat)
    requires
        l % 2 == 0,
    ensures
        (l / 2) * power2::pow2(h + 1) == l * power2::pow2(h),
{
    lemma_pow2_double(h);
    let w = power2::pow2(h) as int;
    assert((l / 2) * (2 * w) == l * w) by (nonlinear_arith)
        requires
            l == 2 * (l / 2),
    ;
}

/// The slot at a left pointer `l` that has not met the right pointer `r`
/// stands at the height of the pointers, and its leaves start where the
/// pointer is.
pub proof fn lemma_left_slot(m: nat, h: nat, l: nat, r: nat)
    requires
        is_capacity(m),
        l < r,
        m <= l * power2::pow2(h),
        r * power2::pow2(h) <= 2 * m,
    ensures
        1 <= l < 2 * m,
        depth(l) + h == depth(m),
        width(m, l) == power2::pow2(h),
        lo(m, l) == l * power2::pow2(h) - m,
        hi(m, l) == (l + 1) * power2::pow2(h) - m,
        (l + 1) * power2::pow2(h) == l * power2::pow2(h) + power2::pow2(h),
        (l + 1) * power2::pow2(h) <= r * power2::pow2(h),
{
    let w = power2::pow2(h) as int;
    power2::lemma_pow2_pos(h);
    assert((l + 1) * w == l * w + w) by (nonlinear_arith);
    assert((l + 1) * w <= r * w) by (nonlinear_arith)
        requires
            l + 1 <= r,
            w >= 0,
    ;
    lemma_level(m, l, h);
}

/// The slot just left of a right pointer `r` that has not met the left
/// pointer `l` stands at the height of the pointers, and its leaves end
/// where the pointer is.
pub proof fn lemma_right_slot(m: nat, h: nat, l: nat, r: nat)
    requires
        is_capacity(m),
        l < r,
        m <= l * power2::pow2(h),
        r * power2::pow2(h) <= 2 * m,
    ensures
        1 <= r - 1 < 2 * m,
        depth((r - 1) as nat) + h == depth(m),
        width(m, (r - 1) as nat) == power2::pow2(h),
        lo(m, (r - 1) as nat) == (r - 1) * power2::pow2(h) - m,
        hi(m, (r - 1) as nat) == r * power2::pow2(h) - m,
        (r - 1) * power2::pow2(h) == r * power2::pow2(h) - power2::pow2(h),
        l * power2::pow2(h) <= (r - 1) * power2::pow2(h),
{
    let w = power2::pow2(h) as int;
    let k = (r - 1) as nat;
    power2::lemma_pow2_pos(h);
    assert(k * w == r * w - w) by (nonlinear_arith)
        requires
            k == r - 1,
    ;
    assert(l * w <= k * w) by (nonlinear_arith)
        requires
            l <= k,
            w >= 0,
    ;
    lemma_level(m, k, h);
}

/// Taking the slot at the left pointer into the left accumulator extends
/// the accumulated range by the leaves below that slot.
pub proof fn lemma_left_step<S>(
    t: Seq<S>,
    e: S,
    op: spec_fn(S, S) -> S,
    m: nat,
    h: nat,
    l: nat,
    r: nat,
    l0: int,
    acc: S,
)
    requires
        fold::is_monoid(e, op),
        is_capacity(m),
        t.len() == 2 * m,
        is_aggregated(t, op, m),
        l < r,
        m <= l * power2::pow2(h),
        r * power2::pow2(h) <= 2 * m,
        0 <= l0 <= l * power2::pow2(h) - m,
        acc == fold::product(leaves(t, m).subrange(l0, l * power2::pow2(h) - m), e, op),
    ensures
        op(acc, t[l as int]) == fold::product(
            leaves(t, m).subrange(l0, (l + 1) * power2::pow2(h) - m),
            e,
            op,
        ),
{
    lemma_left_slot(m, h, l, r);
    lemma_node_product(t, e, op, m, l);
    fold::lemma_product_split(leaves(t, m), e, op, l0, lo(m, l), hi(m, l));
}

/// Taking the slot just left of the right pointer into the right
/// accumulator extends the accumulated range by the leaves below that slot.
pub proof fn lemma_right_step<S>(
    t: Seq<S>,
    e: S,
    op: spec_fn(S, S) -> S,
    m: nat,
    h: nat,
    l: nat,
    r: nat,
    r0: int,
    acc: S,
)
    requires
        fold::is_monoid(e, op),
        is_capacity(m),
        t.len() == 2 * m,
        is_aggregated(t, op, m),
        l < r,
        m <= l * power2::pow2(h),
        r * power2::pow2(h) <= 2 * m,
        r * power2::pow2(h) - m <= r0 <= m,
        acc == fold::product(leaves(t, m).subrange(r * power2::pow2(h) - m, r0), e, op),
    ensures
        op(t[r - 1], acc) == fold::product(
            leaves(t, m).subrange((r - 1) * power2::pow2(h) - m, r0),
            e,
            op,
        ),
{
    let k = (r - 1) as nat;
    lemma_right_slot(m, h, l, r);
    lemma_node_product(t, e, op, m, k);
    fold::lemma_product_split(leaves(t, m), e, op, lo(m, k), hi(m, k), r0);
}

/// The parent of a right child at the left pointer straddles the left end
/// of the interval, as the pointer is less than one slot away from it.
pub proof fn lemma_left_parent(m: nat, t: nat, first: int)
    requires
        is_capacity(m),
        1 < t < 2 * m,
        t % 2 == 1,
        lo(m, t) - width(m, t) < first <= lo(m, t),
    ensures
        straddles(m, t / 2, first),
{
    lemma_children(m, t / 2);
    lemma_range(m, t);
}

/// The parent of a left child just left of the right pointer straddles the
/// right end of the interval, as the pointer is less than one slot away
/// from it.
pub proof fn lemma_right_parent(m: nat, t: nat, past: int)
    requires
        is_capacity(m),
        1 < t < 2 * m,
        t % 2 == 0,
        hi(m, t) <= past < hi(m, t) + width(m, t),
    ensures
        straddles(m, t / 2, past),
{
    lemma_children(m, t / 2);
    lemma_range(m, t);
}

/// Returns the slot `k` levels above slot `x`.
pub fn ancestor(x: usize, k: usize) -> (a: usize)
    requires
        k < usize::BITS,
    ensures
        a == x as int / (power2::pow2(k as nat) as int),
{
    proof {
        bits::lemma_usize_shr_is_div(x, k);
    }
    x >> k
}

/// Returns whether `x` is a multiple of `2^k`.
pub fn is_aligned(x: usize, k: usize) -> (b: bool)
    requires
        k < usize::BITS,
    ensures
        b == (x as int % (power2::pow2(k as nat) as int) == 0),
{
    let q = x >> k;
    proof {
        let w = power2::pow2(k as nat) as int;
        power2::lemma_pow2_pos(k as nat);
        bits::lemma_usize_shr_is_div(x, k);
        div_mod::lemma_fundamental_div_mod(x as int, w);
        div_mod::lemma_mod_bound(x as int, w);
        assert(q * w == w * q) by (nonlinear_arith);
        bits::lemma_usize_shl_is_mul(q, k);
    }
    (q << k) == x
}

/// Returns the smallest power of two that is at least `n`.
pub fn capacity(n: usize) -> (m: usize)
    requires
        capacity_for(n as nat) <= usize::MAX,
    ensures
        m == capacity_for(n as nat),
{
    let mut m: usize = 1;
    proof {
        lemma_pow2_zero();
        lemma_capacity_for(n as nat);
    }
    while m < n
        invariant
            is_capacity(m as nat),
            is_capacity(capacity_for(n as nat)),
            m >= 1,
            m == 1 || m < 2 * n,
            n <= capacity_for(n as nat) <= usize::MAX,
        decreases usize::MAX - m,
    {
        proof {
            lemma_capacity_gap(m as nat, capacity_for(n as nat));
            lemma_capacity_double(m as nat);
        }
        m = m * 2;
    }
    proof {
        lemma_capacity_unique(n as nat, m as nat);
    }
    m
}

/// Returns the number of levels between the root and the leaves of a tree
/// of capacity `m`, that is `log2(m)`.
pub fn height(m: usize) -> (d: u32)
    requires
        is_capacity(m as nat),
    ensures
        d == depth(m as nat),
        d < usize::BITS,
{
    let d = (m as u64).trailing_zeros();
    proof {
        let x = m as u64;
        let a = depth(m as nat);
        std_bits::axiom_u64_trailing_zeros(x);
        power2::lemma_pow2_pos(a);
        assert(a < usize::BITS) by {
            power2::lemma2_to64();
            if a > usize::BITS {
                power2::lemma_pow2_strictly_increases(usize::BITS as nat, a);
            }
        }
        assert(forall|y: u64| #![auto] y & 1 == y % 2) by (bit_vector);
        if d < a {
            // bit `d` of `m` is set, yet `m / 2^d` is even
            bits::lemma_u64_shr_is_div(x, d as u64);
            power2::lemma_pow2_adds(d as nat, (a - d) as nat);
            lemma_pow2_double((a - d - 1) as nat);
            let q = power2::pow2((a - d - 1) as nat) as int;
            let p = power2::pow2(d as nat) as int;
            power2::lemma_pow2_pos(d as nat);
            assert(x as int == (2 * q) * p) by (nonlinear_arith)
                requires
                    x as int == p * (2 * q),
            ;
            vstd::arithmetic::div_mod::lemma_div_by_multiple(2 * q, p);
            assert((x >> (d as u64)) & 1 == (x >> (d as u64)) % 2);
            assert(false);
        }
        if d > a {
            // bit `a` of `m` is clear, yet `m / 2^a` is one
            bits::lemma_u64_shr_is_div(x, a as u64);
            power2::lemma_pow2_pos(a);
            vstd::arithmetic::div_mod::lemma_div_by_multiple(1, power2::pow2(a) as int);
            assert((x >> (a as u64)) & 1 == 0u64);
            assert((x >> (a as u64)) & 1 == (x >> (a as u64)) % 2);
            assert(false);
        }
    }
    d
}

} // verus!
