//! Pending operators of a lazily updated tree.
//!
//! A lazily updated tree keeps, beside the buffer of aggregates, a buffer of
//! operators. The operator at slot `k` has been applied to the aggregate at
//! `k`, but not yet to anything below `k`. So what a stored aggregate stands
//! for depends on the operators above it. This module says what it stands
//! for, and proves what the two ways of changing the buffers do to it:
//! pushing an operator down one level, and applying a new operator to a slot.

use vstd::prelude::*;

use crate::algebra::monoid_action;
use crate::algebra::monoid_action::MonoidAction;
use crate::ds::layout;

verus! {

/// What `x`, stored at slot `k`, stands for: `x` after the operators at the
/// slots above `k` have been applied to it, the nearest first.
pub open spec fn settled<A: MonoidAction>(func: Seq<A::F>, k: nat, x: A::S) -> A::S
    decreases k,
{
    if k <= 1 {
        x
    } else {
        settled::<A>(func, k / 2, A::apply_spec(x, func[(k / 2) as int]))
    }
}

/// What each slot of the tree stands for.
pub open spec fn values<A: MonoidAction>(data: Seq<A::S>, func: Seq<A::F>) -> Seq<A::S> {
    Seq::new(data.len(), |k: int| settled::<A>(func, k as nat, data[k]))
}

/// The aggregate at the inner slot `k` is the product of the aggregates of
/// its children, with the operator at `k` applied to it.
pub open spec fn is_pending_node<A: MonoidAction>(
    data: Seq<A::S>,
    func: Seq<A::F>,
    k: int,
) -> bool {
    data[k] == A::apply_spec(A::op_s_spec(data[2 * k], data[2 * k + 1]), func[k])
}

/// The two buffers have `2m` slots each, and every inner slot agrees with
/// its children.
pub open spec fn is_lazy_tree<A: MonoidAction>(data: Seq<A::S>, func: Seq<A::F>, m: nat) -> bool {
    &&& data.len() == 2 * m
    &&& func.len() == 2 * m
    &&& forall|k: int| 1 <= k < m ==> #[trigger] is_pending_node::<A>(data, func, k)
}

/// No operator is pending at any slot above `k`.
pub open spec fn is_clean_above<A: MonoidAction>(func: Seq<A::F>, k: nat) -> bool {
    forall|a: nat| #[trigger] layout::above(a, k) ==> func[a as int] == A::identity_f_spec()
}

/// Settling a product is settling both factors.
pub proof fn lemma_settled_distributes<A: MonoidAction>(func: Seq<A::F>, k: nat, a: A::S, b: A::S)
    ensures
        settled::<A>(func, k, A::op_s_spec(a, b)) == A::op_s_spec(
            settled::<A>(func, k, a),
            settled::<A>(func, k, b),
        ),
    decreases k,
{
    if k > 1 {
        let f = func[(k / 2) as int];
        A::lemma_apply_distributes(a, b, f);
        lemma_settled_distributes::<A>(func, k / 2, A::apply_spec(a, f), A::apply_spec(b, f));
    }
}

/// What the slots of a lazy tree stand for is an aggregated tree: every
/// inner slot stands for the product of what its children stand for.
pub proof fn lemma_values_aggregated<A: MonoidAction>(data: Seq<A::S>, func: Seq<A::F>, m: nat)
    requires
        is_lazy_tree::<A>(data, func, m),
    ensures
        layout::is_aggregated(values::<A>(data, func), monoid_action::op_s_fn::<A>(), m),
{
    let t = values::<A>(data, func);
    let op = monoid_action::op_s_fn::<A>();
    assert forall|k: int| 1 <= k < m implies #[trigger] layout::is_product_of_children(
        t,
        op,
        k,
    ) by {
        assert(is_pending_node::<A>(data, func, k));
        let f = func[k];
        A::lemma_apply_distributes(data[2 * k], data[2 * k + 1], f);
        lemma_settled_distributes::<A>(
            func,
            k as nat,
            A::apply_spec(data[2 * k], f),
            A::apply_spec(data[2 * k + 1], f),
        );
        assert((2 * k) / 2 == k && (2 * k + 1) / 2 == k);
    }
}

/// Where nothing is pending above `k`, slot `k` stands for what it holds.
pub proof fn lemma_settled_clean<A: MonoidAction>(func: Seq<A::F>, k: nat, x: A::S)
    requires
        is_clean_above::<A>(func, k),
    ensures
        settled::<A>(func, k, x) == x,
    decreases k,
{
    if k > 1 {
        assert(layout::above(k / 2, k));
        A::lemma_apply_identity(x);
        assert forall|a: nat| #[trigger] layout::above(a, k / 2) implies func[a as int]
            == A::identity_f_spec() by {
            assert(layout::above(a, k));
        }
        lemma_settled_clean::<A>(func, k / 2, x);
    }
}

/// The aggregates after the operator at slot `k` has been pushed down.
pub open spec fn pushed_data<A: MonoidAction>(data: Seq<A::S>, func: Seq<A::F>, k: int) -> Seq<
    A::S,
> {
    data.update(2 * k, A::apply_spec(data[2 * k], func[k])).update(
        2 * k + 1,
        A::apply_spec(data[2 * k + 1], func[k]),
    )
}

/// The operators after the operator at slot `k` has been pushed down.
pub open spec fn pushed_func<A: MonoidAction>(func: Seq<A::F>, k: int) -> Seq<A::F> {
    func.update(k, A::identity_f_spec()).update(2 * k, A::op_f_spec(func[2 * k], func[k])).update(
        2 * k + 1,
        A::op_f_spec(func[2 * k + 1], func[k]),
    )
}

/// A push at `k` changes nothing for a slot that does not lie below `k`.
proof fn lemma_push_settled_outside<A: MonoidAction>(func: Seq<A::F>, k: nat, j: nat, x: A::S)
    requires
        1 <= k,
        2 * k + 1 < func.len(),
        j < func.len(),
        !layout::above(k, j),
    ensures
        settled::<A>(pushed_func::<A>(func, k as int), j, x) == settled::<A>(func, j, x),
    decreases j,
{
    if j > 1 {
        let p = j / 2;
        assert(p != 2 * k && p != 2 * k + 1) by {
            if p == 2 * k || p == 2 * k + 1 {
                assert(layout::above(k, p));
            }
        }
        lemma_push_settled_outside::<A>(func, k, p, A::apply_spec(x, func[p as int]));
    }
}

/// A push at `k` leaves what the children of `k` stand for as it was.
proof fn lemma_push_settled_child<A: MonoidAction>(func: Seq<A::F>, k: nat, c: nat, x: A::S)
    requires
        1 <= k,
        2 * k + 1 < func.len(),
        c == 2 * k || c == 2 * k + 1,
    ensures
        settled::<A>(pushed_func::<A>(func, k as int), c, A::apply_spec(x, func[k as int]))
            == settled::<A>(func, c, x),
{
    let y = A::apply_spec(x, func[k as int]);
    assert(c / 2 == k);
    A::lemma_apply_identity(y);
    if layout::above(k, k) {
        layout::lemma_above_bounds(k, k);
    }
    lemma_push_settled_outside::<A>(func, k, k, y);
}

/// A push at `k` changes nothing for a slot that lies below a child of `k`.
proof fn lemma_push_settled_below<A: MonoidAction>(func: Seq<A::F>, k: nat, j: nat, x: A::S)
    requires
        1 <= k,
        2 * k + 1 < func.len(),
        j < func.len(),
        layout::above(2 * k, j) || layout::above(2 * k + 1, j),
    ensures
        settled::<A>(pushed_func::<A>(func, k as int), j, x) == settled::<A>(func, j, x),
    decreases j,
{
    let p = j / 2;
    let c = if layout::above(2 * k, j) {
        2 * k
    } else {
        2 * k + 1
    };
    if p == 2 * k || p == 2 * k + 1 {
        A::lemma_apply_composition(x, func[p as int], func[k as int]);
        lemma_push_settled_child::<A>(func, k, p, A::apply_spec(x, func[p as int]));
    } else {
        layout::lemma_above_bounds(c, p);
        lemma_push_settled_below::<A>(func, k, p, A::apply_spec(x, func[p as int]));
    }
}

/// Pushing the operator at an inner slot down one level changes what no
/// slot stands for.
pub proof fn lemma_push_values<A: MonoidAction>(data: Seq<A::S>, func: Seq<A::F>, m: nat, k: nat)
    requires
        data.len() == 2 * m,
        func.len() == 2 * m,
        1 <= k < m,
    ensures
        values::<A>(pushed_data::<A>(data, func, k as int), pushed_func::<A>(func, k as int))
            == values::<A>(data, func),
{
    let after = values::<A>(pushed_data::<A>(data, func, k as int), pushed_func::<A>(func, k as int));
    let before = values::<A>(data, func);
    assert forall|j: int| 0 <= j < 2 * m implies after[j] == before[j] by {
        if j == 2 * k || j == 2 * k + 1 {
            lemma_push_settled_child::<A>(func, k, j as nat, data[j]);
        } else if layout::above(k, j as nat) {
            layout::lemma_above_split(k, j as nat);
            lemma_push_settled_below::<A>(func, k, j as nat, data[j]);
        } else {
            lemma_push_settled_outside::<A>(func, k, j as nat, data[j]);
        }
    }
    assert(after =~= before);
}

/// Pushing the operator at an inner slot down one level keeps the tree a
/// lazy tree.
pub proof fn lemma_push_tree<A: MonoidAction>(data: Seq<A::S>, func: Seq<A::F>, m: nat, k: nat)
    requires
        is_lazy_tree::<A>(data, func, m),
        1 <= k < m,
    ensures
        is_lazy_tree::<A>(pushed_data::<A>(data, func, k as int), pushed_func::<A>(func, k as int), m),
{
    let data2 = pushed_data::<A>(data, func, k as int);
    let func2 = pushed_func::<A>(func, k as int);
    let f = func[k as int];
    assert forall|j: int| 1 <= j < m implies #[trigger] is_pending_node::<A>(data2, func2, j) by {
        assert(is_pending_node::<A>(data, func, j));
        if j == k {
            A::lemma_apply_distributes(data[2 * j], data[2 * j + 1], f);
            A::lemma_apply_identity(data[j]);
        } else if j == 2 * k || j == 2 * k + 1 {
            A::lemma_apply_composition(
                A::op_s_spec(data[2 * j], data[2 * j + 1]),
                func[j],
                f,
            );
        }
    }
}

/// The aggregates after `f` has been applied to slot `t`.
pub open spec fn touched_data<A: MonoidAction>(data: Seq<A::S>, t: int, f: A::F) -> Seq<A::S> {
    data.update(t, A::apply_spec(data[t], f))
}

/// The operators after `f` has been applied to slot `t`.
pub open spec fn touched_func<A: MonoidAction>(func: Seq<A::F>, t: int, f: A::F) -> Seq<A::F> {
    func.update(t, A::op_f_spec(func[t], f))
}

/// Applying an operator at `t` changes nothing for a slot that does not lie
/// below `t`.
proof fn lemma_touch_settled_outside<A: MonoidAction>(
    func: Seq<A::F>,
    t: nat,
    f: A::F,
    j: nat,
    x: A::S,
)
    requires
        t < func.len(),
        j < func.len(),
        !layout::above(t, j),
    ensures
        settled::<A>(touched_func::<A>(func, t as int, f), j, x) == settled::<A>(func, j, x),
    decreases j,
{
    if j > 1 {
        lemma_touch_settled_outside::<A>(func, t, f, j / 2, A::apply_spec(x, func[(j / 2) as int]));
    }
}

/// Applying an operator at `t`, where nothing is pending above `t`, applies
/// it to what every slot below `t` stands for.
proof fn lemma_touch_settled_below<A: MonoidAction>(
    func: Seq<A::F>,
    t: nat,
    f: A::F,
    j: nat,
    x: A::S,
)
    requires
        t < func.len(),
        j < func.len(),
        is_clean_above::<A>(func, t),
        layout::above(t, j),
    ensures
        settled::<A>(touched_func::<A>(func, t as int, f), j, x) == A::apply_spec(
            settled::<A>(func, j, x),
            f,
        ),
    decreases j,
{
    let p = j / 2;
    let y = A::apply_spec(x, func[p as int]);
    if p == t {
        A::lemma_apply_composition(x, func[t as int], f);
        if layout::above(t, t) {
            layout::lemma_above_bounds(t, t);
        }
        lemma_touch_settled_outside::<A>(func, t, f, t, A::apply_spec(y, f));
        lemma_settled_clean::<A>(func, t, A::apply_spec(y, f));
        lemma_settled_clean::<A>(func, t, y);
    } else {
        lemma_touch_settled_below::<A>(func, t, f, p, y);
    }
}

/// Applying an operator at `t`, where nothing is pending above `t`, applies
/// it to what `t` and every slot below `t` stand for, and to nothing else.
pub proof fn lemma_touch_values<A: MonoidAction>(
    data: Seq<A::S>,
    func: Seq<A::F>,
    m: nat,
    t: nat,
    f: A::F,
)
    requires
        data.len() == 2 * m,
        func.len() == 2 * m,
        1 <= t < 2 * m,
        is_clean_above::<A>(func, t),
    ensures
        forall|j: int|
            0 <= j < 2 * m ==> #[trigger] values::<A>(
                touched_data::<A>(data, t as int, f),
                touched_func::<A>(func, t as int, f),
            )[j] == if j == t || layout::above(t, j as nat) {
                A::apply_spec(values::<A>(data, func)[j], f)
            } else {
                values::<A>(data, func)[j]
            },
{
    let data2 = touched_data::<A>(data, t as int, f);
    let func2 = touched_func::<A>(func, t as int, f);
    assert forall|j: int| 0 <= j < 2 * m implies #[trigger] values::<A>(data2, func2)[j] == if j
        == t || layout::above(t, j as nat) {
        A::apply_spec(values::<A>(data, func)[j], f)
    } else {
        values::<A>(data, func)[j]
    } by {
        if j == t {
            if layout::above(t, t) {
                layout::lemma_above_bounds(t, t);
            }
            lemma_touch_settled_outside::<A>(func, t, f, t, data2[j]);
            lemma_settled_clean::<A>(func, t, data2[j]);
            lemma_settled_clean::<A>(func, t, data[j]);
        } else if layout::above(t, j as nat) {
            lemma_touch_settled_below::<A>(func, t, f, j as nat, data[j]);
        } else {
            lemma_touch_settled_outside::<A>(func, t, f, j as nat, data[j]);
        }
    }
}

/// Applying an operator at `t` leaves every inner slot but the parent of
/// `t` in agreement with its children.
pub proof fn lemma_touch_node<A: MonoidAction>(
    data: Seq<A::S>,
    func: Seq<A::F>,
    m: nat,
    t: nat,
    f: A::F,
    k: int,
)
    requires
        data.len() == 2 * m,
        func.len() == 2 * m,
        1 <= t < 2 * m,
        1 <= k < m,
        k != t / 2,
        is_pending_node::<A>(data, func, k),
    ensures
        is_pending_node::<A>(
            touched_data::<A>(data, t as int, f),
            touched_func::<A>(func, t as int, f),
            k,
        ),
{
    if k == t {
        A::lemma_apply_composition(A::op_s_spec(data[2 * k], data[2 * k + 1]), func[k], f);
    }
}

/// Slot `k` straddles one of the two ends of the interval `[first, past)`.
pub open spec fn is_cut(m: nat, k: nat, first: int, past: int) -> bool {
    layout::straddles(m, k, first) || layout::straddles(m, k, past)
}

/// No operator is pending at any slot that straddles an end of the interval
/// `[first, past)`.
pub open spec fn is_clean_on_cut<A: MonoidAction>(
    func: Seq<A::F>,
    m: nat,
    first: int,
    past: int,
) -> bool {
    forall|k: nat|
        1 <= k < m && #[trigger] is_cut(m, k, first, past) ==> func[k as int]
            == A::identity_f_spec()
}

/// A slot whose parent straddles an end of the interval has only slots
/// above it that do so; where those are clean, nothing is pending above it,
/// and it stands for what it holds.
pub proof fn lemma_clean_above_from_cut<A: MonoidAction>(
    data: Seq<A::S>,
    func: Seq<A::F>,
    m: nat,
    t: nat,
    first: int,
    past: int,
)
    requires
        layout::is_capacity(m),
        data.len() == 2 * m,
        is_clean_on_cut::<A>(func, m, first, past),
        1 <= t < 2 * m,
        t > 1 ==> is_cut(m, t / 2, first, past),
    ensures
        is_clean_above::<A>(func, t),
        values::<A>(data, func)[t as int] == data[t as int],
{
    assert forall|a: nat| #[trigger] layout::above(a, t) implies func[a as int]
        == A::identity_f_spec() by {
        layout::lemma_above_range(m, a, t);
        if a != t / 2 {
            let x = if layout::straddles(m, t / 2, first) {
                first
            } else {
                past
            };
            layout::lemma_straddles_above(m, a, t / 2, x);
        }
        assert(is_cut(m, a, first, past));
    }
    lemma_settled_clean::<A>(func, t, data[t as int]);
}

/// The state of the buffers while the operator `f` is being applied to the
/// interval `[first, past)` of a tree that stood for `v0`: the operator has
/// reached the positions in `[first, gl)` and in `[gr, past)`, nothing is
/// pending where a slot straddles an end of the interval, and only such
/// slots may disagree with their children.
pub open spec fn is_applied<A: MonoidAction>(
    data: Seq<A::S>,
    func: Seq<A::F>,
    m: nat,
    v0: Seq<A::S>,
    f: A::F,
    first: int,
    gl: int,
    gr: int,
    past: int,
) -> bool {
    &&& data.len() == 2 * m
    &&& func.len() == 2 * m
    &&& v0.len() == 2 * m
    &&& is_clean_on_cut::<A>(func, m, first, past)
    &&& forall|k: int|
        1 <= k < m ==> #[trigger] is_pending_node::<A>(data, func, k) || is_cut(
            m,
            k as nat,
            first,
            past,
        )
    &&& forall|i: int|
        0 <= i < m ==> #[trigger] layout::leaves(values::<A>(data, func), m)[i] == if first <= i
            < gl || gr <= i < past {
            A::apply_spec(layout::leaves(v0, m)[i], f)
        } else {
            layout::leaves(v0, m)[i]
        }
}

/// Applying `f` at a slot `t` whose leaves are the next ones on the left,
/// or the next ones on the right, of the part of the interval that `f` has
/// not reached yet, lets `f` reach exactly those leaves.
pub proof fn lemma_touch_step<A: MonoidAction>(
    data: Seq<A::S>,
    func: Seq<A::F>,
    m: nat,
    v0: Seq<A::S>,
    f: A::F,
    first: int,
    gl: int,
    gr: int,
    past: int,
    t: nat,
    gl2: int,
    gr2: int,
)
    requires
        layout::is_capacity(m),
        is_applied::<A>(data, func, m, v0, f, first, gl, gr, past),
        0 <= first <= gl <= gr <= past <= m,
        1 <= t < 2 * m,
        gl <= layout::lo(m, t),
        layout::hi(m, t) <= gr,
        t > 1 ==> is_cut(m, t / 2, first, past),
        (gl2 == layout::hi(m, t) && gr2 == gr && layout::lo(m, t) == gl) || (gl2 == gl && gr2
            == layout::lo(m, t) && layout::hi(m, t) == gr),
    ensures
        is_applied::<A>(
            touched_data::<A>(data, t as int, f),
            touched_func::<A>(func, t as int, f),
            m,
            v0,
            f,
            first,
            gl2,
            gr2,
            past,
        ),
{
    let data2 = touched_data::<A>(data, t as int, f);
    let func2 = touched_func::<A>(func, t as int, f);
    lemma_clean_above_from_cut::<A>(data, func, m, t, first, past);
    layout::lemma_range(m, t);
    assert(!is_cut(m, t, first, past));
    assert forall|k: int| 1 <= k < m implies #[trigger] is_pending_node::<A>(data2, func2, k)
        || is_cut(m, k as nat, first, past) by {
        if k != t / 2 && is_pending_node::<A>(data, func, k) {
            lemma_touch_node::<A>(data, func, m, t, f, k);
        }
    }
    lemma_touch_values::<A>(data, func, m, t, f);
    assert forall|i: int| 0 <= i < m implies #[trigger] layout::leaves(
        values::<A>(data2, func2),
        m,
    )[i] == if first <= i < gl2 || gr2 <= i < past {
        A::apply_spec(layout::leaves(v0, m)[i], f)
    } else {
        layout::leaves(v0, m)[i]
    } by {
        let j = (m + i) as nat;
        assert(layout::leaves(values::<A>(data2, func2), m)[i] == values::<A>(data2, func2)[j as int]);
        assert(layout::leaves(values::<A>(data, func), m)[i] == values::<A>(data, func)[j as int]);
        layout::lemma_leaf(m, j);
        if j == t || layout::above(t, j) {
            if j != t {
                layout::lemma_above_range(m, t, j);
            }
        } else if layout::lo(m, t) <= i < layout::hi(m, t) {
            layout::lemma_range_above(m, t, j);
        }
    }
}

/// The padding: the leaves after the `n` leaves of the sequence hold the
/// identity, and no operator is pending at a slot with such a leaf below
/// it.
pub open spec fn is_padded<A: MonoidAction>(
    data: Seq<A::S>,
    func: Seq<A::F>,
    m: nat,
    n: nat,
) -> bool {
    &&& forall|i: int| m + n <= i < 2 * m ==> #[trigger] data[i] == A::identity_s_spec()
    &&& forall|k: int|
        1 <= k < 2 * m && layout::hi(m, k as nat) > n ==> #[trigger] func[k]
            == A::identity_f_spec()
}

/// A push keeps the padding.
pub proof fn lemma_push_padded<A: MonoidAction>(
    data: Seq<A::S>,
    func: Seq<A::F>,
    m: nat,
    n: nat,
    k: nat,
)
    requires
        layout::is_capacity(m),
        data.len() == 2 * m,
        func.len() == 2 * m,
        1 <= k < m,
        is_padded::<A>(data, func, m, n),
    ensures
        is_padded::<A>(pushed_data::<A>(data, func, k as int), pushed_func::<A>(func, k as int), m, n),
{
    let (data2, func2) = (pushed_data::<A>(data, func, k as int), pushed_func::<A>(func, k as int));
    layout::lemma_children(m, k);
    layout::lemma_range(m, 2 * k);
    layout::lemma_range(m, 2 * k + 1);
    if layout::hi(m, k) > n {
        A::lemma_apply_identity(data[2 * (k as int)]);
        A::lemma_apply_identity(data[2 * (k as int) + 1]);
        A::lemma_identity_f(func[2 * (k as int)]);
        A::lemma_identity_f(func[2 * (k as int) + 1]);
        assert(data2 =~= data);
        assert(func2 =~= func);
    } else {
        assert forall|i: int| m + n <= i < 2 * m implies #[trigger] data2[i]
            == A::identity_s_spec() by {
            layout::lemma_leaf(m, i as nat);
            assert(data[i] == A::identity_s_spec());
        }
        assert forall|j: int| 1 <= j < 2 * m && layout::hi(m, j as nat) > n implies #[trigger] func2[j]
            == A::identity_f_spec() by {
            assert(func[j] == A::identity_f_spec());
        }
    }
}

/// Applying an operator at a slot with no leaf of the padding below it
/// keeps the padding.
pub proof fn lemma_touch_padded<A: MonoidAction>(
    data: Seq<A::S>,
    func: Seq<A::F>,
    m: nat,
    n: nat,
    t: nat,
    f: A::F,
)
    requires
        layout::is_capacity(m),
        data.len() == 2 * m,
        func.len() == 2 * m,
        1 <= t < 2 * m,
        layout::hi(m, t) <= n,
        is_padded::<A>(data, func, m, n),
    ensures
        is_padded::<A>(touched_data::<A>(data, t as int, f), touched_func::<A>(func, t as int, f), m, n),
{
    let (data2, func2) = (touched_data::<A>(data, t as int, f), touched_func::<A>(func, t as int, f));
    assert forall|i: int| m + n <= i < 2 * m implies #[trigger] data2[i] == A::identity_s_spec() by {
        layout::lemma_leaf(m, i as nat);
        assert(data[i] == A::identity_s_spec());
    }
    assert forall|j: int| 1 <= j < 2 * m && layout::hi(m, j as nat) > n implies #[trigger] func2[j]
        == A::identity_f_spec() by {
        assert(func[j] == A::identity_f_spec());
    }
}

} // verus!
