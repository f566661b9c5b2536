//! Tree Diameter
//!
//! ## Definition
//!
//! The **diameter** of a tree is the length of the longest path between
//! any two vertices of the tree: for a tree `T = (V, E)`,
//!
//! `diameter(T) = max { d(u, v) : u, v in V }`
//!
//! where `d(u, v)` is the distance between the vertices `u` and `v`.

use vstd::prelude::*;

verus! {

/// The mark of a vertex that a traversal has not reached.
pub const UNREACHED: u64 = 0xFFFF_FFFF_FFFF_FFFF;

/// Both ends of every edge are among the `n` vertices.
pub open spec fn is_edge_list(e: Seq<(usize, usize, u64)>, n: nat) -> bool {
    forall|i: int| 0 <= i < e.len() ==> (#[trigger] e[i]).0 < n && e[i].1 < n
}

/// The edges of `e`, each with the weight one.
pub open spec fn with_unit_weights(e: Seq<(usize, usize)>) -> Seq<(usize, usize, u64)> {
    Seq::new(e.len(), |i: int| (e[i].0, e[i].1, 1u64))
}

/// No edge of `e` weighs more than `limit`.
pub open spec fn is_bounded(e: Seq<(usize, usize, u64)>, limit: nat) -> bool {
    forall|i: int| 0 <= i < e.len() ==> (#[trigger] e[i]).2 <= limit
}

/// The vertex at which a route ends that starts at `start` and takes the
/// edges whose indices `route` holds, one after the other, each from the
/// end of it that the route has reached to the other end.
pub open spec fn end_of(e: Seq<(usize, usize, u64)>, start: int, route: Seq<int>) -> int
    decreases route.len(),
{
    if route.len() == 0 {
        start
    } else {
        let at = end_of(e, start, route.drop_last());
        let edge = e[route.last()];
        if edge.0 == at {
            edge.1 as int
        } else {
            edge.0 as int
        }
    }
}

/// `route` is a route in the graph from `start`: each of its edges is an
/// edge of `e` that has the vertex as an end which the route has reached.
pub open spec fn is_route(e: Seq<(usize, usize, u64)>, start: int, route: Seq<int>) -> bool
    decreases route.len(),
{
    if route.len() == 0 {
        true
    } else {
        let at = end_of(e, start, route.drop_last());
        let edge = e[route.last()];
        &&& is_route(e, start, route.drop_last())
        &&& 0 <= route.last() < e.len()
        &&& (edge.0 == at || edge.1 == at)
    }
}

/// The sum of the weights of the edges of a route.
pub open spec fn weight(e: Seq<(usize, usize, u64)>, route: Seq<int>) -> nat
    decreases route.len(),
{
    if route.len() == 0 {
        0
    } else {
        weight(e, route.drop_last()) + e[route.last()].2 as nat
    }
}

/// A route of `k` edges that weigh at most `limit` each weighs at most
/// `k * limit`.
proof fn lemma_weight_bound(e: Seq<(usize, usize, u64)>, start: int, route: Seq<int>, limit: nat)
    requires
        is_route(e, start, route),
        is_bounded(e, limit),
    ensures
        weight(e, route) <= route.len() * limit,
    decreases route.len(),
{
    if route.len() > 0 {
        lemma_weight_bound(e, start, route.drop_last(), limit);
        assert((route.len() - 1) * limit + limit == route.len() * limit) by (nonlinear_arith);
    }
}

/// `route` is a trail from `start`: a route that takes no edge twice.
pub open spec fn is_trail(e: Seq<(usize, usize, u64)>, start: int, route: Seq<int>) -> bool {
    is_route(e, start, route) && route.no_duplicates()
}

/// `length` is the weight of some trail in the graph with the edges `e`.
pub open spec fn is_trail_weight(e: Seq<(usize, usize, u64)>, length: nat) -> bool {
    exists|start: int, route: Seq<int>| #[trigger]
        is_trail(e, start, route) && weight(e, route) == length
}

/// No trail in the graph with the edges `e` weighs more than `length`.
pub open spec fn is_trail_bound(e: Seq<(usize, usize, u64)>, length: nat) -> bool {
    forall|start: int, route: Seq<int>| #[trigger]
        is_trail(e, start, route) ==> weight(e, route) <= length
}

/// There is a route from `u` to `v`.
pub open spec fn is_linked(e: Seq<(usize, usize, u64)>, u: int, v: int) -> bool {
    exists|route: Seq<int>| #[trigger] is_route(e, u, route) && end_of(e, u, route) == v
}

/// There is a route from vertex `0` to each of the `n` vertices, and so
/// from each vertex to each.
pub open spec fn is_connected(e: Seq<(usize, usize, u64)>, n: nat) -> bool {
    forall|v: int| 0 <= v < n ==> #[trigger] is_linked(e, 0, v)
}

/// A route of one edge or more starts at a vertex.
proof fn lemma_start(e: Seq<(usize, usize, u64)>, n: nat, start: int, route: Seq<int>)
    requires
        is_edge_list(e, n),
        is_route(e, start, route),
        route.len() >= 1,
    ensures
        0 <= start < n,
    decreases route.len(),
{
    if route.len() >= 2 {
        lemma_start(e, n, start, route.drop_last());
    } else {
        assert(route.drop_last().len() == 0);
        assert(end_of(e, start, route.drop_last()) == start);
    }
}

/// The edge joins the vertices `u` and `v`.
spec fn joins(edge: (usize, usize, u64), u: int, v: int) -> bool {
    (edge.0 == u && edge.1 == v) || (edge.1 == u && edge.0 == v)
}

/// A tree that a traversal makes of a graph, vertex by vertex.
struct Rooted {
    /// The vertex that the traversal started at.
    root: int,
    /// For each vertex but the root, the vertex that it was reached from.
    parent: Seq<int>,
    /// For each vertex but the root, the edge that it was reached by.
    via: Seq<int>,
    /// For each vertex, the number of edges between the root and it.
    depth: Seq<nat>,
    /// For each edge by which a vertex was reached, that vertex.
    below: Seq<int>,
}

/// The vertex `v` hangs by an edge from its parent, which has been reached;
/// `dist` holds its distance from the root.
spec fn is_hung(e: Seq<(usize, usize, u64)>, t: Rooted, dist: Seq<u64>, v: int) -> bool {
    let (p, k) = (t.parent[v], t.via[v]);
    &&& 0 <= p < dist.len()
    &&& dist[p] != UNREACHED
    &&& 0 <= k < e.len()
    &&& t.below[k] == v
    &&& joins(e[k], v, p)
    &&& t.depth[v] == t.depth[p] + 1
    &&& dist[v] == dist[p] + e[k].2
}

/// A vertex that has been reached hangs by the edge `k`.
spec fn is_below(t: Rooted, dist: Seq<u64>, k: int) -> bool {
    let v = t.below[k];
    &&& 0 <= v < dist.len()
    &&& v != t.root
    &&& dist[v] != UNREACHED
    &&& t.via[v] == k
}

/// The tree has as many vertices as `dist`, and a place for each edge.
spec fn is_sized(e: Seq<(usize, usize, u64)>, t: Rooted, dist: Seq<u64>) -> bool {
    &&& t.parent.len() == dist.len()
    &&& t.via.len() == dist.len()
    &&& t.depth.len() == dist.len()
    &&& t.below.len() == e.len()
    &&& 0 <= t.root < dist.len()
    &&& dist[t.root] == 0
    &&& t.depth[t.root] == 0
}

/// `t` is a tree of the vertices that have been reached, and its edges
/// are those that `used` marks.
spec fn is_partial(
    e: Seq<(usize, usize, u64)>,
    t: Rooted,
    dist: Seq<u64>,
    used: Seq<bool>,
) -> bool {
    &&& is_sized(e, t, dist)
    &&& used.len() == e.len()
    &&& forall|v: int|
        0 <= v < dist.len() && dist[v] != UNREACHED && v != t.root ==> #[trigger] is_hung(
            e,
            t,
            dist,
            v,
        ) && used[t.via[v]]
    &&& forall|k: int| 0 <= k < e.len() && #[trigger] used[k] ==> is_below(t, dist, k)
}

/// `t` is a tree of all the vertices, and its edges are all the edges.
spec fn is_rooted(e: Seq<(usize, usize, u64)>, t: Rooted, dist: Seq<u64>) -> bool {
    &&& is_sized(e, t, dist)
    &&& forall|v: int| 0 <= v < dist.len() ==> dist[v] != UNREACHED
    &&& forall|v: int| 0 <= v < dist.len() && v != t.root ==> #[trigger] is_hung(e, t, dist, v)
    &&& forall|k: int| 0 <= k < e.len() ==> #[trigger] is_below(t, dist, k)
}

/// The tree after the vertex `j` has been reached from `i` by the edge `k`.
spec fn hung(t: Rooted, i: int, j: int, k: int) -> Rooted {
    Rooted {
        root: t.root,
        parent: t.parent.update(j, i),
        via: t.via.update(j, k),
        depth: t.depth.update(j, t.depth[i] + 1),
        below: t.below.update(k, j),
    }
}

/// A vertex that is reached for the first time is reached by an edge that
/// is not in the tree, and hangs by it.
proof fn lemma_hang(
    e: Seq<(usize, usize, u64)>,
    t: Rooted,
    dist: Seq<u64>,
    used: Seq<bool>,
    i: int,
    j: int,
    k: int,
    d: u64,
)
    requires
        is_partial(e, t, dist, used),
        0 <= i < dist.len(),
        0 <= j < dist.len(),
        dist[i] != UNREACHED,
        dist[j] == UNREACHED,
        0 <= k < e.len(),
        joins(e[k], i, j),
        d == dist[i] + e[k].2,
        d != UNREACHED,
    ensures
        !used[k],
        is_partial(e, hung(t, i, j, k), dist.update(j, d), used.update(k, true)),
{
    if used[k] {
        assert(is_below(t, dist, k));
        assert(is_hung(e, t, dist, t.below[k]));
    }
    let (t1, dist1, used1) = (hung(t, i, j, k), dist.update(j, d), used.update(k, true));
    assert forall|v: int|
        0 <= v < dist1.len() && dist1[v] != UNREACHED && v != t1.root implies #[trigger] is_hung(
        e,
        t1,
        dist1,
        v,
    ) && used1[t1.via[v]] by {
        if v != j {
            assert(is_hung(e, t, dist, v));
        }
    }
    assert forall|l: int| 0 <= l < e.len() && #[trigger] used1[l] implies is_below(
        t1,
        dist1,
        l,
    ) by {
        if l != k {
            assert(used[l]);
        }
    }
}

/// The vertex `k` edges above `v` on the way to the root.
spec fn anc(t: Rooted, v: int, k: nat) -> int
    decreases k,
{
    if k == 0 {
        v
    } else {
        t.parent[anc(t, v, (k - 1) as nat)]
    }
}

/// The vertex `k` edges above `v` is `k` less deep, and no farther from the
/// root.
proof fn lemma_anc(e: Seq<(usize, usize, u64)>, t: Rooted, dist: Seq<u64>, v: int, k: nat)
    requires
        is_rooted(e, t, dist),
        0 <= v < dist.len(),
        k <= t.depth[v],
    ensures
        0 <= anc(t, v, k) < dist.len(),
        t.depth[anc(t, v, k)] + k == t.depth[v],
        dist[anc(t, v, k)] <= dist[v],
    decreases k,
{
    if k > 0 {
        lemma_anc(e, t, dist, v, (k - 1) as nat);
        assert(is_hung(e, t, dist, anc(t, v, (k - 1) as nat)));
    }
}

/// The vertex `l` edges above the vertex `k` edges above `v` is the vertex
/// `k + l` edges above `v`.
proof fn lemma_anc_sum(t: Rooted, v: int, k: nat, l: nat)
    ensures
        anc(t, anc(t, v, k), l) == anc(t, v, k + l),
    decreases l,
{
    if l > 0 {
        lemma_anc_sum(t, v, k, (l - 1) as nat);
        assert(k + l - 1 == k + (l - 1) as nat);
    }
}

/// The trail `route` from `a` goes up `i` edges towards the root and then
/// down to its end, by another branch than it came up.
spec fn is_turn(
    e: Seq<(usize, usize, u64)>,
    t: Rooted,
    dist: Seq<u64>,
    a: int,
    route: Seq<int>,
    i: nat,
) -> bool {
    let b = end_of(e, a, route);
    let j = (route.len() - i) as nat;
    &&& 0 <= b < dist.len()
    &&& i <= route.len()
    &&& i <= t.depth[a]
    &&& j <= t.depth[b]
    &&& anc(t, a, i) == anc(t, b, j)
    &&& weight(e, route) == dist[a] + dist[b] - 2 * dist[anc(t, a, i)]
    &&& j >= 1 ==> route.last() == t.via[b]
    &&& i >= 1 && j == 0 ==> route.last() == t.via[anc(t, a, (i - 1) as nat)]
    &&& i >= 1 && j >= 1 ==> anc(t, a, (i - 1) as nat) != anc(t, b, (j - 1) as nat)
}

/// In a tree, every trail goes up towards the root and then down.
proof fn lemma_trail(
    e: Seq<(usize, usize, u64)>,
    t: Rooted,
    dist: Seq<u64>,
    a: int,
    route: Seq<int>,
) -> (i: nat)
    requires
        is_rooted(e, t, dist),
        0 <= a < dist.len(),
        is_trail(e, a, route),
    ensures
        is_turn(e, t, dist, a, route, i),
    decreases route.len(),
{
    if route.len() == 0 {
        0
    } else {
        let prev = route.drop_last();
        let k = route.last();
        assert(prev.no_duplicates());
        let i = lemma_trail(e, t, dist, a, prev);
        let b = end_of(e, a, prev);
        let j = (prev.len() - i) as nat;
        assert(is_below(t, dist, k));
        let x = t.below[k];
        assert(is_hung(e, t, dist, x));
        if b == x {
            if j >= 1 {
                assert(route[route.len() - 2] == prev.last());
                assert(route[route.len() - 2] == route[route.len() - 1]);
                assert(false);
            }
            assert(anc(t, b, 0) == b);
            assert(end_of(e, a, route) == t.parent[x]);
            lemma_anc(e, t, dist, a, i);
            assert(anc(t, a, i + 1) == t.parent[anc(t, a, i)]);
            assert(anc(t, t.parent[x], 0) == t.parent[x]);
            i + 1
        } else {
            assert(b == t.parent[x]);
            assert(end_of(e, a, route) == x);
            assert(anc(t, x, 0) == x);
            assert(anc(t, x, 1) == t.parent[anc(t, x, 0)]);
            lemma_anc_sum(t, x, 1, j);
            if i >= 1 {
                if j == 0 {
                    if anc(t, a, (i - 1) as nat) == x {
                        assert(route[route.len() - 2] == prev.last());
                        assert(route[route.len() - 2] == route[route.len() - 1]);
                        assert(false);
                    }
                } else {
                    lemma_anc_sum(t, x, 1, (j - 1) as nat);
                }
            }
            i
        }
    }
}

/// The vertex at which a trail turns is the deepest of the vertices that
/// are above both of its ends.
proof fn lemma_deepest(
    e: Seq<(usize, usize, u64)>,
    t: Rooted,
    dist: Seq<u64>,
    a: int,
    b: int,
    i: nat,
    j: nat,
    s: nat,
    r: nat,
)
    requires
        is_rooted(e, t, dist),
        0 <= a < dist.len(),
        0 <= b < dist.len(),
        i <= t.depth[a],
        j <= t.depth[b],
        anc(t, a, i) == anc(t, b, j),
        i >= 1 && j >= 1 ==> anc(t, a, (i - 1) as nat) != anc(t, b, (j - 1) as nat),
        s <= t.depth[a],
        r <= t.depth[b],
        anc(t, a, s) == anc(t, b, r),
    ensures
        s >= i,
        r >= j,
{
    lemma_anc(e, t, dist, a, i);
    lemma_anc(e, t, dist, b, j);
    lemma_anc(e, t, dist, a, s);
    lemma_anc(e, t, dist, b, r);
    if s < i {
        lemma_anc_sum(t, a, s, (i - 1 - s) as nat);
        lemma_anc_sum(t, b, r, (j - 1 - r) as nat);
        assert(s + (i - 1 - s) as nat == i - 1);
        assert(r + (j - 1 - r) as nat == j - 1);
    }
}

/// Where `p` is a vertex farthest from the root of a tree, and `far` holds
/// the weights of trails from `p` to each vertex, no trail weighs more than
/// all of those.
proof fn lemma_farthest(
    e: Seq<(usize, usize, u64)>,
    t: Rooted,
    dist: Seq<u64>,
    p: int,
    far: Seq<u64>,
    routes: Seq<Seq<int>>,
    start: int,
    route: Seq<int>,
) -> (v: int)
    requires
        is_edge_list(e, dist.len()),
        is_rooted(e, t, dist),
        0 <= p < dist.len(),
        forall|v: int| 0 <= v < dist.len() ==> dist[v] <= dist[p],
        far.len() == dist.len(),
        routes.len() == dist.len(),
        forall|v: int|
            0 <= v < dist.len() ==> is_trail(e, p, #[trigger] routes[v]) && end_of(e, p, routes[v])
                == v && weight(e, routes[v]) == far[v],
        is_trail(e, start, route),
    ensures
        0 <= v < far.len(),
        weight(e, route) <= far[v],
{
    if route.len() == 0 {
        return p;
    }
    lemma_start(e, dist.len(), start, route);
    let a = start;
    let i1 = lemma_trail(e, t, dist, a, route);
    let b = end_of(e, a, route);
    let j1 = (route.len() - i1) as nat;
    let c = anc(t, a, i1);
    let i2 = lemma_trail(e, t, dist, p, routes[a]);
    let j2 = (routes[a].len() - i2) as nat;
    let i3 = lemma_trail(e, t, dist, p, routes[b]);
    let j3 = (routes[b].len() - i3) as nat;
    lemma_anc(e, t, dist, a, i1);
    lemma_anc(e, t, dist, b, j1);
    lemma_anc(e, t, dist, p, i2);
    lemma_anc(e, t, dist, a, j2);
    lemma_anc(e, t, dist, p, i3);
    lemma_anc(e, t, dist, b, j3);
    if j2 >= i1 {
        lemma_anc_sum(t, a, i1, (j2 - i1) as nat);
        lemma_anc(e, t, dist, c, (j2 - i1) as nat);
        a
    } else if j3 >= j1 {
        lemma_anc_sum(t, b, j1, (j3 - j1) as nat);
        lemma_anc(e, t, dist, c, (j3 - j1) as nat);
        b
    } else {
        if i2 >= i3 {
            lemma_anc_sum(t, p, i3, (i2 - i3) as nat);
            lemma_anc_sum(t, b, j3, (i2 - i3) as nat);
            lemma_deepest(e, t, dist, a, b, i1, j1, j2, j3 + (i2 - i3) as nat);
        } else {
            lemma_anc_sum(t, p, i2, (i3 - i2) as nat);
            lemma_anc_sum(t, a, j2, (i3 - i2) as nat);
            lemma_deepest(e, t, dist, a, b, i1, j1, j2 + (i3 - i2) as nat, j3);
        }
        p
    }
}

/// The number of vertices that a traversal has not reached.
pub open spec fn left_to_reach(dist: Seq<u64>) -> nat
    decreases dist.len(),
{
    if dist.len() == 0 {
        0
    } else {
        left_to_reach(dist.drop_last()) + if dist.last() == UNREACHED {
            1nat
        } else {
            0nat
        }
    }
}

/// Reaching one more vertex leaves one vertex less to reach.
proof fn lemma_reach(dist: Seq<u64>, v: int, d: u64)
    requires
        0 <= v < dist.len(),
        dist[v] == UNREACHED,
        d != UNREACHED,
    ensures
        left_to_reach(dist.update(v, d)) + 1 == left_to_reach(dist),
    decreases dist.len(),
{
    if v < dist.len() - 1 {
        lemma_reach(dist.drop_last(), v, d);
        assert(dist.update(v, d).drop_last() =~= dist.drop_last().update(v, d));
    } else {
        assert(dist.update(v, d).drop_last() =~= dist.drop_last());
    }
}

/// Where a vertex has not been reached, there is a vertex left to reach.
proof fn lemma_left_to_reach_positive(dist: Seq<u64>, v: int)
    requires
        0 <= v < dist.len(),
        dist[v] == UNREACHED,
    ensures
        left_to_reach(dist) >= 1,
    decreases dist.len(),
{
    if v < dist.len() - 1 {
        lemma_left_to_reach_positive(dist.drop_last(), v);
    }
}

/// There are no more vertices left to reach than there are vertices, and
/// none where all have been reached.
proof fn lemma_left_to_reach_bound(dist: Seq<u64>)
    ensures
        left_to_reach(dist) <= dist.len(),
        (forall|v: int| 0 <= v < dist.len() ==> dist[v] != UNREACHED) ==> left_to_reach(dist) == 0,
    decreases dist.len(),
{
    if dist.len() > 0 {
        lemma_left_to_reach_bound(dist.drop_last());
        if forall|v: int| 0 <= v < dist.len() ==> dist[v] != UNREACHED {
            assert forall|v: int| 0 <= v < dist.drop_last().len() implies dist.drop_last()[v]
                != UNREACHED by {
                assert(dist[v] != UNREACHED);
            }
        }
    }
}

/// The number of edges that `used` marks.
spec fn marked(used: Seq<bool>) -> nat
    decreases used.len(),
{
    if used.len() == 0 {
        0
    } else {
        marked(used.drop_last()) + if used.last() {
            1nat
        } else {
            0nat
        }
    }
}

/// Where no edge is marked, the number of marked edges is zero.
proof fn lemma_marked_none(m: nat)
    ensures
        marked(Seq::new(m, |k: int| false)) == 0,
    decreases m,
{
    if m > 0 {
        lemma_marked_none((m - 1) as nat);
        assert(Seq::new(m, |k: int| false).drop_last() =~= Seq::new((m - 1) as nat, |k: int| false));
    }
}

/// Marking one more edge makes one marked edge more.
proof fn lemma_mark(used: Seq<bool>, k: int)
    requires
        0 <= k < used.len(),
        !used[k],
    ensures
        marked(used.update(k, true)) == marked(used) + 1,
    decreases used.len(),
{
    if k < used.len() - 1 {
        lemma_mark(used.drop_last(), k);
        assert(used.update(k, true).drop_last() =~= used.drop_last().update(k, true));
    } else {
        assert(used.update(k, true).drop_last() =~= used.drop_last());
    }
}

/// No more edges are marked than there are edges, and where as many are
/// marked, all are.
proof fn lemma_marked_bound(used: Seq<bool>)
    ensures
        marked(used) <= used.len(),
        marked(used) == used.len() ==> forall|k: int| 0 <= k < used.len() ==> used[k],
    decreases used.len(),
{
    if used.len() > 0 {
        lemma_marked_bound(used.drop_last());
        if marked(used) == used.len() {
            assert forall|k: int| 0 <= k < used.len() implies used[k] by {
                if k < used.len() - 1 {
                    assert(used.drop_last()[k]);
                }
            }
        }
    }
}

/// Of the two ends of every edge, both have been reached or none.
spec fn is_closed(e: Seq<(usize, usize, u64)>, dist: Seq<u64>) -> bool {
    forall|k: int|
        0 <= k < e.len() ==> (dist[(#[trigger] e[k]).0 as int] != UNREACHED) == (dist[e[k].1 as int]
            != UNREACHED)
}

/// Where of the two ends of every edge, both have been reached or none,
/// the same holds of the two ends of every route.
proof fn lemma_closed_route(
    e: Seq<(usize, usize, u64)>,
    dist: Seq<u64>,
    start: int,
    route: Seq<int>,
)
    requires
        is_edge_list(e, dist.len()),
        is_closed(e, dist),
        0 <= start < dist.len(),
        is_route(e, start, route),
    ensures
        0 <= end_of(e, start, route) < dist.len(),
        (dist[start] != UNREACHED) == (dist[end_of(e, start, route)] != UNREACHED),
    decreases route.len(),
{
    if route.len() > 0 {
        lemma_closed_route(e, dist, start, route.drop_last());
    }
}

/// A tree whose vertices are all the vertices, where there is one vertex
/// more than there are edges, has all the edges.
proof fn lemma_spanning(e: Seq<(usize, usize, u64)>, t: Rooted, dist: Seq<u64>, used: Seq<bool>)
    requires
        is_partial(e, t, dist, used),
        dist.len() == e.len() + 1,
        marked(used) + 1 + left_to_reach(dist) == dist.len(),
        forall|v: int| 0 <= v < dist.len() ==> dist[v] != UNREACHED,
    ensures
        is_rooted(e, t, dist),
{
    lemma_left_to_reach_bound(dist);
    lemma_marked_bound(used);
    assert forall|v: int| 0 <= v < dist.len() && v != t.root implies #[trigger] is_hung(
        e,
        t,
        dist,
        v,
    ) by {}
    assert forall|k: int| 0 <= k < e.len() implies #[trigger] is_below(t, dist, k) by {
        assert(used[k]);
    }
}

/// `route` is a trail from `root` to `v` of the weight `d`, of edges that
/// `used` marks, fewer than `reached`.
spec fn is_way(
    e: Seq<(usize, usize, u64)>,
    root: int,
    v: int,
    d: u64,
    route: Seq<int>,
    used: Seq<bool>,
    reached: nat,
) -> bool {
    &&& is_trail(e, root, route)
    &&& end_of(e, root, route) == v
    &&& weight(e, route) == d
    &&& route.len() + 1 <= reached
    &&& forall|x: int| 0 <= x < route.len() ==> 0 <= #[trigger] route[x] < used.len() && used[route[x]]
}

/// The neighbours of each vertex, each with the weight of the edge to it.
struct Adjacency {
    /// For each vertex, its neighbours and the weights of the edges.
    lists: Vec<Vec<(usize, u64)>>,
    /// For each entry of `lists`, the index of the edge that it is from.
    origin: Ghost<Seq<Seq<int>>>,
}

impl Adjacency {
    /// The entry `x` of the list of vertex `i` is from an edge of `e` that
    /// joins `i` and the neighbour, and has the weight of that edge.
    spec fn is_entry(&self, e: Seq<(usize, usize, u64)>, i: int, x: int) -> bool {
        let (j, w) = self.lists@[i]@[x];
        let k = self.origin@[i][x];
        &&& 0 <= k < e.len()
        &&& w == e[k].2
        &&& j < self.lists@.len()
        &&& joins(e[k], i, j as int)
    }

    /// The list of vertex `i` has an entry for the neighbour `j`.
    spec fn has_entry(&self, i: int, j: int) -> bool {
        exists|x: int| 0 <= x < self.lists@[i]@.len() && (#[trigger] self.lists@[i]@[x]).0 == j
    }

    /// The list of each end of the edge `k` has an entry for the other end.
    spec fn is_listed(&self, e: Seq<(usize, usize, u64)>, k: int) -> bool {
        self.has_entry(e[k].0 as int, e[k].1 as int) && self.has_entry(
            e[k].1 as int,
            e[k].0 as int,
        )
    }

    /// The lists hold the edges of `e` among `n` vertices.
    spec fn wf(&self, e: Seq<(usize, usize, u64)>, n: nat) -> bool {
        &&& is_edge_list(e, n)
        &&& self.lists@.len() == n
        &&& self.origin@.len() == n
        &&& forall|i: int| 0 <= i < n ==> (#[trigger] self.lists@[i])@.len() == self.origin@[i].len()
        &&& forall|i: int, x: int|
            0 <= i < n && 0 <= x < self.lists@[i]@.len() ==> #[trigger] self.is_entry(e, i, x)
        &&& forall|k: int| 0 <= k < e.len() ==> #[trigger] self.is_listed(e, k)
    }

    /// All the neighbours of the vertex `v` have been reached.
    spec fn is_finished(&self, dist: Seq<u64>, v: int) -> bool {
        forall|x: int|
            0 <= x < self.lists@[v]@.len() ==> dist[(#[trigger] self.lists@[v]@[x]).0 as int]
                != UNREACHED
    }

    /// The vertex `v` is on the stack of the traversal, or all its
    /// neighbours have been reached.
    spec fn is_explored(&self, dist: Seq<u64>, stack: Seq<usize>, v: int) -> bool {
        (exists|y: int| 0 <= y < stack.len() && stack[y] == v) || self.is_finished(dist, v)
    }

    /// When the traversal ends, of the two ends of every edge, both have
    /// been reached or none.
    proof fn lemma_closed(&self, e: Seq<(usize, usize, u64)>, dist: Seq<u64>)
        requires
            self.wf(e, dist.len()),
            forall|v: int|
                0 <= v < dist.len() && dist[v] != UNREACHED ==> #[trigger] self.is_explored(
                    dist,
                    Seq::<usize>::empty(),
                    v,
                ),
        ensures
            is_closed(e, dist),
    {
        assert forall|k: int| 0 <= k < e.len() implies (dist[(#[trigger] e[k]).0 as int]
            != UNREACHED) == (dist[e[k].1 as int] != UNREACHED) by {
            let (u, v) = (e[k].0 as int, e[k].1 as int);
            assert(self.is_listed(e, k));
            if dist[u] != UNREACHED {
                assert(self.is_explored(dist, Seq::<usize>::empty(), u));
                let x = choose|x: int|
                    0 <= x < self.lists@[u]@.len() && (#[trigger] self.lists@[u]@[x]).0 == v;
                assert(dist[self.lists@[u]@[x].0 as int] != UNREACHED);
            }
            if dist[v] != UNREACHED {
                assert(self.is_explored(dist, Seq::<usize>::empty(), v));
                let x = choose|x: int|
                    0 <= x < self.lists@[v]@.len() && (#[trigger] self.lists@[v]@[x]).0 == u;
                assert(dist[self.lists@[v]@[x].0 as int] != UNREACHED);
            }
        }
    }

    /// Builds the lists of neighbours from the edges.
    fn build(n: usize, e: &Vec<(usize, usize, u64)>) -> (graph: Self)
        requires
            is_edge_list(e@, n as nat),
        ensures
            graph.wf(e@, n as nat),
    {
        let mut lists: Vec<Vec<(usize, u64)>> = Vec::with_capacity(n);
        let mut i: usize = 0;
        while i < n
            invariant
                i <= n,
                lists@.len() == i,
                forall|j: int| 0 <= j < i ==> (#[trigger] lists@[j])@.len() == 0,
            decreases n - i,
        {
            lists.push(Vec::new());
            i += 1;
        }
        let mut graph = Adjacency {
            lists,
            origin: Ghost(Seq::new(n as nat, |i: int| Seq::<int>::empty())),
        };
        let mut t: usize = 0;
        while t < e.len()
            invariant
                t <= e@.len(),
                is_edge_list(e@, n as nat),
                graph.wf(e@.subrange(0, t as int), n as nat),
            decreases e@.len() - t,
        {
            let (u, v, d) = e[t];
            let ghost before = graph;
            graph.lists[u].push((v, d));
            proof {
                graph.origin@ = graph.origin@.update(u as int, graph.origin@[u as int].push(t as int));
            }
            let ghost between = graph;
            graph.lists[v].push((u, d));
            proof {
                graph.origin@ = graph.origin@.update(v as int, graph.origin@[v as int].push(t as int));
                let earlier = e@.subrange(0, t as int);
                let part = e@.subrange(0, t + 1);
                assert(part[t as int] == e@[t as int]);
                assert forall|i: int, x: int|
                    0 <= i < n && 0 <= x < before.lists@[i]@.len() implies graph.lists@[i]@[x]
                    == before.lists@[i]@[x] && graph.origin@[i][x] == before.origin@[i][x] by {
                    assert(between.lists@[i]@[x] == before.lists@[i]@[x]);
                }
                assert forall|i: int, x: int|
                    0 <= i < n && 0 <= x < graph.lists@[i]@.len() implies #[trigger] graph.is_entry(
                    part,
                    i,
                    x,
                ) by {
                    if x < before.lists@[i]@.len() {
                        assert(before.is_entry(earlier, i, x));
                    }
                }
                assert forall|i: int, j: int| 0 <= i < n && before.has_entry(i, j) implies graph.has_entry(
                    i,
                    j,
                ) by {
                    let x = choose|x: int|
                        0 <= x < before.lists@[i]@.len() && (#[trigger] before.lists@[i]@[x]).0 == j;
                    assert(graph.lists@[i]@[x].0 == j);
                }
                assert forall|k: int| 0 <= k < part.len() implies #[trigger] graph.is_listed(
                    part,
                    k,
                ) by {
                    if k < t {
                        assert(before.is_listed(earlier, k));
                        assert(part[k] == earlier[k]);
                    } else {
                        let x = before.lists@[u as int]@.len() as int;
                        assert(between.lists@[u as int]@[x].0 == v);
                        assert(graph.lists@[u as int]@[x].0 == v);
                        let y = between.lists@[v as int]@.len() as int;
                        assert(graph.lists@[v as int]@[y].0 == u);
                    }
                }
            }
            t += 1;
        }
        proof {
            assert(e@.subrange(0, e@.len() as int) =~= e@);
        }
        graph
    }

    /// Returns, for each vertex, the weight of the trail by which a depth
    /// first traversal from `root` reaches it, and [`UNREACHED`] where it
    /// does not; with them the tree that the traversal makes, and the
    /// trails.
    fn distances(&self, root: usize, Ghost(e): Ghost<Seq<(usize, usize, u64)>>, Ghost(limit): Ghost<
        nat,
    >) -> (found: (Vec<u64>, Ghost<Rooted>, Ghost<Seq<Seq<int>>>))
        requires
            self.wf(e, self.lists@.len()),
            root < self.lists@.len(),
            is_bounded(e, limit),
            limit * (self.lists@.len() - 1) < UNREACHED,
        ensures
            found.0@.len() == self.lists@.len(),
            found.2@.len() == self.lists@.len(),
            found.0@[root as int] == 0,
            forall|v: int|
                0 <= v < found.0@.len() && found.0@[v] != UNREACHED ==> is_trail(
                    e,
                    root as int,
                    #[trigger] found.2@[v],
                ) && end_of(e, root as int, found.2@[v]) == v && weight(e, found.2@[v])
                    == found.0@[v],
            forall|v: int|
                0 <= v < found.0@.len() && found.0@[v] != UNREACHED ==> #[trigger] found.0@[v]
                    <= limit * (self.lists@.len() - 1),
            self.lists@.len() == e.len() + 1 && is_connected(e, self.lists@.len() as nat)
                ==> is_rooted(e, found.1@, found.0@),
    {
        let n = self.lists.len();
        let mut dist: Vec<u64> = Vec::with_capacity(n);
        let mut i: usize = 0;
        while i < n
            invariant
                i <= n,
                dist@.len() == i,
                forall|v: int| 0 <= v < i ==> dist@[v] == UNREACHED,
                left_to_reach(dist@) == i,
            decreases n - i,
        {
            let ghost before = dist@;
            dist.push(UNREACHED);
            proof {
                assert(dist@.drop_last() =~= before);
            }
            i += 1;
        }
        let ghost blank = dist@;
        dist[root] = 0;
        let mut stack: Vec<usize> = Vec::new();
        stack.push(root);
        let ghost mut routes: Seq<Seq<int>> = Seq::new(n as nat, |v: int| Seq::<int>::empty());
        let ghost mut reached: nat = 1;
        let ghost mut used: Seq<bool> = Seq::new(e.len(), |k: int| false);
        let ghost mut tree = Rooted {
            root: root as int,
            parent: Seq::new(n as nat, |v: int| 0int),
            via: Seq::new(n as nat, |v: int| 0int),
            depth: Seq::new(n as nat, |v: int| 0nat),
            below: Seq::new(e.len(), |k: int| 0int),
        };
        proof {
            lemma_reach(blank, root as int, 0);
            assert(dist@ =~= blank.update(root as int, 0));
            assert(limit * 0 == 0) by (nonlinear_arith);
            lemma_marked_none(e.len());
            assert(stack@[0] == root);
            assert(self.is_explored(dist@, stack@, root as int));
        }
        while stack.len() > 0
            invariant
                n == self.lists@.len() == dist@.len() == routes.len(),
                self.wf(e, n as nat),
                root < n,
                is_bounded(e, limit),
                limit * (n - 1) < UNREACHED,
                dist@[root as int] == 0,
                1 <= reached,
                reached + left_to_reach(dist@) == n,
                marked(used) + 1 == reached,
                tree.root == root,
                is_partial(e, tree, dist@, used),
                forall|k: int| 0 <= k < stack@.len() ==> #[trigger] stack@[k] < n && dist@[stack@[k] as int]
                    != UNREACHED,
                forall|v: int|
                    0 <= v < n && dist@[v] != UNREACHED ==> is_way(
                        e,
                        root as int,
                        v,
                        dist@[v],
                        #[trigger] routes[v],
                        used,
                        reached,
                    ),
                forall|v: int|
                    0 <= v < n && dist@[v] != UNREACHED ==> #[trigger] self.is_explored(
                        dist@,
                        stack@,
                        v,
                    ),
            decreases stack@.len() + 2 * left_to_reach(dist@),
        {
            let ghost stack0 = stack@;
            let i = stack.pop().unwrap();
            let ghost budget = stack@.len() + 2 * left_to_reach(dist@);
            proof {
                assert forall|v: int|
                    0 <= v < n && dist@[v] != UNREACHED && v != i implies #[trigger] self.is_explored(
                    dist@,
                    stack@,
                    v,
                ) by {
                    assert(self.is_explored(dist@, stack0, v));
                    if exists|y: int| 0 <= y < stack0.len() && stack0[y] == v {
                        let y = choose|y: int| 0 <= y < stack0.len() && stack0[y] == v;
                        assert(stack@[y] == v);
                    }
                }
            }
            let mut x: usize = 0;
            while x < self.lists[i].len()
                invariant
                    n == self.lists@.len() == dist@.len() == routes.len(),
                    self.wf(e, n as nat),
                    root < n,
                    i < n,
                    dist@[i as int] != UNREACHED,
                    x <= self.lists@[i as int]@.len(),
                    is_bounded(e, limit),
                    limit * (n - 1) < UNREACHED,
                    dist@[root as int] == 0,
                    1 <= reached,
                    reached + left_to_reach(dist@) == n,
                    marked(used) + 1 == reached,
                    tree.root == root,
                    is_partial(e, tree, dist@, used),
                    forall|k: int| 0 <= k < stack@.len() ==> #[trigger] stack@[k] < n && dist@[stack@[k] as int]
                        != UNREACHED,
                    forall|v: int|
                        0 <= v < n && dist@[v] != UNREACHED ==> is_way(
                            e,
                            root as int,
                            v,
                            dist@[v],
                            #[trigger] routes[v],
                            used,
                            reached,
                        ),
                    forall|v: int|
                        0 <= v < n && dist@[v] != UNREACHED && v != i ==> #[trigger] self.is_explored(
                            dist@,
                            stack@,
                            v,
                        ),
                    forall|y: int|
                        0 <= y < x ==> dist@[(#[trigger] self.lists@[i as int]@[y]).0 as int]
                            != UNREACHED,
                    stack@.len() + 2 * left_to_reach(dist@) <= budget,
                decreases self.lists@[i as int]@.len() - x,
            {
                let (j, d) = self.lists[i][x];
                proof {
                    assert(self.is_entry(e, i as int, x as int));
                }
                if dist[j] == UNREACHED {
                    let ghost k = self.origin@[i as int][x as int];
                    let ghost route = routes[i as int].push(k);
                    let ghost (dist0, used0, stack1, routes0) = (dist@, used, stack@, routes);
                    proof {
                        assert(route.drop_last() =~= routes[i as int]);
                        assert(is_way(e, root as int, i as int, dist0[i as int], routes0[i as int], used0, reached));
                        lemma_weight_bound(e, root as int, route, limit);
                        lemma_left_to_reach_positive(dist@, j as int);
                        assert(route.len() * limit <= (n - 1) * limit) by (nonlinear_arith)
                            requires
                                route.len() <= n - 1,
                        ;
                        assert((n - 1) * limit == limit * (n - 1)) by (nonlinear_arith);
                    }
                    dist[j] = dist[i] + d;
                    stack.push(j);
                    proof {
                        lemma_reach(dist0, j as int, dist@[j as int]);
                        assert(dist@ =~= dist0.update(j as int, dist@[j as int]));
                        lemma_hang(e, tree, dist0, used0, i as int, j as int, k, dist@[j as int]);
                        lemma_mark(used0, k);
                        tree = hung(tree, i as int, j as int, k);
                        used = used0.update(k, true);
                        routes = routes0.update(j as int, route);
                        reached = reached + 1;
                        assert forall|v: int| 0 <= v < n && dist@[v] != UNREACHED implies is_way(
                            e,
                            root as int,
                            v,
                            dist@[v],
                            #[trigger] routes[v],
                            used,
                            reached,
                        ) by {
                            if v != j {
                                assert(is_way(e, root as int, v, dist0[v], routes0[v], used0, (reached - 1) as nat));
                            }
                        }
                        assert(stack@[stack1.len() as int] == j);
                        assert forall|v: int|
                            0 <= v < n && dist@[v] != UNREACHED && v != i implies #[trigger] self.is_explored(
                            dist@,
                            stack@,
                            v,
                        ) by {
                            if v != j {
                                assert(self.is_explored(dist0, stack1, v));
                                if exists|y: int| 0 <= y < stack1.len() && stack1[y] == v {
                                    let y = choose|y: int| 0 <= y < stack1.len() && stack1[y] == v;
                                    assert(stack@[y] == v);
                                } else {
                                    assert forall|y: int|
                                        0 <= y < self.lists@[v]@.len() implies dist@[(
                                    #[trigger] self.lists@[v]@[y]).0 as int] != UNREACHED by {
                                        assert(self.is_entry(e, v, y));
                                    }
                                }
                            }
                        }
                    }
                }
                proof {
                    assert forall|y: int| 0 <= y < x + 1 implies dist@[(
                    #[trigger] self.lists@[i as int]@[y]).0 as int] != UNREACHED by {
                        assert(self.is_entry(e, i as int, y));
                    }
                }
                x += 1;
            }
            proof {
                assert(self.is_finished(dist@, i as int));
            }
        }
        proof {
            assert forall|v: int| 0 <= v < dist@.len() && dist@[v] != UNREACHED implies #[trigger] dist@[v]
                <= limit * (n - 1) by {
                assert(is_way(e, root as int, v, dist@[v], routes[v], used, reached));
                lemma_weight_bound(e, root as int, routes[v], limit);
                lemma_left_to_reach_bound(dist@);
                assert(routes[v].len() * limit <= (n - 1) * limit) by (nonlinear_arith)
                    requires
                        routes[v].len() <= n - 1,
                ;
                assert((n - 1) * limit == limit * (n - 1)) by (nonlinear_arith);
            }
            if n == e.len() + 1 && is_connected(e, n as nat) {
                assert(stack@ =~= Seq::<usize>::empty());
                self.lemma_closed(e, dist@);
                assert(is_linked(e, 0, root as int));
                let way = choose|route: Seq<int>| #[trigger]
                    is_route(e, 0, route) && end_of(e, 0, route) == root;
                lemma_closed_route(e, dist@, 0, way);
                assert forall|v: int| 0 <= v < n implies dist@[v] != UNREACHED by {
                    assert(is_linked(e, 0, v));
                    let way = choose|route: Seq<int>| #[trigger]
                        is_route(e, 0, route) && end_of(e, 0, route) == v;
                    lemma_closed_route(e, dist@, 0, way);
                }
                lemma_spanning(e, tree, dist@, used);
            }
        }
        (dist, Ghost(tree), Ghost(routes))
    }

    /// Returns the weight of the longest of the trails by which a depth
    /// first traversal from vertex `0` reaches the vertices, and from the
    /// vertex that it reaches by the longest trail, or does not reach, the
    /// other vertices.
    fn longest(&self, Ghost(e): Ghost<Seq<(usize, usize, u64)>>, Ghost(limit): Ghost<nat>) -> (length:
        u64)
        requires
            self.wf(e, self.lists@.len()),
            self.lists@.len() >= 1,
            is_bounded(e, limit),
            limit * (self.lists@.len() - 1) < UNREACHED,
        ensures
            is_trail_weight(e, length as nat),
            length <= limit * (self.lists@.len() - 1),
            self.lists@.len() == e.len() + 1 && is_connected(e, self.lists@.len() as nat)
                ==> is_trail_bound(e, length as nat),
    {
        let n = self.lists.len();
        let (dist, tree, _) = self.distances(0, Ghost(e), Ghost(limit));
        let mut p: usize = 0;
        let mut mx: u64 = 0;
        let mut i: usize = 0;
        while i < n
            invariant
                i <= n,
                n == dist@.len(),
                p < n,
                mx == dist@[p as int],
                forall|v: int| 0 <= v < i ==> dist@[v] <= mx,
            decreases n - i,
        {
            let d = dist[i];
            if d > mx {
                p = i;
                mx = d;
            }
            i += 1;
        }
        let (far, _, routes) = self.distances(p, Ghost(e), Ghost(limit));
        // the largest distance of a vertex that has been reached
        let mut mx: u64 = 0;
        let ghost mut q = p as int;
        let mut i: usize = 0;
        while i < n
            invariant
                i <= n,
                n == far@.len(),
                0 <= q < n,
                far@[q] == mx,
                mx != UNREACHED,
                forall|v: int| 0 <= v < i && far@[v] != UNREACHED ==> far@[v] <= mx,
            decreases n - i,
        {
            let d = far[i];
            if d != UNREACHED && d > mx {
                mx = d;
                proof {
                    q = i as int;
                }
            }
            i += 1;
        }
        proof {
            assert(is_trail(e, p as int, routes@[q]));
            assert(far@[q] <= limit * (n - 1));
            if n == e.len() + 1 && is_connected(e, n as nat) {
                assert forall|start: int, route: Seq<int>| #[trigger]
                    is_trail(e, start, route) implies weight(e, route) <= mx by {
                    let v = lemma_farthest(e, tree@, dist@, p as int, far@, routes@, start, route);
                }
            }
        }
        mx
    }
}

/// Computes the length of a longest path of the tree by two traversals:
/// the first finds a vertex farthest from vertex `0`, the second the
/// distance from that vertex to a vertex farthest from it.
///
/// ## Parameters
///
/// - `n`: the number of vertices of the tree (indexed `0..n`)
/// - `e`: the edges `(u, v)` of the tree
///
/// ## Returns
///
/// The number of edges of a trail; where the graph is connected, and so a
/// tree, of a longest one: the diameter.
///
/// ## Complexity
///
/// `O(n)`
pub fn diameter(n: usize, e: &[(usize, usize)]) -> (length: usize)
    requires
        n == e@.len() + 1,
        is_edge_list(with_unit_weights(e@), n as nat),
    ensures
        length < n,
        is_trail_weight(with_unit_weights(e@), length as nat),
        is_connected(with_unit_weights(e@), n as nat) ==> is_trail_bound(
            with_unit_weights(e@),
            length as nat,
        ),
{
    let mut edges: Vec<(usize, usize, u64)> = Vec::with_capacity(e.len());
    let mut t: usize = 0;
    while t < e.len()
        invariant
            t <= e@.len(),
            edges@ == with_unit_weights(e@).subrange(0, t as int),
        decreases e@.len() - t,
    {
        edges.push((e[t].0, e[t].1, 1));
        proof {
            assert(edges@ =~= with_unit_weights(e@).subrange(0, t + 1));
        }
        t += 1;
    }
    proof {
        assert(with_unit_weights(e@).subrange(0, e@.len() as int) =~= with_unit_weights(e@));
        assert(1 * (n - 1) < UNREACHED);
    }
    let graph = Adjacency::build(n, &edges);
    let length = graph.longest(Ghost(edges@), Ghost(1));
    length as usize
}

/// Computes the weight of a longest path of the weighted tree by two
/// traversals: the first finds a vertex farthest from vertex `0`, the
/// second the distance from that vertex to a vertex farthest from it.
///
/// ## Parameters
///
/// - `n`: the number of vertices of the tree (indexed `0..n`)
/// - `e`: the edges `(u, v, w)` of the tree, `w` being the weight
///
/// ## Returns
///
/// The weight of a trail; where the graph is connected, and so a tree, of
/// a heaviest one: the diameter.
///
/// ## Complexity
///
/// `O(n)`
pub fn weighted_diameter(n: usize, e: &[(usize, usize, u64)]) -> (length: u64)
    requires
        n == e@.len() + 1,
        is_edge_list(e@, n as nat),
        exists|limit: nat| #[trigger] is_bounded(e@, limit) && limit * (n - 1) < UNREACHED,
    ensures
        is_trail_weight(e@, length as nat),
        is_connected(e@, n as nat) ==> is_trail_bound(e@, length as nat),
{
    let ghost limit = choose|limit: nat| #[trigger]
        is_bounded(e@, limit) && limit * (n - 1) < UNREACHED;
    let mut edges: Vec<(usize, usize, u64)> = Vec::with_capacity(e.len());
    let mut t: usize = 0;
    while t < e.len()
        invariant
            t <= e@.len(),
            edges@ == e@.subrange(0, t as int),
        decreases e@.len() - t,
    {
        edges.push(e[t]);
        proof {
            assert(edges@ =~= e@.subrange(0, t + 1));
        }
        t += 1;
    }
    proof {
        assert(e@.subrange(0, e@.len() as int) =~= e@);
    }
    let graph = Adjacency::build(n, &edges);
    graph.longest(Ghost(e@), Ghost(limit))
}

} // verus!
