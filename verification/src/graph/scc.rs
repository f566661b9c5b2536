//! Strongly Connected Components (SCC)
//!
//! ## Definition
//!
//! A directed graph is **strongly connected** if there is a path in each
//! direction between each pair of its vertices. The **strongly connected
//! components** of a directed graph are its maximal strongly connected
//! subgraphs; they partition the vertices.

use vstd::prelude::*;

verus! {

/// Both ends of every edge are among the `n` vertices.
pub open spec fn is_edge_list(e: Seq<(usize, usize)>, n: nat) -> bool {
    forall|i: int| 0 <= i < e.len() ==> (#[trigger] e[i]).0 < n && e[i].1 < n
}

/// The number of vertices that a traversal has yet to visit.
pub open spec fn unvisited(used: Seq<bool>) -> nat
    decreases used.len(),
{
    if used.len() == 0 {
        0
    } else {
        unvisited(used.drop_last()) + if used.last() {
            0nat
        } else {
            1nat
        }
    }
}

/// Every vertex visited at the time of `before` is visited at the time of
/// `after`.
pub open spec fn is_grown(before: Seq<bool>, after: Seq<bool>) -> bool {
    &&& before.len() == after.len()
    &&& forall|v: int| 0 <= v < before.len() && before[v] ==> after[v]
}

/// While a traversal goes on, no more vertices are left to visit than
/// before; fewer, when a vertex has been visited in between.
pub proof fn lemma_unvisited(before: Seq<bool>, after: Seq<bool>)
    requires
        is_grown(before, after),
    ensures
        unvisited(after) <= unvisited(before),
        (exists|v: int| 0 <= v < before.len() && !before[v] && after[v]) ==> unvisited(after)
            < unvisited(before),
    decreases before.len(),
{
    if before.len() > 0 {
        lemma_unvisited(before.drop_last(), after.drop_last());
        if exists|v: int| 0 <= v < before.len() && !before[v] && after[v] {
            let v = choose|v: int| 0 <= v < before.len() && !before[v] && after[v];
            if v < before.len() - 1 {
                assert(!before.drop_last()[v] && after.drop_last()[v]);
            }
        }
    }
}

/// `added` holds, each once, the vertices that a traversal visited
/// between the time of `before` and the time of `after`.
pub open spec fn is_visit(before: Seq<bool>, after: Seq<bool>, added: Seq<usize>) -> bool {
    &&& is_grown(before, after)
    &&& added.no_duplicates()
    &&& forall|k: int| 0 <= k < added.len() ==> #[trigger] added[k] < before.len()
    &&& forall|v: usize|
        v < before.len() ==> (#[trigger] added.contains(v) <==> (after[v as int] && !before[v as int]))
}

/// Two visits, one after the other, are one visit.
pub proof fn lemma_visit_chain(
    first: Seq<bool>,
    second: Seq<bool>,
    third: Seq<bool>,
    earlier: Seq<usize>,
    later: Seq<usize>,
)
    requires
        is_visit(first, second, earlier),
        is_visit(second, third, later),
    ensures
        is_visit(first, third, earlier + later),
{
    let all = earlier + later;
    assert forall|a: int, b: int| 0 <= a < all.len() && 0 <= b < all.len() && a != b implies all[a]
        != all[b] by {
        if a < earlier.len() && b >= earlier.len() {
            assert(earlier.contains(earlier[a]) && later.contains(later[b - earlier.len()]));
        }
        if b < earlier.len() && a >= earlier.len() {
            assert(earlier.contains(earlier[b]) && later.contains(later[a - earlier.len()]));
        }
    }
    assert forall|v: usize| v < first.len() implies (#[trigger] all.contains(v) <==> (third[v as int]
        && !first[v as int])) by {
        if all.contains(v) {
            let k = choose|k: int| 0 <= k < all.len() && all[k] == v;
            if k < earlier.len() {
                assert(earlier[k] == v);
                assert(earlier.contains(v));
            } else {
                assert(later[k - earlier.len()] == v);
                assert(later.contains(v));
            }
        }
        if third[v as int] && !first[v as int] {
            if second[v as int] {
                assert(earlier.contains(v));
                let k = choose|k: int| 0 <= k < earlier.len() && earlier[k] == v;
                assert(all[k] == v);
            } else {
                assert(later.contains(v));
                let k = choose|k: int| 0 <= k < later.len() && later[k] == v;
                assert(all[earlier.len() + k] == v);
            }
        }
    }
}

/// What `order` holds from position `from` on.
pub open spec fn added_since(order: Seq<usize>, from: int) -> Seq<usize> {
    order.subrange(from, order.len() as int)
}

/// There is an edge from `u` to `v`.
pub open spec fn has_edge(e: Seq<(usize, usize)>, u: int, v: int) -> bool {
    exists|t: int| 0 <= t < e.len() && (#[trigger] e[t]).0 == u && e[t].1 == v
}

/// `path` is a walk in the graph: a vertex, or some vertices with an edge
/// from each to the next.
pub open spec fn is_walk(e: Seq<(usize, usize)>, path: Seq<int>) -> bool {
    path.len() >= 1 && forall|i: int|
        0 <= i < path.len() - 1 ==> has_edge(e, #[trigger] path[i], path[i + 1])
}

/// There is a walk from `u` to `v`.
pub open spec fn reaches(e: Seq<(usize, usize)>, u: int, v: int) -> bool {
    exists|path: Seq<int>| #[trigger] is_walk(e, path) && path[0] == u && path[path.len() - 1] == v
}

/// Every vertex reaches itself.
pub proof fn lemma_reaches_itself(e: Seq<(usize, usize)>, u: int)
    ensures
        reaches(e, u, u),
{
    assert(is_walk(e, seq![u]));
}

/// A walk can be continued by an edge from its end.
pub proof fn lemma_reaches_then_edge(e: Seq<(usize, usize)>, u: int, v: int, w: int)
    requires
        reaches(e, u, v),
        has_edge(e, v, w),
    ensures
        reaches(e, u, w),
{
    let path = choose|path: Seq<int>| #[trigger]
        is_walk(e, path) && path[0] == u && path[path.len() - 1] == v;
    let longer = path.push(w);
    assert forall|i: int| 0 <= i < longer.len() - 1 implies has_edge(
        e,
        #[trigger] longer[i],
        longer[i + 1],
    ) by {
        if i < path.len() - 1 {
            assert(has_edge(e, path[i], path[i + 1]));
        }
    }
    assert(is_walk(e, longer));
}

/// A walk can be begun by an edge to its start.
pub proof fn lemma_edge_then_reaches(e: Seq<(usize, usize)>, u: int, v: int, w: int)
    requires
        has_edge(e, u, v),
        reaches(e, v, w),
    ensures
        reaches(e, u, w),
{
    let path = choose|path: Seq<int>| #[trigger]
        is_walk(e, path) && path[0] == v && path[path.len() - 1] == w;
    let longer = seq![u] + path;
    assert forall|i: int| 0 <= i < longer.len() - 1 implies has_edge(
        e,
        #[trigger] longer[i],
        longer[i + 1],
    ) by {
        if i >= 1 {
            assert(has_edge(e, path[i - 1], path[i - 1 + 1]));
        }
    }
    assert(is_walk(e, longer));
}

/// Two walks, the second from the end of the first, make one walk.
pub proof fn lemma_reaches_transitive(e: Seq<(usize, usize)>, u: int, v: int, w: int)
    requires
        reaches(e, u, v),
        reaches(e, v, w),
    ensures
        reaches(e, u, w),
{
    let first = choose|path: Seq<int>| #[trigger]
        is_walk(e, path) && path[0] == u && path[path.len() - 1] == v;
    let second = choose|path: Seq<int>| #[trigger]
        is_walk(e, path) && path[0] == v && path[path.len() - 1] == w;
    let both = first + second.subrange(1, second.len() as int);
    assert forall|i: int| 0 <= i < both.len() - 1 implies has_edge(
        e,
        #[trigger] both[i],
        both[i + 1],
    ) by {
        if i < first.len() - 1 {
            assert(has_edge(e, first[i], first[i + 1]));
        } else {
            let k = i - (first.len() - 1);
            assert(has_edge(e, second[k], second[k + 1]));
        }
    }
    assert(is_walk(e, both));
}

/// `graph` holds, for each of `n` vertices, the vertices that the edges
/// from it lead to; or, for `reversed`, the vertices that the edges to it
/// come from.
pub open spec fn is_adjacency_of(
    graph: Seq<Vec<usize>>,
    e: Seq<(usize, usize)>,
    n: nat,
    reversed: bool,
) -> bool {
    &&& graph.len() == n
    &&& forall|i: int, x: int|
        0 <= i < n && 0 <= x < graph[i]@.len() ==> #[trigger] graph[i]@[x] < n && if reversed {
            has_edge(e, graph[i]@[x] as int, i)
        } else {
            has_edge(e, i, graph[i]@[x] as int)
        }
    &&& forall|t: int|
        0 <= t < e.len() ==> if reversed {
            graph[(#[trigger] e[t]).1 as int]@.contains(e[t].0)
        } else {
            graph[e[t].0 as int]@.contains(e[t].1)
        }
}

/// The state of the first traversal, which finds the order in which the
/// visits of the vertices end.
pub struct Search {
    /// For each vertex whose visit has ended, its position in the order;
    /// `-1` for the others.
    pub pos: Seq<int>,
    /// For each vertex whose visit has begun, the number of visits that had
    /// ended when it began.
    pub lo: Seq<int>,
    /// For each vertex, whether its visit has begun and not ended.
    pub active: Seq<bool>,
}

/// The edge from `v`, a vertex whose visit has ended, to `y` is accounted
/// for: the visit of `y` ended before that of `v`, or began before it and
/// has not ended or ended after it.
pub open spec fn is_settled(g: Search, v: int, y: int) -> bool {
    (0 <= g.pos[y] <= g.pos[v]) || (g.lo[y] <= g.lo[v] && (g.active[y] || g.pos[y] >= g.pos[v]))
}

/// What the state of the traversal says of the vertex `v`.
///
/// A vertex has been visited where its visit has ended or is going on.
/// Where its visit has ended, it reaches the vertices whose visits ended
/// between the beginning and the end of its own, and the edges from it
/// are accounted for. Where its visit is going on, it reaches the vertices
/// whose visits have ended since its own began.
pub open spec fn is_vertex_ok(
    e: Seq<(usize, usize)>,
    used: Seq<bool>,
    order: Seq<usize>,
    g: Search,
    v: int,
) -> bool {
    &&& -1 <= g.pos[v] < order.len()
    &&& used[v] == (g.pos[v] >= 0 || g.active[v])
    &&& g.pos[v] >= 0 ==> {
        &&& order[g.pos[v]] == v
        &&& !g.active[v]
        &&& 0 <= g.lo[v] <= g.pos[v]
        &&& forall|q: int| g.lo[v] <= q <= g.pos[v] ==> reaches(e, v, #[trigger] order[q] as int)
        &&& forall|y: int|
            0 <= y < used.len() && has_edge(e, v, y) ==> #[trigger] is_settled(g, v, y)
    }
    &&& g.active[v] ==> {
        &&& 0 <= g.lo[v] <= order.len()
        &&& forall|q: int| g.lo[v] <= q < order.len() ==> reaches(e, v, #[trigger] order[q] as int)
    }
}

/// The state `g` fits the vertices visited and the order of the visits
/// that have ended.
pub open spec fn is_search(
    e: Seq<(usize, usize)>,
    used: Seq<bool>,
    order: Seq<usize>,
    g: Search,
) -> bool {
    &&& g.pos.len() == used.len()
    &&& g.lo.len() == used.len()
    &&& g.active.len() == used.len()
    &&& forall|k: int|
        0 <= k < order.len() ==> (#[trigger] order[k]) < used.len() && g.pos[order[k] as int] == k
    &&& forall|v: int| 0 <= v < used.len() ==> #[trigger] is_vertex_ok(e, used, order, g, v)
}

/// The state after the visit of `i` has begun.
pub open spec fn begun(g: Search, i: int, at: int) -> Search {
    Search { pos: g.pos, lo: g.lo.update(i, at), active: g.active.update(i, true) }
}

/// The state after the visit of `i` has ended.
pub open spec fn ended(g: Search, i: int, at: int) -> Search {
    Search { pos: g.pos.update(i, at), lo: g.lo, active: g.active.update(i, false) }
}

/// The state fits when the visit of an unvisited vertex begins.
proof fn lemma_search_begins(
    e: Seq<(usize, usize)>,
    used: Seq<bool>,
    order: Seq<usize>,
    g: Search,
    i: int,
)
    requires
        is_search(e, used, order, g),
        0 <= i < used.len(),
        !used[i],
    ensures
        is_search(e, used.update(i, true), order, begun(g, i, order.len() as int)),
{
    let used2 = used.update(i, true);
    let g2 = begun(g, i, order.len() as int);
    assert(is_vertex_ok(e, used, order, g, i));
    assert forall|v: int| 0 <= v < used2.len() implies #[trigger] is_vertex_ok(
        e,
        used2,
        order,
        g2,
        v,
    ) by {
        assert(is_vertex_ok(e, used, order, g, v));
        if g.pos[v] >= 0 {
            assert forall|y: int| 0 <= y < used2.len() && has_edge(e, v, y) implies #[trigger] is_settled(
                g2,
                v,
                y,
            ) by {
                assert(is_settled(g, v, y));
            }
        }
    }
}

/// The state fits when the visit of a vertex ends, after the vertices
/// that the edges from it lead to have all been visited.
proof fn lemma_search_ends(
    e: Seq<(usize, usize)>,
    used: Seq<bool>,
    order: Seq<usize>,
    g: Search,
    at: usize,
)
    requires
        is_search(e, used, order, g),
        at < used.len(),
        g.active[at as int],
        g.pos[at as int] == -1,
        forall|y: int| 0 <= y < used.len() && has_edge(e, at as int, y) ==> used[y],
        forall|a: int|
            0 <= a < used.len() && g.active[a] && a != at ==> reaches(e, a, at as int) && g.lo[a]
                <= g.lo[at as int],
    ensures
        is_search(e, used, order.push(at), ended(g, at as int, order.len() as int)),
{
    let i = at as int;
    let p = order.len() as int;
    let order2 = order.push(at);
    let g2 = ended(g, i, p);
    assert(is_vertex_ok(e, used, order, g, i));
    assert forall|k: int| 0 <= k < order2.len() implies (#[trigger] order2[k]) < used.len()
        && g2.pos[order2[k] as int] == k by {
        if k < p {
            assert(order2[k] == order[k]);
            assert(g.pos[order[k] as int] == k);
        }
    }
    assert forall|v: int| 0 <= v < used.len() implies #[trigger] is_vertex_ok(
        e,
        used,
        order2,
        g2,
        v,
    ) by {
        assert(is_vertex_ok(e, used, order, g, v));
        if v == i {
            assert forall|q: int| g2.lo[v] <= q <= g2.pos[v] implies reaches(
                e,
                v,
                #[trigger] order2[q] as int,
            ) by {
                if q < p {
                    assert(order2[q] == order[q]);
                } else {
                    lemma_reaches_itself(e, v);
                }
            }
            assert forall|y: int| 0 <= y < used.len() && has_edge(e, v, y) implies #[trigger] is_settled(
                g2,
                v,
                y,
            ) by {
                assert(is_vertex_ok(e, used, order, g, y));
            }
        } else if g.pos[v] >= 0 {
            assert forall|q: int| g2.lo[v] <= q <= g2.pos[v] implies reaches(
                e,
                v,
                #[trigger] order2[q] as int,
            ) by {
                assert(order2[q] == order[q]);
            }
            assert forall|y: int| 0 <= y < used.len() && has_edge(e, v, y) implies #[trigger] is_settled(
                g2,
                v,
                y,
            ) by {
                assert(is_settled(g, v, y));
            }
        } else if g.active[v] {
            assert forall|q: int| g2.lo[v] <= q < order2.len() implies reaches(
                e,
                v,
                #[trigger] order2[q] as int,
            ) by {
                if q < p {
                    assert(order2[q] == order[q]);
                }
            }
        }
    }
}

/// Visits `i` and what can be reached from it over unvisited vertices,
/// depth first, and appends each vertex to `order` when its visit ends.
fn _kosaraju_dfs_finish(
    i: usize,
    graph: &Vec<Vec<usize>>,
    used: &mut Vec<bool>,
    order: &mut Vec<usize>,
    Ghost(e): Ghost<Seq<(usize, usize)>>,
    search: &mut Ghost<Search>,
)
    requires
        is_adjacency_of(graph@, e, old(used)@.len(), false),
        i < old(used)@.len(),
        !old(used)@[i as int],
        is_search(e, old(used)@, old(order)@, old(search)@),
        forall|a: int|
            0 <= a < old(used)@.len() && old(search)@.active[a] ==> reaches(e, a, i as int),
    ensures
        is_search(e, final(used)@, final(order)@, final(search)@),
        final(search)@.active == old(search)@.active,
        is_grown(old(used)@, final(used)@),
        final(used)@[i as int],
        final(order)@.len() > old(order)@.len(),
        final(order)@.subrange(0, old(order)@.len() as int) == old(order)@,
        forall|q: int|
            old(order)@.len() <= q < final(order)@.len() ==> reaches(
                e,
                i as int,
                #[trigger] final(order)@[q] as int,
            ),
        forall|v: int|
            0 <= v < old(used)@.len() && old(used)@[v] ==> final(search)@.pos[v] == old(
                search,
            )@.pos[v] && final(search)@.lo[v] == old(search)@.lo[v],
    decreases unvisited(old(used)@),
{
    let ghost n = old(used)@.len();
    let ghost start = old(order)@.len() as int;
    used[i] = true;
    proof {
        lemma_search_begins(e, old(used)@, order@, search@, i as int);
        assert(is_vertex_ok(e, old(used)@, old(order)@, old(search)@, i as int));
        assert forall|a: int| 0 <= a < n && old(search)@.active[a] implies old(search)@.lo[a]
            <= start by {
            assert(is_vertex_ok(e, old(used)@, old(order)@, old(search)@, a));
        }
        search@ = begun(search@, i as int, start);
        lemma_unvisited(old(used)@, used@);
        lemma_reaches_itself(e, i as int);
        assert(order@.subrange(0, start) =~= old(order)@);
    }
    let mut k: usize = 0;
    while k < graph[i].len()
        invariant
            is_adjacency_of(graph@, e, n, false),
            n == used@.len() == old(used)@.len(),
            i < n,
            k <= graph@[i as int]@.len(),
            start == old(order)@.len(),
            is_search(e, used@, order@, search@),
            search@.active == old(search)@.active.update(i as int, true),
            search@.pos[i as int] == -1,
            search@.lo[i as int] == start,
            is_grown(old(used)@, used@),
            used@[i as int],
            order@.len() >= start,
            order@.subrange(0, start) == old(order)@,
            unvisited(used@) < unvisited(old(used)@),
            forall|a: int| 0 <= a < n && search@.active[a] ==> reaches(e, a, i as int),
            forall|a: int| 0 <= a < n && old(search)@.active[a] ==> old(search)@.lo[a] <= start,
            forall|v: int|
                0 <= v < n && old(used)@[v] ==> search@.pos[v] == old(search)@.pos[v]
                    && search@.lo[v] == old(search)@.lo[v],
            forall|x: int| 0 <= x < k ==> used@[#[trigger] graph@[i as int]@[x] as int],
        decreases graph@[i as int]@.len() - k,
    {
        let j = graph[i][k];
        if !used[j] {
            let ghost (used0, order0, search0) = (used@, order@, search@);
            proof {
                assert forall|a: int| 0 <= a < n && search@.active[a] implies reaches(
                    e,
                    a,
                    j as int,
                ) by {
                    lemma_reaches_then_edge(e, a, i as int, j as int);
                }
            }
            _kosaraju_dfs_finish(j, graph, used, order, Ghost(e), search);
            proof {
                lemma_unvisited(used0, used@);
                assert(order@.subrange(0, start) =~= order0.subrange(0, start)) by {
                    assert forall|q: int| 0 <= q < start implies order@[q] == order0[q] by {
                        assert(order@.subrange(0, order0.len() as int)[q] == order0[q]);
                    }
                }
                assert forall|x: int| 0 <= x < k + 1 implies used@[#[trigger] graph@[i as int]@[x] as int] by {
                    if x < k {
                        assert(used0[graph@[i as int]@[x] as int]);
                    }
                }
                assert(is_vertex_ok(e, used0, order0, search0, i as int));
            }
        }
        k += 1;
    }
    proof {
        assert forall|y: int| 0 <= y < n && has_edge(e, i as int, y) implies used@[y] by {
            let t = choose|t: int| 0 <= t < e.len() && (#[trigger] e[t]).0 == i && e[t].1 == y;
            assert(graph@[e[t].0 as int]@.contains(e[t].1));
            let x = choose|x: int| 0 <= x < graph@[i as int]@.len() && graph@[i as int]@[x] == y;
            assert(used@[graph@[i as int]@[x] as int]);
        }
        assert forall|a: int| 0 <= a < n && search@.active[a] && a != i implies reaches(
            e,
            a,
            i as int,
        ) && search@.lo[a] <= search@.lo[i as int] by {
            assert(old(search)@.active[a]);
            assert(is_vertex_ok(e, old(used)@, old(order)@, old(search)@, a));
        }
        lemma_search_ends(e, used@, order@, search@, i);
        assert(is_vertex_ok(e, used@, order@, search@, i as int));
    }
    let ghost order0 = order@;
    order.push(i);
    proof {
        search@ = ended(search@, i as int, order0.len() as int);
        assert(search@.active =~= old(search)@.active);
        assert(order@.subrange(0, start) =~= order0.subrange(0, start));
        assert(is_vertex_ok(e, used@, order@, search@, i as int));
    }
}

/// Every visit has ended: the state of the traversal at its end.
pub open spec fn is_done(e: Seq<(usize, usize)>, used: Seq<bool>, order: Seq<usize>, g: Search) -> bool {
    &&& is_search(e, used, order, g)
    &&& forall|v: int| 0 <= v < used.len() ==> used[v] && !g.active[v]
}

/// After the traversal, a vertex `x` that reaches the start of a walk,
/// whose visit did not end after that of `x`, reaches a vertex that reaches
/// `x` and whose visit did not end before that of the end of the walk.
/// That vertex is returned.
///
/// So among the vertices that a vertex reaches, one whose visit ended last
/// reaches it too.
proof fn lemma_latest(
    e: Seq<(usize, usize)>,
    used: Seq<bool>,
    order: Seq<usize>,
    g: Search,
    x: int,
    path: Seq<int>,
) -> (z: int)
    requires
        is_edge_list(e, used.len()),
        is_done(e, used, order, g),
        0 <= x < used.len(),
        is_walk(e, path),
        0 <= path[0] < used.len(),
        reaches(e, x, path[0]),
        g.pos[path[0]] <= g.pos[x],
    ensures
        0 <= z < used.len(),
        reaches(e, x, z),
        reaches(e, z, x),
        g.pos[z] >= g.pos[path[path.len() - 1]],
    decreases order.len() - g.pos[x], path.len(),
{
    let first = path[0];
    assert(is_vertex_ok(e, used, order, g, x));
    assert(is_vertex_ok(e, used, order, g, first));
    if path.len() == 1 {
        lemma_reaches_itself(e, x);
        x
    } else {
        let second = path[1];
        let rest = path.subrange(1, path.len() as int);
        let zero = 0int;
        assert(has_edge(e, path[zero], path[zero + 1]));
        let t = choose|t: int| 0 <= t < e.len() && (#[trigger] e[t]).0 == first && e[t].1 == second;
        assert(second < used.len());
        assert forall|i: int| 0 <= i < rest.len() - 1 implies has_edge(
            e,
            #[trigger] rest[i],
            rest[i + 1],
        ) by {
            assert(has_edge(e, path[i + 1], path[i + 1 + 1]));
        }
        assert(is_walk(e, rest));
        lemma_reaches_then_edge(e, x, first, second);
        if g.pos[second] <= g.pos[x] {
            lemma_latest(e, used, order, g, x, rest)
        } else {
            // the visit of `second` began before that of `first`, and ended after that of `x`
            assert(is_settled(g, first, second));
            assert(is_vertex_ok(e, used, order, g, second));
            assert(reaches(e, second, order[g.pos[x]] as int));
            lemma_reaches_itself(e, second);
            let z = lemma_latest(e, used, order, g, second, rest);
            lemma_reaches_transitive(e, x, second, z);
            lemma_reaches_transitive(e, z, second, x);
            z
        }
    }
}

/// The vertices visited have every vertex with them from which an edge
/// leads to one of them.
pub open spec fn is_closed(e: Seq<(usize, usize)>, used: Seq<bool>) -> bool {
    forall|t: int|
        0 <= t < e.len() && used[(#[trigger] e[t]).1 as int] ==> used[e[t].0 as int]
}

/// A set of vertices that has every vertex with it from which an edge
/// leads into it has every vertex with it that reaches it.
proof fn lemma_closed(e: Seq<(usize, usize)>, used: Seq<bool>, path: Seq<int>)
    requires
        is_closed(e, used),
        is_walk(e, path),
        used[path[path.len() - 1]],
    ensures
        used[path[0]],
    decreases path.len(),
{
    if path.len() > 1 {
        let shorter = path.drop_last();
        let k = path.len() - 2;
        assert(has_edge(e, path[k], path[k + 1]));
        let t = choose|t: int|
            0 <= t < e.len() && (#[trigger] e[t]).0 == path[k] && e[t].1 == path[k + 1];
        assert(used[e[t].0 as int]);
        assert forall|i: int| 0 <= i < shorter.len() - 1 implies has_edge(
            e,
            #[trigger] shorter[i],
            shorter[i + 1],
        ) by {
            assert(has_edge(e, path[i], path[i + 1]));
        }
        lemma_closed(e, used, shorter);
    }
}

/// Visits `i` and the vertices that reach it over unvisited vertices,
/// depth first on the reversed graph, and appends each vertex to
/// `component` when its visit begins.
fn _kosaraju_dfs_collect(
    i: usize,
    rev_graph: &Vec<Vec<usize>>,
    used: &mut Vec<bool>,
    component: &mut Vec<usize>,
    Ghost(e): Ghost<Seq<(usize, usize)>>,
    Ghost(root): Ghost<int>,
)
    requires
        is_adjacency_of(rev_graph@, e, old(used)@.len(), true),
        i < old(used)@.len(),
        !old(used)@[i as int],
        reaches(e, i as int, root),
    ensures
        final(used)@[i as int],
        final(component)@.len() > old(component)@.len(),
        final(component)@ == old(component)@ + added_since(
            final(component)@,
            old(component)@.len() as int,
        ),
        is_visit(
            old(used)@,
            final(used)@,
            added_since(final(component)@, old(component)@.len() as int),
        ),
        forall|k: int|
            old(component)@.len() <= k < final(component)@.len() ==> reaches(
                e,
                #[trigger] final(component)@[k] as int,
                root,
            ),
        forall|k: int, t: int|
            old(component)@.len() <= k < final(component)@.len() && 0 <= t < e.len() && (
            #[trigger] e[t]).1 == #[trigger] final(component)@[k] ==> final(used)@[e[t].0 as int],
    decreases unvisited(old(used)@),
{
    let ghost start = old(component)@.len() as int;
    let ghost n = old(used)@.len();
    used[i] = true;
    component.push(i);
    let ghost marked = used@;
    proof {
        let added = seq![i];
        assert(added_since(component@, start) =~= added);
        assert(component@ =~= old(component)@ + added);
        lemma_unvisited(old(used)@, marked);
        assert forall|v: usize| v < n implies (#[trigger] added.contains(v) <==> (marked[v as int]
            && !old(used)@[v as int])) by {
            if v == i {
                assert(added[0] == v);
            }
        }
    }
    let mut k: usize = 0;
    while k < rev_graph[i].len()
        invariant
            is_adjacency_of(rev_graph@, e, n, true),
            n == used@.len() == old(used)@.len(),
            i < n,
            k <= rev_graph@[i as int]@.len(),
            component@.len() > start,
            start == old(component)@.len(),
            component@[start] == i,
            component@ == old(component)@ + added_since(component@, start),
            is_visit(old(used)@, used@, added_since(component@, start)),
            used@[i as int],
            unvisited(used@) < unvisited(old(used)@),
            reaches(e, i as int, root),
            forall|j: int| start <= j < component@.len() ==> reaches(
                e,
                #[trigger] component@[j] as int,
                root,
            ),
            forall|j: int, t: int|
                start < j < component@.len() && 0 <= t < e.len() && (#[trigger] e[t]).1
                    == #[trigger] component@[j] ==> used@[e[t].0 as int],
            forall|x: int| 0 <= x < k ==> used@[#[trigger] rev_graph@[i as int]@[x] as int],
        decreases rev_graph@[i as int]@.len() - k,
    {
        let j = rev_graph[i][k];
        if !used[j] {
            let ghost (used0, component0) = (used@, component@);
            proof {
                lemma_edge_then_reaches(e, j as int, i as int, root);
            }
            _kosaraju_dfs_collect(j, rev_graph, used, component, Ghost(e), Ghost(root));
            proof {
                let earlier = added_since(component0, start);
                let later = added_since(component@, component0.len() as int);
                assert(added_since(component@, start) =~= earlier + later);
                assert(component@ =~= old(component)@ + (earlier + later));
                lemma_visit_chain(old(used)@, used0, used@, earlier, later);
                lemma_unvisited(used0, used@);
                assert forall|l: int| start <= l < component@.len() implies reaches(
                    e,
                    #[trigger] component@[l] as int,
                    root,
                ) by {
                    if l < component0.len() {
                        assert(component@[l] == component0[l]);
                    }
                }
                assert forall|l: int, t: int|
                    start < l < component@.len() && 0 <= t < e.len() && (#[trigger] e[t]).1
                        == #[trigger] component@[l] implies used@[e[t].0 as int] by {
                    if l < component0.len() {
                        assert(component@[l] == component0[l]);
                        assert(used0[e[t].0 as int]);
                    }
                }
                assert forall|x: int| 0 <= x < k + 1 implies used@[#[trigger] rev_graph@[i as int]@[x] as int] by {
                    if x < k {
                        assert(used0[rev_graph@[i as int]@[x] as int]);
                    }
                }
            }
        }
        k += 1;
    }
    proof {
        assert forall|l: int, t: int|
            start <= l < component@.len() && 0 <= t < e.len() && (#[trigger] e[t]).1
                == #[trigger] component@[l] implies used@[e[t].0 as int] by {
            if l == start {
                assert(rev_graph@[e[t].1 as int]@.contains(e[t].0));
                let x = choose|x: int|
                    0 <= x < rev_graph@[i as int]@.len() && rev_graph@[i as int]@[x] == e[t].0;
                assert(used@[rev_graph@[i as int]@[x] as int]);
            }
        }
    }
}

/// The vertex `v` is in one of the `parts`.
pub open spec fn is_member(parts: Seq<Vec<usize>>, v: int) -> bool {
    exists|c: int, k: int|
        0 <= c < parts.len() && 0 <= k < parts[c]@.len() && #[trigger] parts[c]@[k] == v
}

/// Each of the `n` vertices is in one of the `parts`, at one position
/// only, and the parts hold nothing else and are not empty.
pub open spec fn is_partition(parts: Seq<Vec<usize>>, n: nat) -> bool {
    &&& forall|c: int| 0 <= c < parts.len() ==> (#[trigger] parts[c])@.len() > 0
    &&& forall|c: int, k: int|
        0 <= c < parts.len() && 0 <= k < parts[c]@.len() ==> #[trigger] parts[c]@[k] < n
    &&& forall|v: int| 0 <= v < n ==> #[trigger] is_member(parts, v)
    &&& forall|c: int, k: int, d: int, l: int|
        0 <= c < parts.len() && 0 <= k < parts[c]@.len() && 0 <= d < parts.len() && 0 <= l
            < parts[d]@.len() && #[trigger] parts[c]@[k] == #[trigger] parts[d]@[l] ==> c == d
            && k == l
}

/// Returns a vector of `n` times `false`.
fn none_visited(n: usize) -> (used: Vec<bool>)
    ensures
        used@.len() == n,
        forall|v: int| 0 <= v < n ==> !used@[v],
{
    let mut used: Vec<bool> = Vec::with_capacity(n);
    let mut i: usize = 0;
    while i < n
        invariant
            i <= n,
            used@.len() == i,
            forall|v: int| 0 <= v < i ==> !used@[v],
        decreases n - i,
    {
        used.push(false);
        i += 1;
    }
    used
}

/// Returns `n` empty lists of neighbours.
fn no_neighbours(n: usize) -> (graph: Vec<Vec<usize>>)
    ensures
        graph@.len() == n,
        forall|i: int| 0 <= i < n ==> (#[trigger] graph@[i])@.len() == 0,
{
    let mut graph: Vec<Vec<usize>> = Vec::with_capacity(n);
    let mut i: usize = 0;
    while i < n
        invariant
            i <= n,
            graph@.len() == i,
            forall|j: int| 0 <= j < i ==> (#[trigger] graph@[j])@.len() == 0,
        decreases n - i,
    {
        graph.push(Vec::new());
        i += 1;
    }
    graph
}

/// Every vertex of `part` reaches every vertex of `part`.
pub open spec fn is_strongly_connected(e: Seq<(usize, usize)>, part: Seq<usize>) -> bool {
    forall|k: int, l: int|
        0 <= k < part.len() && 0 <= l < part.len() ==> reaches(
            e,
            #[trigger] part[k] as int,
            #[trigger] part[l] as int,
        )
}

/// No edge leads from a part to a part before it.
pub open spec fn is_topological(e: Seq<(usize, usize)>, parts: Seq<Vec<usize>>) -> bool {
    forall|t: int, c: int, k: int, d: int, l: int|
        0 <= t < e.len() && 0 <= c < parts.len() && 0 <= k < parts[c]@.len() && 0 <= d
            < parts.len() && 0 <= l < parts[d]@.len() && #[trigger] parts[c]@[k] == (
        #[trigger] e[t]).0 && #[trigger] parts[d]@[l] == e[t].1 ==> c <= d
}

/// Where no edge leads from a part to a part before it, no walk does: a
/// vertex reaches only vertices of its own part and of the parts after it.
pub proof fn lemma_topological(
    e: Seq<(usize, usize)>,
    parts: Seq<Vec<usize>>,
    n: nat,
    path: Seq<int>,
    c: int,
    k: int,
    d: int,
    l: int,
)
    requires
        is_edge_list(e, n),
        is_partition(parts, n),
        is_topological(e, parts),
        is_walk(e, path),
        0 <= c < parts.len(),
        0 <= k < parts[c]@.len(),
        0 <= d < parts.len(),
        0 <= l < parts[d]@.len(),
        parts[c]@[k] == path[0],
        parts[d]@[l] == path[path.len() - 1],
    ensures
        c <= d,
    decreases path.len(),
{
    if path.len() == 1 {
        assert(parts[c]@[k] == parts[d]@[l]);
    } else {
        let zero = 0int;
        assert(has_edge(e, path[zero], path[zero + 1]));
        let t = choose|t: int|
            0 <= t < e.len() && (#[trigger] e[t]).0 == path[0] && e[t].1 == path[1];
        let rest = path.subrange(1, path.len() as int);
        assert forall|i: int| 0 <= i < rest.len() - 1 implies has_edge(
            e,
            #[trigger] rest[i],
            rest[i + 1],
        ) by {
            assert(has_edge(e, path[i + 1], path[i + 1 + 1]));
        }
        assert(is_member(parts, e[t].1 as int));
        let (m, j) = choose|m: int, j: int|
            0 <= m < parts.len() && 0 <= j < parts[m]@.len() && #[trigger] parts[m]@[j] == e[t].1;
        assert(parts[c]@[k] == e[t].0 && parts[m]@[j] == e[t].1);
        lemma_topological(e, parts, n, rest, m, j, d, l);
    }
}

/// Two vertices that reach each other are in one part: with
/// `is_strongly_connected`, the parts are the classes of the vertices that
/// reach each other.
pub proof fn lemma_components(
    e: Seq<(usize, usize)>,
    parts: Seq<Vec<usize>>,
    n: nat,
    c: int,
    k: int,
    d: int,
    l: int,
)
    requires
        is_edge_list(e, n),
        is_partition(parts, n),
        is_topological(e, parts),
        0 <= c < parts.len(),
        0 <= k < parts[c]@.len(),
        0 <= d < parts.len(),
        0 <= l < parts[d]@.len(),
        reaches(e, parts[c]@[k] as int, parts[d]@[l] as int),
        reaches(e, parts[d]@[l] as int, parts[c]@[k] as int),
    ensures
        c == d,
{
    let (u, v) = (parts[c]@[k] as int, parts[d]@[l] as int);
    let there = choose|path: Seq<int>| #[trigger]
        is_walk(e, path) && path[0] == u && path[path.len() - 1] == v;
    let back = choose|path: Seq<int>| #[trigger]
        is_walk(e, path) && path[0] == v && path[path.len() - 1] == u;
    lemma_topological(e, parts, n, there, c, k, d, l);
    lemma_topological(e, parts, n, back, d, l, c, k);
}

/// Returns the lists of the vertices that the edges from each vertex lead
/// to, or for `reversed`, of the vertices that the edges to each vertex
/// come from.
fn neighbours(n: usize, e: &[(usize, usize)], reversed: bool) -> (graph: Vec<Vec<usize>>)
    requires
        is_edge_list(e@, n as nat),
    ensures
        is_adjacency_of(graph@, e@, n as nat, reversed),
{
    let mut graph = no_neighbours(n);
    let mut t: usize = 0;
    while t < e.len()
        invariant
            t <= e@.len(),
            is_edge_list(e@, n as nat),
            graph@.len() == n,
            forall|i: int, x: int|
                0 <= i < n && 0 <= x < graph@[i]@.len() ==> #[trigger] graph@[i]@[x] < n
                    && if reversed {
                    has_edge(e@, graph@[i]@[x] as int, i)
                } else {
                    has_edge(e@, i, graph@[i]@[x] as int)
                },
            forall|s: int|
                0 <= s < t ==> if reversed {
                    graph@[(#[trigger] e@[s]).1 as int]@.contains(e@[s].0)
                } else {
                    graph@[e@[s].0 as int]@.contains(e@[s].1)
                },
        decreases e@.len() - t,
    {
        let (u, v) = e[t];
        let ghost before = graph@;
        if reversed {
            graph[v].push(u);
        } else {
            graph[u].push(v);
        }
        proof {
            let (from, to) = if reversed {
                (v, u)
            } else {
                (u, v)
            };
            let last = before[from as int]@.len() as int;
            assert(graph@[from as int]@[last] == to);
            assert(e@[t as int].0 == u && e@[t as int].1 == v);
            assert forall|i: int, x: int|
                0 <= i < n && 0 <= x < graph@[i]@.len() implies #[trigger] graph@[i]@[x] < n
                && if reversed {
                has_edge(e@, graph@[i]@[x] as int, i)
            } else {
                has_edge(e@, i, graph@[i]@[x] as int)
            } by {
                if i != from || x < last {
                    assert(graph@[i]@[x] == before[i]@[x]);
                }
            }
            assert forall|s: int| 0 <= s < t + 1 implies if reversed {
                graph@[(#[trigger] e@[s]).1 as int]@.contains(e@[s].0)
            } else {
                graph@[e@[s].0 as int]@.contains(e@[s].1)
            } by {
                if s < t {
                    let (a, b) = if reversed {
                        (e@[s].1, e@[s].0)
                    } else {
                        (e@[s].0, e@[s].1)
                    };
                    assert(before[a as int]@.contains(b));
                    let x = choose|x: int| 0 <= x < before[a as int]@.len() && before[a as int]@[x] == b;
                    assert(graph@[a as int]@[x] == b);
                }
            }
        }
        t += 1;
    }
    graph
}

/// Computes strongly connected components by Kosaraju's algorithm.
///
/// ## Parameters
///
/// - `n`: the number of vertices in the graph (indexed `0..n`)
/// - `e`: directed edges `(u, v)` from `u` to `v`
///
/// ## Returns
///
/// The strongly connected components, each as the vector of its vertices,
/// in a topological order of the graph of the components: every vertex is
/// in one component, the vertices of a component reach each other, and no
/// edge leads from a component to a component before it.
///
/// ## Complexity
///
/// `O(n + |e|)` where `|e|` is the number of edges.
pub fn kosaraju(n: usize, e: &[(usize, usize)]) -> (scc: Vec<Vec<usize>>)
    requires
        is_edge_list(e@, n as nat),
    ensures
        is_partition(scc@, n as nat),
        forall|c: int| 0 <= c < scc@.len() ==> is_strongly_connected(e@, (#[trigger] scc@[c])@),
        is_topological(e@, scc@),
{
    let graph = neighbours(n, e, false);
    let rev_graph = neighbours(n, e, true);
    let mut order: Vec<usize> = Vec::with_capacity(n);
    let mut used = none_visited(n);
    let ghost none = used@;
    let mut search: Ghost<Search> = Ghost(
        Search {
            pos: Seq::new(n as nat, |v: int| -1int),
            lo: Seq::new(n as nat, |v: int| 0int),
            active: Seq::new(n as nat, |v: int| false),
        },
    );
    let mut i: usize = 0;
    while i < n
        invariant
            i <= n,
            is_adjacency_of(graph@, e@, n as nat, false),
            used@.len() == n,
            is_search(e@, used@, order@, search@),
            forall|v: int| 0 <= v < n ==> !search@.active[v],
            forall|v: int| 0 <= v < i ==> used@[v],
        decreases n - i,
    {
        if !used[i] {
            _kosaraju_dfs_finish(i, &graph, &mut used, &mut order, Ghost(e@), &mut search);
        }
        i += 1;
    }
    let ghost done = used@;
    let ghost g = search@;
    proof {
        assert(is_done(e@, done, order@, g));
        // every vertex is in the order, at its position
        assert forall|v: int| 0 <= v < n implies 0 <= g.pos[v] < order@.len() && order@[g.pos[v]]
            == v by {
            assert(is_vertex_ok(e@, done, order@, g, v));
        }
    }
    let mut scc: Vec<Vec<usize>> = Vec::new();
    let mut used = none_visited(n);
    let mut at = order.len();
    while at > 0
        invariant
            at <= order@.len(),
            is_edge_list(e@, n as nat),
            is_adjacency_of(rev_graph@, e@, n as nat, true),
            is_done(e@, done, order@, g),
            done.len() == n,
            used@.len() == n,
            forall|v: int| 0 <= v < n ==> 0 <= g.pos[v] < order@.len() && order@[g.pos[v]] == v,
            forall|k: int| 0 <= k < order@.len() ==> #[trigger] order@[k] < n,
            forall|k: int| at <= k < order@.len() ==> used@[#[trigger] order@[k] as int],
            is_closed(e@, used@),
            forall|c: int| 0 <= c < scc@.len() ==> (#[trigger] scc@[c])@.len() > 0,
            forall|c: int, k: int|
                0 <= c < scc@.len() && 0 <= k < scc@[c]@.len() ==> #[trigger] scc@[c]@[k] < n
                    && used@[scc@[c]@[k] as int],
            forall|v: int| 0 <= v < n && used@[v] ==> #[trigger] is_member(scc@, v),
            forall|c: int, k: int, d: int, l: int|
                0 <= c < scc@.len() && 0 <= k < scc@[c]@.len() && 0 <= d < scc@.len() && 0 <= l
                    < scc@[d]@.len() && #[trigger] scc@[c]@[k] == #[trigger] scc@[d]@[l] ==> c == d
                    && k == l,
            forall|c: int| 0 <= c < scc@.len() ==> is_strongly_connected(e@, (#[trigger] scc@[c])@),
            is_topological(e@, scc@),
        decreases at,
    {
        at -= 1;
        let i = order[at];
        if !used[i] {
            let mut component: Vec<usize> = Vec::new();
            let ghost (used0, scc0) = (used@, scc@);
            proof {
                lemma_reaches_itself(e@, i as int);
            }
            _kosaraju_dfs_collect(
                i,
                &rev_graph,
                &mut used,
                &mut component,
                Ghost(e@),
                Ghost(i as int),
            );
            scc.push(component);
            proof {
                let last = scc0.len() as int;
                let added = added_since(component@, 0);
                assert(added =~= component@);
                assert(scc@[last] == component);
                assert forall|c: int, k: int|
                    0 <= c < scc@.len() && 0 <= k < scc@[c]@.len() implies #[trigger] scc@[c]@[k]
                    < n && used@[scc@[c]@[k] as int] by {
                    if c < last {
                        assert(scc@[c] == scc0[c]);
                        assert(used0[scc0[c]@[k] as int]);
                    } else {
                        assert(component@.contains(component@[k]));
                    }
                }
                assert forall|v: int| 0 <= v < n && used@[v] implies #[trigger] is_member(
                    scc@,
                    v,
                ) by {
                    if used0[v] {
                        assert(is_member(scc0, v));
                        let (c, k) = choose|c: int, k: int|
                            0 <= c < scc0.len() && 0 <= k < scc0[c]@.len() && #[trigger] scc0[c]@[k]
                                == v;
                        assert(scc@[c] == scc0[c]);
                        assert(scc@[c]@[k] == v);
                    } else {
                        let w = v as usize;
                        assert(component@.contains(w));
                        let k = choose|k: int| 0 <= k < component@.len() && component@[k] == w;
                        assert(scc@[last]@[k] == v);
                    }
                }
                assert forall|c: int, k: int, d: int, l: int|
                    0 <= c < scc@.len() && 0 <= k < scc@[c]@.len() && 0 <= d < scc@.len() && 0 <= l
                        < scc@[d]@.len() && #[trigger] scc@[c]@[k] == #[trigger] scc@[d]@[l] implies c
                    == d && k == l by {
                    if c < last {
                        assert(scc@[c] == scc0[c]);
                        assert(used0[scc0[c]@[k] as int]);
                    }
                    if d < last {
                        assert(scc@[d] == scc0[d]);
                        assert(used0[scc0[d]@[l] as int]);
                    }
                    if c == last {
                        assert(component@.contains(component@[k]));
                    }
                    if d == last {
                        assert(component@.contains(component@[l]));
                    }
                    if c < last && d < last {
                        assert(scc0[c]@[k] == scc0[d]@[l]);
                    }
                }
                assert forall|c: int| 0 <= c < scc@.len() implies (#[trigger] scc@[c])@.len() > 0 by {
                    if c < last {
                        assert(scc@[c] == scc0[c]);
                    }
                }
                // the vertices visited have the vertices with them that edges lead from to them
                assert forall|t: int|
                    0 <= t < e@.len() && used@[(#[trigger] e@[t]).1 as int] implies used@[e@[t].0 as int] by {
                    let v = e@[t].1;
                    if used0[v as int] {
                        assert(used0[e@[t].0 as int]);
                    } else {
                        assert(component@.contains(v));
                        let k = choose|k: int| 0 <= k < component@.len() && component@[k] == v;
                        assert(e@[t].1 == component@[k]);
                    }
                }
                // the root of the component reaches each of its vertices
                assert forall|k: int| 0 <= k < component@.len() implies reaches(
                    e@,
                    i as int,
                    #[trigger] component@[k] as int,
                ) by {
                    let w = component@[k] as int;
                    assert(component@.contains(component@[k]));
                    assert(!used0[w]);
                    assert(reaches(e@, w, i as int));
                    let path = choose|path: Seq<int>| #[trigger]
                        is_walk(e@, path) && path[0] == w && path[path.len() - 1] == i;
                    lemma_reaches_itself(e@, w);
                    let z = lemma_latest(e@, done, order@, g, w, path);
                    // `z` was not visited before, as `w`, which reaches it, was not
                    let back = choose|back: Seq<int>| #[trigger]
                        is_walk(e@, back) && back[0] == w && back[back.len() - 1] == z;
                    if used0[z] {
                        lemma_closed(e@, used0, back);
                    }
                    // and it is no vertex whose visit ended after that of the root
                    assert(g.pos[order@[at as int] as int] == at);
                    if g.pos[z] > at {
                        assert(used0[order@[g.pos[z]] as int]);
                    }
                    assert(order@[g.pos[z]] == order@[at as int]);
                }
                assert forall|c: int| 0 <= c < scc@.len() implies is_strongly_connected(
                    e@,
                    (#[trigger] scc@[c])@,
                ) by {
                    if c < last {
                        assert(scc@[c] == scc0[c]);
                    } else {
                        assert forall|k: int, l: int|
                            0 <= k < component@.len() && 0 <= l < component@.len() implies reaches(
                            e@,
                            #[trigger] component@[k] as int,
                            #[trigger] component@[l] as int,
                        ) by {
                            lemma_reaches_transitive(
                                e@,
                                component@[k] as int,
                                i as int,
                                component@[l] as int,
                            );
                        }
                    }
                }
                // no edge leads to an earlier component
                assert forall|t: int, c: int, k: int, d: int, l: int|
                    0 <= t < e@.len() && 0 <= c < scc@.len() && 0 <= k < scc@[c]@.len() && 0 <= d
                        < scc@.len() && 0 <= l < scc@[d]@.len() && #[trigger] scc@[c]@[k] == (
                    #[trigger] e@[t]).0 && #[trigger] scc@[d]@[l] == e@[t].1 implies c <= d by {
                    if d < last {
                        assert(scc@[d] == scc0[d]);
                        assert(used0[scc0[d]@[l] as int]);
                        assert(used0[e@[t].0 as int]);
                        if c == last {
                            assert(component@.contains(component@[k]));
                        } else {
                            assert(scc@[c] == scc0[c]);
                        }
                    }
                }
            }
        }
    }
    proof {
        assert forall|v: int| 0 <= v < n implies #[trigger] is_member(scc@, v) by {
            assert(used@[order@[g.pos[v]] as int]);
        }
    }
    scc
}

} // verus!
