//! The placement order: a depth-first traversal of the figure.

use vstd::prelude::*;

verus! {

/// Number of vertices not yet visited.
pub open spec fn unvisited(s: Seq<bool>) -> nat
    decreases s.len(),
{
    if s.len() == 0 {
        0
    } else {
        unvisited(s.drop_last()) + if s.last() {
            0nat
        } else {
            1nat
        }
    }
}

proof fn lemma_unvisited_step(s: Seq<bool>, t: Seq<bool>, i: int)
    requires
        s.len() == t.len(),
        0 <= i < s.len(),
        !s[i],
        t[i],
        forall|j: int| 0 <= j < s.len() && s[j] ==> t[j],
    ensures
        unvisited(t) < unvisited(s),
    decreases s.len(),
{
    if i < s.len() - 1 {
        lemma_unvisited_step(s.drop_last(), t.drop_last(), i);
        lemma_unvisited_mono_last(s, t);
    } else {
        lemma_unvisited_mono(s.drop_last(), t.drop_last());
    }
}

proof fn lemma_unvisited_mono_last(s: Seq<bool>, t: Seq<bool>)
    requires
        s.len() == t.len(),
        s.len() > 0,
        s.last() ==> t.last(),
    ensures
        (if t.last() { 0int } else { 1int }) <= (if s.last() { 0int } else { 1int }),
{
}

proof fn lemma_unvisited_mono(s: Seq<bool>, t: Seq<bool>)
    requires
        s.len() == t.len(),
        forall|j: int| 0 <= j < s.len() && s[j] ==> t[j],
    ensures
        unvisited(t) <= unvisited(s),
    decreases s.len(),
{
    if s.len() > 0 {
        lemma_unvisited_mono(s.drop_last(), t.drop_last());
        assert(s.last() ==> t.last());
    }
}

/// The order lists each visited vertex once, and nothing else.
pub open spec fn order_matches(order: Seq<usize>, visited: Seq<bool>) -> bool {
    &&& order.no_duplicates()
    &&& forall|i: int| 0 <= i < order.len() ==> (#[trigger] order[i]) < visited.len() && visited[order[i] as int]
    &&& forall|u: int| 0 <= u < visited.len() && #[trigger] visited[u] ==> order.contains(u as usize)
}

/// Every neighbour named in the edge lists is a vertex.
pub open spec fn lists_ok(edges: Seq<Vec<(usize, usize)>>, n: int) -> bool {
    &&& edges.len() == n
    &&& forall|v: int, j: int| 0 <= v < n && 0 <= j < edges[v]@.len() ==> (#[trigger] edges[v]@[j]).1 < n
}

/// Every tree edge `(e, u)` listed at `w` is one of `w`'s edges.
pub open spec fn tree_ok(edges: Seq<Vec<(usize, usize)>>, tree: Seq<Vec<(usize, usize)>>) -> bool {
    &&& tree.len() == edges.len()
    &&& forall|w: int, j: int| 0 <= w < tree.len() && 0 <= j < tree[w]@.len() ==> edges[w]@.contains(#[trigger] tree[w]@[j])
}

/// Vertex `u` was reached from `parents[u].0` over one of that vertex's edges.
pub open spec fn reached_by(edges: Seq<Vec<(usize, usize)>>, parents: Seq<(usize, usize)>, u: int) -> bool {
    parents[u].0 < edges.len() && edges[parents[u].0 as int]@.contains((parents[u].1, u as usize))
}

/// Every neighbour of `u` is visited.
pub open spec fn closed_at(edges: Seq<Vec<(usize, usize)>>, visited: Seq<bool>, u: int) -> bool {
    forall|j: int| 0 <= j < edges[u]@.len() ==> visited[(#[trigger] edges[u]@[j]).1 as int]
}

/// `p` is a walk over the edge lists: each vertex is a neighbour of the one before.
pub open spec fn is_walk(edges: Seq<Vec<(usize, usize)>>, p: Seq<usize>) -> bool {
    &&& p.len() >= 1
    &&& forall|i: int| 0 <= i < p.len() ==> (#[trigger] p[i]) < edges.len()
    &&& forall|i: int| 0 <= i < p.len() - 1 ==> #[trigger] linked(edges, p[i], p[i + 1])
}

/// `b` is a neighbour of `a`.
pub open spec fn linked(edges: Seq<Vec<(usize, usize)>>, a: usize, b: usize) -> bool {
    exists|j: int| 0 <= j < edges[a as int]@.len() && (#[trigger] edges[a as int]@[j]).1 == b
}

/// Some walk leads from `v` to `u`.
pub open spec fn reachable(edges: Seq<Vec<(usize, usize)>>, v: usize, u: usize) -> bool {
    exists|p: Seq<usize>| #[trigger] is_walk(edges, p) && p[0] == v && p.last() == u
}

/// Where `v` is visited and every visited vertex has all its neighbours
/// visited, every vertex reachable from `v` is visited.
pub proof fn lemma_closed_reach(edges: Seq<Vec<(usize, usize)>>, visited: Seq<bool>, v: usize, u: usize)
    requires
        edges.len() == visited.len(),
        v < visited.len(),
        visited[v as int],
        forall|w: int| 0 <= w < visited.len() && visited[w] ==> #[trigger] closed_at(edges, visited, w),
        reachable(edges, v, u),
    ensures
        visited[u as int],
{
    let p = choose|p: Seq<usize>| #[trigger] is_walk(edges, p) && p[0] == v && p.last() == u;
    lemma_walk_visited(edges, visited, p, p.len() - 1);
}

/// After a traversal from `v` that visits every vertex reachable from it, on
/// a graph where every vertex is reachable from `v`: every vertex is visited,
/// and the order lists each vertex exactly once.
pub proof fn lemma_connected_traversal(edges: Seq<Vec<(usize, usize)>>, order: Seq<usize>, visited: Seq<bool>, v: usize)
    requires
        visited.len() == edges.len() <= usize::MAX,
        order_matches(order, visited),
        forall|u: usize| #[trigger] reachable(edges, v, u) ==> visited[u as int],
        forall|u: usize| u < edges.len() ==> #[trigger] reachable(edges, v, u),
    ensures
        forall|u: int| 0 <= u < visited.len() ==> visited[u],
        order.len() == edges.len(),
        forall|u: usize| u < edges.len() ==> #[trigger] order.contains(u),
{
    assert forall|u: int| 0 <= u < visited.len() implies visited[u] by {
        assert(reachable(edges, v, u as usize));
    }
    assert forall|u: usize| u < edges.len() implies #[trigger] order.contains(u) by {
        assert(visited[u as int]);
    }
    crate::search::lemma_permutation_len(order, edges.len());
}

/// A step from `v` to its neighbour `w`, then on to `u`.
proof fn lemma_reach_prepend(edges: Seq<Vec<(usize, usize)>>, v: usize, w: usize, u: usize)
    requires
        v < edges.len(),
        linked(edges, v, w),
        reachable(edges, w, u),
    ensures
        reachable(edges, v, u),
{
    let p = choose|p: Seq<usize>| #[trigger] is_walk(edges, p) && p[0] == w && p.last() == u;
    let q = seq![v] + p;
    assert forall|i: int| 0 <= i < q.len() implies (#[trigger] q[i]) < edges.len() by {
        if i > 0 {
            assert(q[i] == p[i - 1]);
        }
    }
    assert forall|i: int| 0 <= i < q.len() - 1 implies #[trigger] linked(edges, q[i], q[i + 1]) by {
        if i > 0 {
            assert(q[i] == p[i - 1]);
            assert(q[i + 1] == p[(i - 1) + 1]);
            assert(linked(edges, p[i - 1], p[(i - 1) + 1]));
        } else {
            assert(q[1] == p[0]);
        }
    }
    assert(q.last() == p.last());
    assert(is_walk(edges, q) && q[0] == v && q.last() == u);
}

proof fn lemma_walk_visited(edges: Seq<Vec<(usize, usize)>>, visited: Seq<bool>, p: Seq<usize>, i: int)
    requires
        edges.len() == visited.len(),
        is_walk(edges, p),
        visited[p[0] as int],
        0 <= i < p.len(),
        forall|w: int| 0 <= w < visited.len() && visited[w] ==> #[trigger] closed_at(edges, visited, w),
    ensures
        visited[p[i] as int],
    decreases i,
{
    if i > 0 {
        lemma_walk_visited(edges, visited, p, i - 1);
        let w = p[i - 1] as int;
        assert(p[i - 1] < edges.len());
        assert(closed_at(edges, visited, w));
        let k = i - 1;
        assert(linked(edges, p[k], p[k + 1]));
        let j = choose|j: int| 0 <= j < edges[w]@.len() && (#[trigger] edges[w]@[j]).1 == p[i];
    }
}

proof fn lemma_push_fresh(order: Seq<usize>, v: usize)
    requires
        order.no_duplicates(),
        !order.contains(v),
    ensures
        order.push(v).no_duplicates(),
        forall|u: usize| #[trigger] order.push(v).contains(u) <==> (order.contains(u) || u == v),
{
    let s = order.push(v);
    assert forall|i: int, j: int| 0 <= i < s.len() && 0 <= j < s.len() && i != j implies s[i] != s[j] by {
        if i < order.len() && j < order.len() {
        } else if i < order.len() {
            assert(order.contains(s[i]));
        } else {
            assert(order.contains(s[j]));
        }
    }
    assert forall|u: usize| #[trigger] s.contains(u) <==> (order.contains(u) || u == v) by {
        if s.contains(u) {
            let i = choose|i: int| 0 <= i < s.len() && s[i] == u;
            if i < order.len() {
                assert(order[i] == u);
            }
        }
        if order.contains(u) {
            let i = choose|i: int| 0 <= i < order.len() && order[i] == u;
            assert(s[i] == u);
        }
        if u == v {
            assert(s[order.len() as int] == u);
        }
    }
}

/// Entry `k` of `order` was reached from a vertex listed before it, at `lo` or later.
pub open spec fn parent_listed_before(order: Seq<usize>, parents: Seq<(usize, usize)>, lo: int, k: int) -> bool {
    exists|i: int| lo <= i < k && order[i] == parents[order[k] as int].0
}

/// `entry` at `w` is the edge to a vertex first reached from `w` in this
/// traversal, which did not start from it.
pub open spec fn child_edge(entry: (usize, usize), w: int, vis0: Seq<bool>, vis1: Seq<bool>, parents: Seq<(usize, usize)>, v: int) -> bool {
    &&& entry.1 < vis1.len()
    &&& !vis0[entry.1 as int]
    &&& vis1[entry.1 as int]
    &&& entry.1 != v
    &&& parents[entry.1 as int] == (w as usize, entry.0)
}

/// The edge by which `u` was first reached is among those its parent's
/// tree list gained.
pub open spec fn edge_recorded(t0: Seq<Vec<(usize, usize)>>, t1: Seq<Vec<(usize, usize)>>, parents: Seq<(usize, usize)>, u: int) -> bool {
    let w = parents[u].0 as int;
    &&& 0 <= w < t1.len()
    &&& exists|t: int| t0[w]@.len() <= t < t1[w]@.len() && t1[w]@[t] == (parents[u].1, u as usize)
}

/// The tree lists only grew, and what they gained are exactly the edges to
/// the vertices first reached in this traversal, at the vertex each was
/// reached from.
pub open spec fn tree_gained(
    t0: Seq<Vec<(usize, usize)>>,
    t1: Seq<Vec<(usize, usize)>>,
    vis0: Seq<bool>,
    vis1: Seq<bool>,
    parents: Seq<(usize, usize)>,
    v: int,
) -> bool {
    &&& t1.len() == t0.len()
    &&& forall|w: int|
        0 <= w < t0.len() ==> (#[trigger] t1[w])@.len() >= t0[w]@.len() && t1[w]@.subrange(0, t0[w]@.len() as int)
            == t0[w]@
    &&& forall|w: int, t: int|
        0 <= w < t0.len() && t0[w]@.len() <= t < t1[w]@.len() ==> #[trigger] child_edge(t1[w]@[t], w, vis0, vis1, parents, v)
    &&& forall|u: int| 0 <= u < vis1.len() && !vis0[u] && vis1[u] && u != v ==> #[trigger] edge_recorded(t0, t1, parents, u)
}

/// Depth-first traversal from `v`, reached from `p` over edge `p_edge_index`
/// (none for a root). Appends each newly reached vertex to `order` when it is
/// first visited, records how it was reached in `parents`, and the tree
/// edges out of each vertex in `topo_vertex_edges`.
pub fn topsort(
    v: usize,
    p: Option<usize>,
    p_edge_index: Option<usize>,
    order: &mut Vec<usize>,
    visited: &mut Vec<bool>,
    parents: &mut Vec<(usize, usize)>,
    edges: &Vec<Vec<(usize, usize)>>,
    topo_vertex_edges: &mut Vec<Vec<(usize, usize)>>,
)
    requires
        lists_ok(edges@, old(visited)@.len() as int),
        v < old(visited)@.len(),
        !old(visited)@[v as int],
        order_matches(old(order)@, old(visited)@),
        old(parents)@.len() == old(visited)@.len(),
        tree_ok(edges@, old(topo_vertex_edges)@),
        p.is_some() == p_edge_index.is_some(),
    ensures
        final(visited)@.len() == old(visited)@.len(),
        final(visited)@[v as int],
        forall|u: int| 0 <= u < old(visited)@.len() && old(visited)@[u] ==> final(visited)@[u],
        order_matches(final(order)@, final(visited)@),
        final(order)@.len() > old(order)@.len(),
        final(order)@.subrange(0, old(order)@.len() as int) == old(order)@,
        final(order)@[old(order)@.len() as int] == v,
        final(parents)@.len() == old(parents)@.len(),
        forall|u: int| 0 <= u < old(visited)@.len() && old(visited)@[u] ==> final(parents)@[u] == old(parents)@[u],
        p.is_some() ==> final(parents)@[v as int] == (p.unwrap(), p_edge_index.unwrap()),
        forall|u: int|
            0 <= u < old(visited)@.len() && !old(visited)@[u] && final(visited)@[u] && u != v ==> #[trigger] reached_by(
                edges@,
                final(parents)@,
                u,
            ),
        tree_ok(edges@, final(topo_vertex_edges)@),
        forall|u: int|
            0 <= u < old(visited)@.len() && !old(visited)@[u] && final(visited)@[u] ==> #[trigger] closed_at(
                edges@,
                final(visited)@,
                u,
            ),
        (forall|u: int| 0 <= u < old(visited)@.len() ==> !old(visited)@[u]) ==> forall|u: usize|
            #[trigger] reachable(edges@, v, u) ==> final(visited)@[u as int],
        forall|u: usize|
            u < old(visited)@.len() && !old(visited)@[u as int] && final(visited)@[u as int] ==> #[trigger] reachable(
                edges@,
                v,
                u,
            ),
        tree_gained(
            old(topo_vertex_edges)@,
            final(topo_vertex_edges)@,
            old(visited)@,
            final(visited)@,
            final(parents)@,
            v as int,
        ),
        forall|k: int|
            old(order)@.len() < k < final(order)@.len() ==> #[trigger] parent_listed_before(
                final(order)@,
                final(parents)@,
                old(order)@.len() as int,
                k,
            ),
    decreases unvisited(old(visited)@),
{
    let ghost n = visited@.len();
    let ghost start = *visited;
    let ghost order0 = order@;
    visited.set(v, true);
    if p.is_some() {
        parents.set(v, (p.unwrap(), p_edge_index.unwrap()));
    }
    proof {
        assert(!order@.contains(v)) by {
            if order@.contains(v) {
                let i = choose|i: int| 0 <= i < order@.len() && order@[i] == v;
                assert(start@[order@[i] as int]);
            }
        }
        lemma_push_fresh(order@, v);
    }
    order.push(v);
    proof {
        assert(order@.subrange(0, order0.len() as int) == order0);
        assert forall|u: int| 0 <= u < visited@.len() && #[trigger] visited@[u] implies order@.contains(u as usize) by {
            if u != v {
                assert(start@[u]);
                assert(order0.contains(u as usize));
            }
        }
        assert(order_matches(order@, visited@));
    }
    let ghost parent_v = parents@[v as int];
    let ghost parents1 = parents@;
    let ghost tree0 = topo_vertex_edges@;
    proof {
        assert forall|u: usize| u < n && !start@[u as int] && visited@[u as int] implies #[trigger] reachable(edges@, v, u) by {
            assert(u == v);
            let q = seq![v];
            assert(q.last() == v);
            assert(is_walk(edges@, q));
        }
        assert forall|w: int| 0 <= w < tree0.len() implies (#[trigger] tree0[w])@.len() >= tree0[w]@.len()
            && tree0[w]@.subrange(0, tree0[w]@.len() as int) == tree0[w]@ by {
            assert(tree0[w]@.subrange(0, tree0[w]@.len() as int) =~= tree0[w]@);
        }
    }
    let mut j: usize = 0;
    while j < edges[v].len()
        invariant
            lists_ok(edges@, n as int),
            v < n,
            visited@.len() == n,
            start@.len() == n,
            start == *old(visited),
            !start@[v as int],
            visited@[v as int],
            forall|u: int| 0 <= u < n && start@[u] ==> visited@[u],
            order_matches(order@, visited@),
            order@.len() > order0.len(),
            order@.subrange(0, order0.len() as int) == order0,
            order@[order0.len() as int] == v,
            parents@.len() == n,
            parents@[v as int] == parent_v,
            parents1.len() == n,
            old(parents)@.len() == n,
            forall|u: int| 0 <= u < n && start@[u] ==> parents1[u] == old(parents)@[u],
            forall|u: int| 0 <= u < n && (start@[u] || u == v) ==> parents@[u] == parents1[u],
            forall|u: int| 0 <= u < n && !start@[u] && visited@[u] && u != v ==> #[trigger] reached_by(edges@, parents@, u),
            tree_ok(edges@, topo_vertex_edges@),
            j <= edges@[v as int]@.len(),
            forall|jj: int| 0 <= jj < j ==> visited@[(#[trigger] edges@[v as int]@[jj]).1 as int],
            forall|u: int| 0 <= u < n && !start@[u] && visited@[u] && u != v ==> #[trigger] closed_at(edges@, visited@, u),
            forall|kk: int|
                order0.len() < kk < order@.len() ==> #[trigger] parent_listed_before(order@, parents@, order0.len() as int, kk),
            tree0 == old(topo_vertex_edges)@,
            tree_gained(tree0, topo_vertex_edges@, start@, visited@, parents@, v as int),
            forall|u: usize| u < n && !start@[u as int] && visited@[u as int] ==> #[trigger] reachable(edges@, v, u),
        decreases edges@[v as int]@.len() - j,
    {
        let (edge_index, dst) = edges[v][j];
        assert(edges@[v as int]@[j as int].1 < n);
        let ghost pre_loop = visited@;
        if !visited[dst] {
            let ghost pre_visited = visited@;
            let ghost pre_order = order@;
            let ghost pre_parents = parents@;
            proof {
                assert(edges@[v as int]@.contains((edge_index, dst)));
            }
            let ghost pre_tree = topo_vertex_edges@;
            topo_vertex_edges[v].push((edge_index, dst));
            proof {
                assert forall|w: int, t: int| 0 <= w < topo_vertex_edges@.len() && 0 <= t < topo_vertex_edges@[w]@.len() implies edges@[w]@.contains(
                    #[trigger] topo_vertex_edges@[w]@[t],
                ) by {
                    if w != v || t < pre_tree[w]@.len() {
                        assert(topo_vertex_edges@[w]@[t] == pre_tree[w]@[t]);
                    }
                }
            }
            proof {
                lemma_unvisited_step(start@, visited@, v as int);
                lemma_unvisited_mono(start@, visited@);
            }
            let ghost mid_tree = topo_vertex_edges@;
            topsort(dst, Some(v), Some(edge_index), order, visited, parents, edges, topo_vertex_edges);
            proof {
                let t2 = topo_vertex_edges@;
                assert(tree_gained(mid_tree, t2, pre_visited, visited@, parents@, dst as int));
                assert(mid_tree[v as int]@ == pre_tree[v as int]@.push((edge_index, dst)));
                assert forall|w: int| 0 <= w < tree0.len() implies (#[trigger] t2[w])@.len() >= tree0[w]@.len()
                    && t2[w]@.subrange(0, tree0[w]@.len() as int) == tree0[w]@ by {
                    assert(t2[w]@.subrange(0, mid_tree[w]@.len() as int) == mid_tree[w]@);
                    assert(mid_tree[w]@.len() >= pre_tree[w]@.len());
                    assert(mid_tree[w]@.subrange(0, pre_tree[w]@.len() as int) =~= pre_tree[w]@);
                    assert(pre_tree[w]@.subrange(0, tree0[w]@.len() as int) == tree0[w]@);
                    assert(t2[w]@.subrange(0, tree0[w]@.len() as int) =~= tree0[w]@);
                }
                assert forall|w: int, t: int| 0 <= w < tree0.len() && tree0[w]@.len() <= t < t2[w]@.len() implies #[trigger] child_edge(
                    t2[w]@[t],
                    w,
                    start@,
                    visited@,
                    parents@,
                    v as int,
                ) by {
                    assert(t2[w]@.subrange(0, mid_tree[w]@.len() as int) == mid_tree[w]@);
                    if t < pre_tree[w]@.len() {
                        assert(mid_tree[w]@.subrange(0, pre_tree[w]@.len() as int) =~= pre_tree[w]@);
                        assert(t2[w]@[t] == mid_tree[w]@[t]);
                        assert(mid_tree[w]@[t] == pre_tree[w]@[t]);
                        assert(child_edge(pre_tree[w]@[t], w, start@, pre_visited, pre_parents, v as int));
                    } else if t < mid_tree[w]@.len() {
                        assert(w == v);
                        assert(t2[w]@[t] == mid_tree[w]@[t]);
                        assert(mid_tree[w]@[t] == (edge_index, dst));
                    } else {
                        assert(child_edge(t2[w]@[t], w, pre_visited, visited@, parents@, dst as int));
                    }
                }
                assert forall|u: int| 0 <= u < visited@.len() && !start@[u] && visited@[u] && u != v implies #[trigger] edge_recorded(
                    tree0,
                    t2,
                    parents@,
                    u,
                ) by {
                    if pre_visited[u] {
                        assert(edge_recorded(tree0, pre_tree, pre_parents, u));
                        let w = pre_parents[u].0 as int;
                        let t = choose|t: int|
                            tree0[w]@.len() <= t < pre_tree[w]@.len() && pre_tree[w]@[t] == (pre_parents[u].1, u as usize);
                        assert(t2[w]@.subrange(0, mid_tree[w]@.len() as int) == mid_tree[w]@);
                        assert(mid_tree[w]@.subrange(0, pre_tree[w]@.len() as int) =~= pre_tree[w]@);
                        assert(t2[w]@[t] == mid_tree[w]@[t]);
                        assert(mid_tree[w]@[t] == pre_tree[w]@[t]);
                    } else if u == dst {
                        let t = pre_tree[v as int]@.len() as int;
                        assert(t2[v as int]@.subrange(0, mid_tree[v as int]@.len() as int) == mid_tree[v as int]@);
                        assert(t2[v as int]@[t] == mid_tree[v as int]@[t]);
                        assert(tree0[v as int]@.len() <= t);
                    } else {
                        assert(edge_recorded(mid_tree, t2, parents@, u));
                        let w = parents@[u].0 as int;
                        let t = choose|t: int|
                            mid_tree[w]@.len() <= t < t2[w]@.len() && t2[w]@[t] == (parents@[u].1, u as usize);
                        assert(mid_tree[w]@.len() >= pre_tree[w]@.len());
                    }
                }
                assert(tree_gained(tree0, t2, start@, visited@, parents@, v as int));
                assert(edges@[v as int]@[j as int] == (edge_index, dst));
                assert(linked(edges@, v, dst));
                assert forall|u: usize| u < n && !start@[u as int] && visited@[u as int] implies #[trigger] reachable(
                    edges@,
                    v,
                    u,
                ) by {
                    if !pre_visited[u as int] {
                        assert(reachable(edges@, dst, u));
                        lemma_reach_prepend(edges@, v, dst, u);
                    }
                }
                assert(reached_by(edges@, parents@, dst as int));
                assert forall|u: int| 0 <= u < n && !start@[u] && visited@[u] && u != v implies #[trigger] reached_by(
                    edges@,
                    parents@,
                    u,
                ) by {
                    if pre_visited[u] {
                        assert(parents@[u] == pre_parents[u]);
                        assert(reached_by(edges@, pre_parents, u));
                    }
                }
                assert(order@.subrange(0, pre_order.len() as int) == pre_order);
                assert(order@[order0.len() as int] == pre_order[order0.len() as int]);
                assert(order@.subrange(0, order0.len() as int) == pre_order.subrange(0, order0.len() as int));
                assert(dst != v);
                assert forall|kk: int| order0.len() < kk < order@.len() implies #[trigger] parent_listed_before(
                    order@,
                    parents@,
                    order0.len() as int,
                    kk,
                ) by {
                    if kk < pre_order.len() {
                        assert(parent_listed_before(pre_order, pre_parents, order0.len() as int, kk));
                        let i = choose|i: int|
                            order0.len() <= i < kk && pre_order[i] == pre_parents[pre_order[kk] as int].0;
                        assert(order@[i] == pre_order[i]);
                        assert(order@[kk] == pre_order[kk]);
                        assert(pre_visited[pre_order[kk] as int]);
                    } else if kk == pre_order.len() {
                        assert(order@[kk] == dst);
                        assert(order@[order0.len() as int] == v);
                    } else {
                        assert(parent_listed_before(order@, parents@, pre_order.len() as int, kk));
                    }
                }
                assert forall|u: int| 0 <= u < n && !start@[u] && visited@[u] && u != v implies #[trigger] closed_at(
                    edges@,
                    visited@,
                    u,
                ) by {
                    if pre_visited[u] {
                        assert(closed_at(edges@, pre_visited, u));
                        assert forall|jj: int| 0 <= jj < edges@[u]@.len() implies visited@[(#[trigger] edges@[u]@[jj]).1 as int] by {
                            assert(edges@[u]@[jj].1 < n);
                        }
                    }
                }
            }
        }
        proof {
            assert forall|jj: int| 0 <= jj < j + 1 implies visited@[(#[trigger] edges@[v as int]@[jj]).1 as int] by {
                if jj < j {
                    assert(pre_loop[edges@[v as int]@[jj].1 as int]);
                    assert(edges@[v as int]@[jj].1 < n);
                }
            }
        }
        j = j + 1;
    }
    proof {
        assert(closed_at(edges@, visited@, v as int));
        assert forall|u: int| 0 <= u < n && !start@[u] && visited@[u] implies #[trigger] closed_at(edges@, visited@, u) by {
            if u != v {
                assert(closed_at(edges@, visited@, u));
            }
        }
        if forall|u: int| 0 <= u < n ==> !start@[u] {
            assert forall|u: usize| #[trigger] reachable(edges@, v, u) implies visited@[u as int] by {
                assert forall|w: int| 0 <= w < visited@.len() && visited@[w] implies #[trigger] closed_at(edges@, visited@, w) by {
                    assert(!start@[w]);
                }
                lemma_closed_reach(edges@, visited@, v, u);
            }
        }
    }
    assert forall|u: int| 0 <= u < n && old(visited)@[u] implies parents@[u] == old(parents)@[u] by {
        assert(start@[u]);
        assert(parents@[u] == parents1[u]);
    }
}

/// Entry `i` of the walk `c` is reached over an edge of the entry before it
/// (of `v` for entry `from`), and over a tree edge unless it is the walk's
/// last entry.
pub open spec fn step_ok(
    edges: Seq<Vec<(usize, usize)>>,
    tree: Seq<Vec<(usize, usize)>>,
    c: Seq<(usize, usize)>,
    i: int,
    from: int,
    v: usize,
) -> bool {
    let prev = if i == from {
        v
    } else {
        c[i - 1].0
    };
    &&& prev < edges.len()
    &&& edges[prev as int]@.contains((c[i].1, c[i].0))
    &&& i < c.len() - 1 ==> tree[prev as int]@.contains((c[i].1, c[i].0))
}

/// From entry `from` on, each entry of `c` follows from the one before it,
/// the first of them from `v`.
pub open spec fn walk_ok(
    edges: Seq<Vec<(usize, usize)>>,
    tree: Seq<Vec<(usize, usize)>>,
    c: Seq<(usize, usize)>,
    from: int,
    v: usize,
) -> bool {
    forall|i: int|
        from <= i < c.len() ==> #[trigger] step_ok(edges, tree, c, i, from, v)
}

/// What `find_cycles` adds to `cycles`: walks that continue `path` from `v`,
/// follow edges, and return to `start_v` within `max_depth + 1` entries.
pub open spec fn cycles_from(
    edges: Seq<Vec<(usize, usize)>>,
    tree: Seq<Vec<(usize, usize)>>,
    added: Seq<Vec<(usize, usize)>>,
    path: Seq<(usize, usize)>,
    start_v: usize,
    v: usize,
    max_depth: int,
) -> bool {
    forall|k: int|
        0 <= k < added.len() ==> {
            let c = (#[trigger] added[k])@;
            &&& path.len() < c.len() <= max_depth + 1
            &&& c.subrange(0, path.len() as int) == path
            &&& c.last().0 == start_v
            &&& walk_ok(edges, tree, c, path.len() as int, v)
        }
}

proof fn lemma_cycles_push(
    edges: Seq<Vec<(usize, usize)>>,
    tree: Seq<Vec<(usize, usize)>>,
    added: Seq<Vec<(usize, usize)>>,
    c: Vec<(usize, usize)>,
    path: Seq<(usize, usize)>,
    start_v: usize,
    v: usize,
    max_depth: int,
)
    requires
        cycles_from(edges, tree, added, path, start_v, v, max_depth),
        cycles_from(edges, tree, seq![c], path, start_v, v, max_depth),
    ensures
        cycles_from(edges, tree, added.push(c), path, start_v, v, max_depth),
{
    assert forall|k: int| 0 <= k < added.len() + 1 implies {
        let cc = (#[trigger] added.push(c)[k])@;
        &&& path.len() < cc.len() <= max_depth + 1
        &&& cc.subrange(0, path.len() as int) == path
        &&& cc.last().0 == start_v
        &&& walk_ok(edges, tree, cc, path.len() as int, v)
    } by {
        if k == added.len() {
            assert(seq![c][0] == c);
        } else {
            assert(added.push(c)[k] == added[k]);
        }
    }
}

/// A walk that continues `path.push((dst, e))` from `dst`, where `(e, dst)`
/// is a tree edge of `v`, continues `path` from `v`.
proof fn lemma_cycles_extend(
    edges: Seq<Vec<(usize, usize)>>,
    tree: Seq<Vec<(usize, usize)>>,
    added: Seq<Vec<(usize, usize)>>,
    path: Seq<(usize, usize)>,
    start_v: usize,
    v: usize,
    dst: usize,
    e: usize,
    max_depth: int,
)
    requires
        tree_ok(edges, tree),
        v < edges.len(),
        tree[v as int]@.contains((e, dst)),
        cycles_from(edges, tree, added, path.push((dst, e)), start_v, dst, max_depth),
    ensures
        cycles_from(edges, tree, added, path, start_v, v, max_depth),
{
    let pp = path.push((dst, e));
    assert forall|k: int| 0 <= k < added.len() implies {
        let c = (#[trigger] added[k])@;
        &&& path.len() < c.len() <= max_depth + 1
        &&& c.subrange(0, path.len() as int) == path
        &&& c.last().0 == start_v
        &&& walk_ok(edges, tree, c, path.len() as int, v)
    } by {
        let c = added[k]@;
        assert(walk_ok(edges, tree, c, pp.len() as int, dst));
        assert(c.subrange(0, pp.len() as int) == pp);
        assert(c.subrange(0, path.len() as int) == pp.subrange(0, path.len() as int));
        assert(pp.subrange(0, path.len() as int) =~= path);
        assert(c[path.len() as int] == pp[path.len() as int]);
        let jj = choose|jj: int| 0 <= jj < tree[v as int]@.len() && tree[v as int]@[jj] == (e, dst);
        assert(edges[v as int]@.contains(tree[v as int]@[jj]));
        assert forall|i: int| path.len() <= i < c.len() implies #[trigger] step_ok(edges, tree, c, i, path.len() as int, v) by {
            if i == path.len() {
            } else {
                assert(step_ok(edges, tree, c, i, pp.len() as int, dst));
                if i == pp.len() {
                    assert(c[i - 1] == pp[i - 1]);
                }
            }
        }
    }
}

/// Collects into `cycles` the closed walks back to `start_v` that continue
/// `path` from `v` along tree edges and close over any edge, while `path`
/// has at most `max_depth` entries. Each entry is `(vertex, edge leading to it)`.
pub fn find_cycles(
    start_v: usize,
    v: usize,
    edges: &Vec<Vec<(usize, usize)>>,
    topo_vertex_edges: &Vec<Vec<(usize, usize)>>,
    path: &mut Vec<(usize, usize)>,
    cycles: &mut Vec<Vec<(usize, usize)>>,
    max_depth: usize,
)
    requires
        lists_ok(edges@, edges@.len() as int),
        tree_ok(edges@, topo_vertex_edges@),
        v < edges@.len(),
        max_depth < usize::MAX,
    ensures
        final(path)@ == old(path)@,
        final(cycles)@.len() >= old(cycles)@.len(),
        final(cycles)@.subrange(0, old(cycles)@.len() as int) == old(cycles)@,
        cycles_from(
            edges@,
            topo_vertex_edges@,
            final(cycles)@.subrange(old(cycles)@.len() as int, final(cycles)@.len() as int),
            old(path)@,
            start_v,
            v,
            max_depth as int,
        ),
        old(path)@.len() > max_depth ==> final(cycles)@ == old(cycles)@,
    decreases if old(path)@.len() > max_depth {
        0
    } else {
        max_depth + 1 - old(path)@.len()
    },
{
    if path.len() > max_depth {
        proof {
            assert(cycles@.subrange(cycles@.len() as int, cycles@.len() as int) =~= Seq::<Vec<(usize, usize)>>::empty());
            assert(cycles@.subrange(0, cycles@.len() as int) =~= cycles@);
        }
        return;
    }
    let ghost path0 = path@;
    let ghost cycles0 = cycles@;
    proof {
        assert(cycles@.subrange(0, cycles0.len() as int) =~= cycles0);
        assert(cycles@.subrange(cycles0.len() as int, cycles@.len() as int) =~= Seq::<Vec<(usize, usize)>>::empty());
    }
    let mut j: usize = 0;
    while j < edges[v].len()
        invariant
            lists_ok(edges@, edges@.len() as int),
            v < edges@.len(),
            path@ == path0,
            path0.len() <= max_depth,
            cycles@.len() >= cycles0.len(),
            cycles@.subrange(0, cycles0.len() as int) == cycles0,
            cycles_from(
                edges@,
                topo_vertex_edges@,
                cycles@.subrange(cycles0.len() as int, cycles@.len() as int),
                path0,
                start_v,
                v,
                max_depth as int,
            ),
        decreases edges@[v as int]@.len() - j,
    {
        let (edge_index, dst) = edges[v][j];
        if dst == start_v {
            path.push((dst, edge_index));
            let mut c: Vec<(usize, usize)> = Vec::new();
            let mut i: usize = 0;
            while i < path.len()
                invariant
                    i <= path@.len(),
                    c@ == path@.subrange(0, i as int),
                decreases path@.len() - i,
            {
                c.push(path[i]);
                proof {
                    assert(path@.subrange(0, i + 1 as int) == path@.subrange(0, i as int).push(path@[i as int]));
                }
                i = i + 1;
            }
            proof {
                assert(path@.subrange(0, path@.len() as int) == path@);
                assert(c@.subrange(0, path0.len() as int) =~= path0);
                assert(edges@[v as int]@[j as int] == (edge_index, dst));
                assert(step_ok(edges@, topo_vertex_edges@, c@, path0.len() as int, path0.len() as int, v));
                assert(walk_ok(edges@, topo_vertex_edges@, c@, path0.len() as int, v));
                assert(seq![c][0] == c);
                assert(cycles_from(edges@, topo_vertex_edges@, seq![c], path0, start_v, v, max_depth as int));
            }
            let ghost before = cycles@;
            cycles.push(c);
            path.pop();
            proof {
                assert(path@ =~= path0);
                lemma_cycles_push(
                    edges@,
                    topo_vertex_edges@,
                    before.subrange(cycles0.len() as int, before.len() as int),
                    c,
                    path0,
                    start_v,
                    v,
                    max_depth as int,
                );
                assert(cycles@.subrange(cycles0.len() as int, cycles@.len() as int) =~= before.subrange(
                    cycles0.len() as int,
                    before.len() as int,
                ).push(c));
                assert(cycles@.subrange(0, cycles0.len() as int) =~= before.subrange(0, cycles0.len() as int));
            }
        }
        j = j + 1;
    }
    let mut j: usize = 0;
    while j < topo_vertex_edges[v].len()
        invariant
            lists_ok(edges@, edges@.len() as int),
            tree_ok(edges@, topo_vertex_edges@),
            v < edges@.len(),
            path@ == path0,
            path0 == old(path)@,
            path0.len() <= max_depth,
            max_depth < usize::MAX,
            cycles@.len() >= cycles0.len(),
            cycles@.subrange(0, cycles0.len() as int) == cycles0,
            cycles_from(
                edges@,
                topo_vertex_edges@,
                cycles@.subrange(cycles0.len() as int, cycles@.len() as int),
                path0,
                start_v,
                v,
                max_depth as int,
            ),
        decreases topo_vertex_edges@[v as int]@.len() - j,
    {
        let (edge_index, dst) = topo_vertex_edges[v][j];
        proof {
            assert(topo_vertex_edges@[v as int]@.contains((edge_index, dst)));
            assert(edges@[v as int]@.contains(topo_vertex_edges@[v as int]@[j as int]));
            let jj = choose|jj: int|
                0 <= jj < edges@[v as int]@.len() && edges@[v as int]@[jj] == topo_vertex_edges@[v as int]@[j as int];
            assert(edges@[v as int]@[jj].1 < edges@.len());
        }
        let ghost before = cycles@;
        path.push((dst, edge_index));
        assert(path@.len() == old(path)@.len() + 1);
        let ghost pp = path@;
        find_cycles(start_v, dst, edges, topo_vertex_edges, path, cycles, max_depth);
        path.pop();
        proof {
            assert(path@ =~= path0);
            assert(pp == path0.push((dst, edge_index)));
            let mid = before.len() as int;
            lemma_cycles_extend(
                edges@,
                topo_vertex_edges@,
                cycles@.subrange(mid, cycles@.len() as int),
                path0,
                start_v,
                v,
                dst,
                edge_index,
                max_depth as int,
            );
            let a = cycles@.subrange(cycles0.len() as int, mid);
            let b = cycles@.subrange(mid, cycles@.len() as int);
            assert(a =~= before.subrange(cycles0.len() as int, mid));
            assert(cycles@.subrange(cycles0.len() as int, cycles@.len() as int) =~= a + b);
            assert(cycles_from(edges@, topo_vertex_edges@, a + b, path0, start_v, v, max_depth as int)) by {
                assert forall|k: int| 0 <= k < (a + b).len() implies {
                    let c = (#[trigger] (a + b)[k])@;
                    &&& path0.len() < c.len() <= max_depth + 1
                    &&& c.subrange(0, path0.len() as int) == path0
                    &&& c.last().0 == start_v
                    &&& walk_ok(edges@, topo_vertex_edges@, c, path0.len() as int, v)
                } by {
                    if k < a.len() {
                        assert((a + b)[k] == a[k]);
                    } else {
                        assert((a + b)[k] == b[k - a.len()]);
                    }
                }
            }
            assert(cycles@.subrange(0, cycles0.len() as int) =~= before.subrange(0, cycles0.len() as int));
        }
        j = j + 1;
    }
}

} // verus!
