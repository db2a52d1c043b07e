//! The shortest-path algorithm over [`crate::graph::Graph`] and
//! [`crate::pq::PriorityQueue`]: label-setting relaxation (Dijkstra) with
//! predecessor-chain path reconstruction.

use vstd::prelude::*;
use crate::graph::{Graph, graph_wf};
use crate::pq::{PriorityQueue, obeys_exact_eq};

verus! {

/// An edge from `u` to `v` of weight `wt` is stored in the adjacency lists.
pub open spec fn has_edge(g: Seq<Seq<(usize, usize)>>, u: int, v: int, wt: int) -> bool {
    &&& 0 <= u < g.len()
    &&& exists|j: int|
        0 <= j < g[u].len() && (#[trigger] g[u][j]).0 == v && g[u][j].1 == wt
}

/// `w` is a walk from `s` to `t`: a non-empty sequence of pairs (vertex,
/// weight of the edge taken into that vertex), starting at `(s, 0)`, each
/// later vertex entered over a stored edge from its predecessor.
pub open spec fn is_walk(g: Seq<Seq<(usize, usize)>>, s: int, t: int, w: Seq<(int, int)>) -> bool {
    &&& w.len() >= 1
    &&& w[0] == (s, 0int)
    &&& w[w.len() - 1].0 == t
    &&& forall|i: int| 0 <= i < w.len() ==> 0 <= (#[trigger] w[i]).0 < g.len()
    &&& forall|i: int| 1 <= i < w.len() ==> has_edge(g, w[i - 1].0, (#[trigger] w[i]).0, w[i].1)
}

/// Total weight of a walk.
pub open spec fn walk_cost(w: Seq<(int, int)>) -> int
    decreases w.len(),
{
    if w.len() == 0 {
        0
    } else {
        w[0].1 + walk_cost(w.skip(1))
    }
}

/// `dists` is exactly the profile of shortest-walk distances from `src`:
/// no walk is cheaper than the recorded distance, every finite recorded
/// distance is the cost of some walk, and the source itself has distance 0.
/// A vertex whose every walk from `src` would cost `usize::MAX` or more is
/// recorded as `usize::MAX`, the unreached sentinel.
pub open spec fn shortest_dists(g: Seq<Seq<(usize, usize)>>, src: usize, dists: Seq<usize>) -> bool {
    &&& dists.len() == g.len()
    &&& dists[src as int] == 0
    &&& forall|v: int, w: Seq<(int, int)>|
        0 <= v < g.len() && is_walk(g, src as int, v, w) ==> walk_cost(w) >= dists[v]
    &&& forall|v: int|
        0 <= v < g.len() && (#[trigger] dists[v]) < usize::MAX ==> exists|w: Seq<(int, int)>|
            is_walk(g, src as int, v, w) && walk_cost(w) == dists[v]
}

/// The reconstructed paths match the distances: a vertex has a path exactly
/// when it was reached; a recorded path spells out a walk from the source to
/// its vertex whose cost is the recorded distance; the source's own path is
/// just itself.
pub open spec fn paths_ok(
    g: Seq<Seq<(usize, usize)>>,
    src: usize,
    dists: Seq<usize>,
    paths: Seq<Option<Vec<usize>>>,
) -> bool {
    &&& paths.len() == g.len()
    &&& forall|v: int|
        0 <= v < g.len() ==> ((#[trigger] paths[v]) is Some <==> dists[v] < usize::MAX)
    &&& forall|v: int| 0 <= v < g.len() ==> match #[trigger] paths[v] {
        Some(p) => exists|w: Seq<(int, int)>|
            {
                &&& is_walk(g, src as int, v, w)
                &&& walk_cost(w) == dists[v]
                &&& w.len() == p@.len()
                &&& forall|i: int| 0 <= i < w.len() ==> (#[trigger] w[i]).0 == p@[i] as int
            },
        None => true,
    }
    &&& 0 <= src < g.len() ==> match paths[src as int] {
        Some(p) => p@ == seq![src],
        None => false,
    }
}

proof fn lemma_cost_push(w: Seq<(int, int)>, p: (int, int))
    ensures
        walk_cost(w.push(p)) == walk_cost(w) + p.1,
    decreases w.len(),
{
    if w.len() == 0 {
        assert(w.push(p).skip(1) =~= Seq::<(int, int)>::empty());
        assert(walk_cost(w.push(p).skip(1)) == 0);
        assert(w.push(p)[0] == p);
        assert(walk_cost(w.push(p)) == p.1 + walk_cost(w.push(p).skip(1)));
    } else {
        assert(w.push(p).skip(1) =~= w.skip(1).push(p));
        lemma_cost_push(w.skip(1), p);
        assert(w.push(p)[0] == w[0]);
        assert(walk_cost(w.push(p)) == w[0].1 + walk_cost(w.push(p).skip(1)));
        assert(walk_cost(w) == w[0].1 + walk_cost(w.skip(1)));
    }
}

/// Appending an edge `u -> v` of weight `wt` to a walk ending at `u` yields a
/// walk ending at `v`, its cost grown by `wt`.
proof fn lemma_walk_extend(
    g: Seq<Seq<(usize, usize)>>,
    s: int,
    u: int,
    w: Seq<(int, int)>,
    v: int,
    wt: int,
)
    requires
        is_walk(g, s, u, w),
        has_edge(g, u, v, wt),
        0 <= v < g.len(),
    ensures
        is_walk(g, s, v, w.push((v, wt))),
        walk_cost(w.push((v, wt))) == walk_cost(w) + wt,
{
    let w2 = w.push((v, wt));
    assert forall|i: int| 1 <= i < w2.len()
        implies has_edge(g, w2[i - 1].0, (#[trigger] w2[i]).0, w2[i].1) by {
        if i < w2.len() - 1 {
            assert(has_edge(g, w[i - 1].0, w[i].0, w[i].1));
        }
    }
    lemma_cost_push(w, (v, wt));
}

/// Prefixing a walk from `x` with an edge `u -> x` of weight `wt` yields a
/// walk from `u`, its cost grown by `wt`.
proof fn lemma_walk_prepend(
    g: Seq<Seq<(usize, usize)>>,
    u: int,
    x: int,
    wt: int,
    v: int,
    w: Seq<(int, int)>,
)
    requires
        is_walk(g, x, v, w),
        has_edge(g, u, x, wt),
        0 <= u < g.len(),
    ensures
        is_walk(g, u, v, seq![(u, 0int)] + w.update(0, (x, wt))),
        walk_cost(seq![(u, 0int)] + w.update(0, (x, wt))) == walk_cost(w) + wt,
{
    let w1 = w.update(0, (x, wt));
    let w2 = seq![(u, 0int)] + w1;
    assert(w2[0] == (u, 0int));
    assert(w2[w2.len() - 1].0 == v) by {
        if w.len() == 1 {
            assert(w2[w2.len() - 1] == (x, wt));
        } else {
            assert(w2[w2.len() - 1] == w[w.len() - 1]);
        }
    }
    assert forall|i: int| 1 <= i < w2.len()
        implies has_edge(g, w2[i - 1].0, (#[trigger] w2[i]).0, w2[i].1) by {
        if i == 1 {
            assert(w2[0].0 == u && w2[1] == (x, wt));
        } else {
            assert(w2[i] == w[i - 1]);
            assert(w2[i - 1].0 == w[i - 2].0);
            assert(has_edge(g, w[i - 2].0, w[i - 1].0, w[i - 1].1));
        }
    }
    assert(walk_cost(w2) == walk_cost(w) + wt) by {
        assert(w2.skip(1) =~= w1);
        assert(w1.skip(1) =~= w.skip(1));
        assert(walk_cost(w2) == 0 + walk_cost(w1));
        assert(walk_cost(w1) == wt + walk_cost(w1.skip(1)));
        assert(walk_cost(w) == w[0].1 + walk_cost(w.skip(1)));
        assert(w[0].1 == 0);
    }
}

/// The local relaxation inequalities propagate along any walk: if every
/// stored edge satisfies the triangle inequality over `dists` and the source
/// is recorded as 0, then no walk beats its endpoint's recorded distance.
proof fn lemma_walk_lower_bound(
    g: Seq<Seq<(usize, usize)>>,
    dists: Seq<usize>,
    src: int,
    t: int,
    w: Seq<(int, int)>,
)
    requires
        is_walk(g, src, t, w),
        dists.len() == g.len(),
        0 <= src < g.len(),
        dists[src] == 0,
        forall|u: int, j: int|
            0 <= u < g.len() && 0 <= j < g[u].len() ==> dists[(#[trigger] g[u][j]).0 as int]
                <= dists[u] + g[u][j].1,
    ensures
        dists[t] <= walk_cost(w),
    decreases w.len(),
{
    if w.len() == 1 {
        assert(t == src);
        assert(walk_cost(w) == w[0].1 + walk_cost(w.skip(1)));
        assert(w.skip(1) =~= Seq::<(int, int)>::empty());
    } else {
        let w0 = w.drop_last();
        let prev = w[w.len() - 2].0;
        assert(is_walk(g, src, prev, w0)) by {
            assert forall|i: int| 1 <= i < w0.len()
                implies has_edge(g, w0[i - 1].0, (#[trigger] w0[i]).0, w0[i].1) by {
                assert(has_edge(g, w[i - 1].0, w[i].0, w[i].1));
            }
        }
        lemma_walk_lower_bound(g, dists, src, prev, w0);
        assert(w =~= w0.push(w[w.len() - 1]));
        lemma_cost_push(w0, w[w.len() - 1]);
        let wt = w[w.len() - 1].1;
        assert(has_edge(g, prev, t, wt));
        let j = choose|j: int|
            0 <= j < g[prev].len() && (#[trigger] g[prev][j]).0 == t && g[prev][j].1 == wt;
        assert(dists[g[prev][j].0 as int] <= dists[prev] + g[prev][j].1);
    }
}

/// Relaxation is complete for every edge leaving a finalized vertex.
spec fn triangle_ok(g: Seq<Seq<(usize, usize)>>, dists: Seq<usize>, checked: Seq<bool>) -> bool {
    forall|u: int, j: int|
        0 <= u < g.len() && checked[u] && 0 <= j < g[u].len()
            ==> dists[(#[trigger] g[u][j]).0 as int] <= dists[u] + g[u][j].1
}

/// Every finite recorded distance is the cost of an actual walk from `src`.
spec fn dists_achievable(g: Seq<Seq<(usize, usize)>>, src: int, dists: Seq<usize>) -> bool {
    forall|v: int|
        0 <= v < g.len() && (#[trigger] dists[v]) < usize::MAX ==> exists|w: Seq<(int, int)>|
            is_walk(g, src, v, w) && walk_cost(w) == dists[v]
}

/// No finalized vertex sits farther than an unfinalized one.
spec fn frontier_ok(dists: Seq<usize>, checked: Seq<bool>) -> bool {
    forall|u: int, v: int|
        0 <= u < checked.len() && 0 <= v < checked.len() && checked[u] && !checked[v]
            ==> dists[u] <= dists[v]
}

/// Predecessor links record a tight incoming edge from a finalized vertex
/// (or from `pending`, the vertex being relaxed right now), and a vertex
/// without a link other than the source is unreached.
spec fn parents_ok(
    g: Seq<Seq<(usize, usize)>>,
    src: int,
    dists: Seq<usize>,
    checked: Seq<bool>,
    parents: Seq<Option<usize>>,
    pending: Option<int>,
) -> bool {
    &&& forall|v: int| 0 <= v < parents.len() ==> match #[trigger] parents[v] {
        Some(u) => {
            &&& (u as int) < g.len()
            &&& (checked[u as int] || Some(u as int) == pending)
            &&& dists[v] < usize::MAX
            &&& dists[u as int] <= dists[v]
            &&& has_edge(g, u as int, v, dists[v] - dists[u as int])
        },
        None => true,
    }
    &&& forall|v: int|
        0 <= v < parents.len() && (#[trigger] parents[v]) is None && v != src
            ==> dists[v] == usize::MAX
    &&& 0 <= src < parents.len() ==> parents[src] is None
}

/// Finalized vertices carry their finalization order; predecessor links point
/// strictly backwards in that order, which makes the chains acyclic.
spec fn ranks_ok(
    rank: Map<int, nat>,
    step: nat,
    checked: Seq<bool>,
    parents: Seq<Option<usize>>,
) -> bool {
    &&& forall|v: int| #[trigger] rank.dom().contains(v) ==> rank[v] < step
    &&& forall|v: int| 0 <= v < checked.len() && #[trigger] checked[v] ==> rank.dom().contains(v)
    &&& forall|v: int| 0 <= v < checked.len() && #[trigger] checked[v] ==> match parents[v] {
        Some(u) => rank.dom().contains(u as int) && rank[u as int] < rank[v],
        None => true,
    }
}

/// The queue holds exactly the unfinalized vertices (minus the one just
/// removed, when `removed` names it), each keyed by its recorded distance.
spec fn queue_ok(
    q: Map<usize, usize>,
    dists: Seq<usize>,
    checked: Seq<bool>,
    removed: Option<int>,
) -> bool {
    &&& forall|v: usize| #[trigger] q.dom().contains(v) ==> (v as int) < checked.len()
    &&& forall|v: int|
        0 <= v < checked.len() ==> (q.dom().contains(v as usize) <==> (!checked[v] && Some(v)
            != removed))
    &&& forall|v: usize| #[trigger] q.dom().contains(v) ==> q[v] == dists[v as int]
}

/// The bookkeeping of one successful relaxation: improving `v`'s distance to
/// `nd = dist_src + wt` over the edge `node -> v` keeps every finite distance
/// achievable, every predecessor link tight, and the finalization order
/// consistent.
proof fn lemma_relax_update(
    g: Seq<Seq<(usize, usize)>>,
    src: usize,
    node: usize,
    v: usize,
    wt: usize,
    nd: usize,
    dists0: Seq<usize>,
    parents0: Seq<Option<usize>>,
    checked: Seq<bool>,
    rank: Map<int, nat>,
    step: nat,
)
    requires
        graph_wf(g),
        (src as int) < g.len(),
        (node as int) < g.len(),
        (v as int) < g.len(),
        dists0.len() == g.len(),
        parents0.len() == g.len(),
        checked.len() == g.len(),
        dists0[src as int] == 0,
        !checked[node as int],
        !checked[v as int],
        v != node,
        v != src,
        nd == dists0[node as int] + wt,
        nd < dists0[v as int],
        has_edge(g, node as int, v as int, wt as int),
        dists_achievable(g, src as int, dists0),
        parents_ok(g, src as int, dists0, checked, parents0, Some(node as int)),
        ranks_ok(rank, step, checked, parents0),
    ensures
        dists_achievable(g, src as int, dists0.update(v as int, nd)),
        parents_ok(g, src as int, dists0.update(v as int, nd), checked, parents0.update(
            v as int,
            Some(node),
        ), Some(node as int)),
        ranks_ok(rank, step, checked, parents0.update(v as int, Some(node))),
{
    let dists1 = dists0.update(v as int, nd);
    let parents1 = parents0.update(v as int, Some(node));
    // achievability of the improved distance
    assert(dists0[node as int] < usize::MAX);
    let wu = choose|w: Seq<(int, int)>|
        is_walk(g, src as int, node as int, w) && walk_cost(w) == dists0[node as int];
    lemma_walk_extend(g, src as int, node as int, wu, v as int, wt as int);
    let wv = wu.push((v as int, wt as int));
    assert(is_walk(g, src as int, v as int, wv));
    assert(walk_cost(wv) == nd);
    assert forall|vv: int| 0 <= vv < g.len() && (#[trigger] dists1[vv]) < usize::MAX
        implies exists|w: Seq<(int, int)>|
            is_walk(g, src as int, vv, w) && walk_cost(w) == dists1[vv] by {
        if vv == v as int {
            assert(is_walk(g, src as int, vv, wv) && walk_cost(wv) == dists1[vv]);
        } else {
            assert(dists0[vv] == dists1[vv]);
            let w = choose|w: Seq<(int, int)>|
                is_walk(g, src as int, vv, w) && walk_cost(w) == dists0[vv];
            assert(is_walk(g, src as int, vv, w) && walk_cost(w) == dists1[vv]);
        }
    }
    // predecessor links survive the update
    assert forall|vv: int| 0 <= vv < parents1.len() implies match #[trigger] parents1[vv] {
        Some(u) => {
            &&& (u as int) < g.len()
            &&& (checked[u as int] || Some(u as int) == Some(node as int))
            &&& dists1[vv] < usize::MAX
            &&& dists1[u as int] <= dists1[vv]
            &&& has_edge(g, u as int, vv, dists1[vv] - dists1[u as int])
        },
        None => true,
    } by {
        if parents1[vv] is Some {
            let u = parents1[vv]->Some_0;
            if vv == v as int {
                assert(u == node);
                assert(dists1[vv] == nd);
                assert(dists1[u as int] == dists0[node as int]);
            } else {
                assert(parents1[vv] == parents0[vv]);
                assert(dists1[vv] == dists0[vv]);
                // the parent is finalized or the current node, neither of
                // which is `v`
                assert(checked[u as int] || u as int == node as int);
                assert(u != v);
                assert(dists1[u as int] == dists0[u as int]);
            }
        }
    }
    assert forall|vv: int|
        0 <= vv < parents1.len() && (#[trigger] parents1[vv]) is None && vv != src as int
        implies dists1[vv] == usize::MAX by {
        assert(vv != v as int);
    }
    // finalization order is untouched at finalized vertices
    assert forall|vv: int| 0 <= vv < checked.len() && #[trigger] checked[vv]
        implies match parents1[vv] {
        Some(u) => rank.dom().contains(u as int) && rank[u as int] < rank[vv],
        None => true,
    } by {
        assert(vv != v as int);
        assert(parents1[vv] == parents0[vv]);
    }
}

/// Relax the single edge `graph[node][j]`: update the neighbor's distance,
/// predecessor link and queue key when the sum `dist_src + weight` improves
/// on its recorded distance. A sum that would overflow saturates and never
/// updates.
#[verifier::loop_isolation(false)]
#[verifier::rlimit(100)]
fn relax_edge(
    graph: &Graph,
    src: usize,
    node: usize,
    dist_src: usize,
    j: usize,
    dists_from_src: &mut Vec<usize>,
    parents: &mut Vec<Option<usize>>,
    pq: &mut PriorityQueue<usize>,
    checked: &Vec<bool>,
    Ghost(rank): Ghost<Map<int, nat>>,
    Ghost(step): Ghost<nat>,
)
    requires
        src < graph@.len(),
        graph_wf(graph@),
        obeys_exact_eq::<usize>(),
        old(pq).wf(),
        old(pq)@.dom().finite(),
        checked@.len() == graph@.len(),
        old(dists_from_src)@.len() == graph@.len(),
        old(parents)@.len() == graph@.len(),
        old(dists_from_src)@[src as int] == 0,
        (node as int) < graph@.len(),
        !checked@[node as int],
        old(dists_from_src)@[node as int] == dist_src,
        (j as int) < graph@[node as int].len(),
        queue_ok(old(pq)@, old(dists_from_src)@, checked@, Some(node as int)),
        triangle_ok(graph@, old(dists_from_src)@, checked@),
        dists_achievable(graph@, src as int, old(dists_from_src)@),
        frontier_ok(old(dists_from_src)@, checked@),
        parents_ok(graph@, src as int, old(dists_from_src)@, checked@, old(parents)@,
            Some(node as int)),
        ranks_ok(rank, step, checked@, old(parents)@),
        forall|v: int|
            0 <= v < graph@.len() && !checked@[v] ==> dist_src
                <= #[trigger] old(dists_from_src)@[v],
    ensures
        final(pq).wf(),
        final(pq)@.dom().finite(),
        final(pq)@.dom() == old(pq)@.dom(),
        final(dists_from_src)@.len() == graph@.len(),
        final(parents)@.len() == graph@.len(),
        forall|k: int|
            0 <= k < graph@.len() ==> #[trigger] final(dists_from_src)@[k]
                <= old(dists_from_src)@[k],
        final(dists_from_src)@[node as int] == dist_src,
        final(dists_from_src)@[src as int] == 0,
        queue_ok(final(pq)@, final(dists_from_src)@, checked@, Some(node as int)),
        triangle_ok(graph@, final(dists_from_src)@, checked@),
        dists_achievable(graph@, src as int, final(dists_from_src)@),
        frontier_ok(final(dists_from_src)@, checked@),
        parents_ok(graph@, src as int, final(dists_from_src)@, checked@, final(parents)@,
            Some(node as int)),
        ranks_ok(rank, step, checked@, final(parents)@),
        forall|v: int|
            0 <= v < graph@.len() && !checked@[v] ==> dist_src
                <= #[trigger] final(dists_from_src)@[v],
        forall|k: int|
            0 <= k < graph@.len() && #[trigger] final(parents)@[k] != old(parents)@[k]
                ==> !checked@[k] && k != node as int,
        final(dists_from_src)@[(graph@[node as int][j as int]).0 as int]
            <= dist_src + graph@[node as int][j as int].1,
{
    let ghost g = graph@;
    let neighbors = graph.neighbors_of(node);
    let edge = neighbors[j];
    let v = edge.0;
    let wt = edge.1;
    proof {
        assert(g[node as int][j as int] == (v, wt));
        assert((v as int) < g.len());
    }
    if !checked[v] {
        if wt <= usize::MAX - dist_src {
            let nd = dist_src + wt;
            if nd < dists_from_src[v] {
                let ghost dists0 = dists_from_src@;
                let ghost parents0 = parents@;
                let ghost q1 = pq@;
                dists_from_src.set(v, nd);
                parents.set(v, Some(node));
                proof {
                    assert(v != node);
                    assert(v != src);
                    assert(q1.dom().contains(v));
                }
                pq.change_key(&v, nd);
                proof {
                    assert(pq@ == q1.insert(v, nd));
                    assert(pq@.dom() =~= q1.dom());
                    assert(has_edge(g, node as int, v as int, wt as int)) by {
                        assert((g[node as int][j as int]).0 == v
                            && g[node as int][j as int].1 == wt);
                    }
                    lemma_relax_update(g, src, node, v, wt, nd, dists0, parents0, checked@,
                        rank, step);
                    assert(dists_from_src@ =~= dists0.update(v as int, nd));
                    assert(parents@ =~= parents0.update(v as int, Some(node)));
                }
            }
        }
    }
    proof {
        assert(dists_from_src@[(g[node as int][j as int]).0 as int]
            <= dist_src + g[node as int][j as int].1) by {
            if checked@[v as int] {
                assert(dists_from_src@[v as int] <= dists_from_src@[node as int]);
            }
        }
    }
}

/// Relax every edge leaving `node`, freshly removed from the queue with key
/// `dist_src`.
#[verifier::loop_isolation(false)]
#[verifier::rlimit(100)]
fn relax_neighbors(
    graph: &Graph,
    src: usize,
    node: usize,
    dist_src: usize,
    dists_from_src: &mut Vec<usize>,
    parents: &mut Vec<Option<usize>>,
    pq: &mut PriorityQueue<usize>,
    checked: &Vec<bool>,
    Ghost(rank): Ghost<Map<int, nat>>,
    Ghost(step): Ghost<nat>,
)
    requires
        src < graph@.len(),
        graph_wf(graph@),
        obeys_exact_eq::<usize>(),
        old(pq).wf(),
        old(pq)@.dom().finite(),
        checked@.len() == graph@.len(),
        old(dists_from_src)@.len() == graph@.len(),
        old(parents)@.len() == graph@.len(),
        old(dists_from_src)@[src as int] == 0,
        (node as int) < graph@.len(),
        !checked@[node as int],
        old(dists_from_src)@[node as int] == dist_src,
        queue_ok(old(pq)@, old(dists_from_src)@, checked@, Some(node as int)),
        triangle_ok(graph@, old(dists_from_src)@, checked@),
        dists_achievable(graph@, src as int, old(dists_from_src)@),
        frontier_ok(old(dists_from_src)@, checked@),
        parents_ok(graph@, src as int, old(dists_from_src)@, checked@, old(parents)@,
            Some(node as int)),
        ranks_ok(rank, step, checked@, old(parents)@),
        forall|v: int|
            0 <= v < graph@.len() && !checked@[v] ==> dist_src
                <= #[trigger] old(dists_from_src)@[v],
        (match old(parents)@[node as int] {
            Some(u) => (u as int) < graph@.len() && checked@[u as int],
            None => true,
        }),
    ensures
        final(pq).wf(),
        final(pq)@.dom().finite(),
        final(pq)@.dom() == old(pq)@.dom(),
        final(dists_from_src)@.len() == graph@.len(),
        final(parents)@.len() == graph@.len(),
        final(dists_from_src)@[src as int] == 0,
        final(dists_from_src)@[node as int] == dist_src,
        queue_ok(final(pq)@, final(dists_from_src)@, checked@, Some(node as int)),
        triangle_ok(graph@, final(dists_from_src)@, checked@),
        dists_achievable(graph@, src as int, final(dists_from_src)@),
        frontier_ok(final(dists_from_src)@, checked@),
        parents_ok(graph@, src as int, final(dists_from_src)@, checked@, final(parents)@,
            Some(node as int)),
        ranks_ok(rank, step, checked@, final(parents)@),
        forall|v: int|
            0 <= v < graph@.len() && !checked@[v] ==> dist_src
                <= #[trigger] final(dists_from_src)@[v],
        (match final(parents)@[node as int] {
            Some(u) => (u as int) < graph@.len() && checked@[u as int],
            None => true,
        }),
        forall|jj: int|
            0 <= jj < graph@[node as int].len()
                ==> final(dists_from_src)@[(#[trigger] graph@[node as int][jj]).0 as int]
                    <= dist_src + graph@[node as int][jj].1,
{
    let ghost g = graph@;
    let ghost n_elems = graph@.len();
    let n_nb = graph.neighbors_of(node).len();
    let mut j: usize = 0;
    while j < n_nb
        invariant
            j <= n_nb,
            n_nb == g[node as int].len(),
            pq.wf(),
            pq@.dom().finite(),
            pq@.dom() == old(pq)@.dom(),
            dists_from_src@.len() == n_elems,
            parents@.len() == n_elems,
            dists_from_src@[src as int] == 0,
            dists_from_src@[node as int] == dist_src,
            queue_ok(pq@, dists_from_src@, checked@, Some(node as int)),
            triangle_ok(g, dists_from_src@, checked@),
            dists_achievable(g, src as int, dists_from_src@),
            frontier_ok(dists_from_src@, checked@),
            parents_ok(g, src as int, dists_from_src@, checked@, parents@, Some(node as int)),
            ranks_ok(rank, step, checked@, parents@),
            (match parents@[node as int] {
                Some(u) => (u as int) < n_elems && checked@[u as int],
                None => true,
            }),
            forall|v: int|
                0 <= v < n_elems && !checked@[v] ==> dist_src
                    <= #[trigger] dists_from_src@[v],
            forall|jj: int|
                0 <= jj < j ==> dists_from_src@[(#[trigger] g[node as int][jj]).0 as int]
                    <= dist_src + g[node as int][jj].1,
        decreases n_nb - j,
    {
        let ghost dists_before = dists_from_src@;
        let ghost parents_before = parents@;
        relax_edge(graph, src, node, dist_src, j, dists_from_src, parents, pq, checked,
            Ghost(rank), Ghost(step));
        proof {
            assert forall|jj: int|
                0 <= jj < j + 1
                implies dists_from_src@[(#[trigger] g[node as int][jj]).0 as int]
                    <= dist_src + g[node as int][jj].1 by {
                if jj < j {
                    assert(dists_from_src@[(g[node as int][jj]).0 as int]
                        <= dists_before[(g[node as int][jj]).0 as int]);
                }
            }
            assert(parents@[node as int] == parents_before[node as int]);
        }
        j += 1;
    }
}

/// Walk the predecessor chain from `v` back to the source and return the
/// forward path, or `None` when `v` was never reached. The chain is acyclic
/// because every link points to a vertex finalized strictly earlier.
#[verifier::loop_isolation(false)]
#[verifier::rlimit(60)]
fn reconstruct_path(
    src: usize,
    v: usize,
    dists_from_src: &Vec<usize>,
    parents: &Vec<Option<usize>>,
    Ghost(g): Ghost<Seq<Seq<(usize, usize)>>>,
    Ghost(checked): Ghost<Seq<bool>>,
    Ghost(rank): Ghost<Map<int, nat>>,
    Ghost(step): Ghost<nat>,
) -> (r: Option<Vec<usize>>)
    requires
        graph_wf(g),
        dists_from_src@.len() == g.len(),
        parents@.len() == g.len(),
        checked.len() == g.len(),
        src < g.len(),
        (v as int) < g.len(),
        dists_from_src@[src as int] == 0,
        forall|k: int| 0 <= k < g.len() ==> #[trigger] checked[k],
        parents_ok(g, src as int, dists_from_src@, checked, parents@, None),
        ranks_ok(rank, step, checked, parents@),
    ensures
        (r is Some <==> dists_from_src@[v as int] < usize::MAX),
        (match r {
            Some(p) => exists|w: Seq<(int, int)>|
                {
                    &&& is_walk(g, src as int, v as int, w)
                    &&& walk_cost(w) == dists_from_src@[v as int]
                    &&& w.len() == p@.len()
                    &&& forall|ii: int| 0 <= ii < w.len() ==> (#[trigger] w[ii]).0 == p@[ii] as int
                },
            None => true,
        }),
        v == src ==> match r {
            Some(p) => p@ == seq![src],
            None => false,
        },
{
    let mut path: Vec<usize> = Vec::new();
    path.push(v);
    let mut x = v;
    let ghost mut wseq: Seq<(int, int)> = seq![(v as int, 0int)];
    proof {
        assert(wseq.skip(1) =~= Seq::<(int, int)>::empty());
        assert(walk_cost(Seq::<(int, int)>::empty()) == 0);
        assert(walk_cost(wseq) == 0);
        if dists_from_src@[v as int] < usize::MAX {
            assert(is_walk(g, v as int, v as int, wseq));
        }
        assert(checked[v as int]);
        assert(rank.dom().contains(v as int));
    }
    let mut px = parents[x];
    while px.is_some()
        invariant
            x < g.len(),
            px == parents@[x as int],
            path@.len() >= 1,
            path@[0] == v,
            path@[path@.len() - 1] == x,
            dists_from_src@[x as int] <= dists_from_src@[v as int],
            dists_from_src@[v as int] < usize::MAX ==> {
                &&& is_walk(g, x as int, v as int, wseq)
                &&& walk_cost(wseq) == dists_from_src@[v as int] - dists_from_src@[x as int]
                &&& wseq.len() == path@.len()
                &&& forall|ii: int|
                    0 <= ii < wseq.len() ==> (#[trigger] wseq[ii]).0
                        == path@[path@.len() - 1 - ii] as int
            },
            dists_from_src@[v as int] == usize::MAX ==> x == v && path@.len() == 1,
            v == src ==> x == v && path@.len() == 1,
            rank.dom().contains(x as int),
        decreases rank[x as int],
    {
        let u = px.unwrap();
        proof {
            assert(checked[x as int]);
            assert((u as int) < g.len());
            assert(checked[u as int]);
            assert(dists_from_src@[x as int] < usize::MAX);
            if dists_from_src@[v as int] == usize::MAX {
                assert(x == v);
                assert(dists_from_src@[v as int] < usize::MAX);
            }
            assert(rank[u as int] < rank[x as int]);
        }
        path.push(u);
        proof {
            let ghost old_wseq = wseq;
            let dx = dists_from_src@[x as int] as int;
            let du2 = dists_from_src@[u as int] as int;
            let wt = dx - du2;
            assert(has_edge(g, u as int, x as int, wt));
            lemma_walk_prepend(g, u as int, x as int, wt, v as int, old_wseq);
            wseq = seq![(u as int, 0int)] + old_wseq.update(0, (x as int, wt));
            assert(wseq.len() == path@.len());
            assert forall|ii: int| 0 <= ii < wseq.len()
                implies (#[trigger] wseq[ii]).0 == path@[path@.len() - 1 - ii] as int by {
                if ii == 0 {
                    assert(wseq[0].0 == u as int);
                    assert(path@[path@.len() - 1] == u);
                } else {
                    assert(wseq[ii] == old_wseq.update(0, (x as int, wt))[ii - 1]);
                    if ii == 1 {
                        assert(wseq[ii].0 == x as int);
                    } else {
                        assert(wseq[ii].0 == old_wseq[ii - 1].0);
                    }
                    assert(path@[path@.len() - 1 - ii]
                        == path@.drop_last()[path@.len() - 2 - (ii - 1)]);
                }
            }
        }
        x = u;
        px = parents[x];
    }
    proof {
        assert(parents@[x as int] is None);
        if dists_from_src@[v as int] < usize::MAX {
            assert(dists_from_src@[x as int] < usize::MAX);
            if x != src {
                assert(dists_from_src@[x as int] == usize::MAX);
            }
            assert(x == src);
        }
    }
    let plen = path.len();
    let mut rev: Vec<usize> = Vec::new();
    let mut k = plen;
    while k > 0
        invariant
            k <= plen,
            rev@.len() == plen - k,
            forall|ii: int| 0 <= ii < rev@.len() ==> (#[trigger] rev@[ii])
                == path@[plen - 1 - ii],
        decreases k,
    {
        k -= 1;
        rev.push(path[k]);
    }
    let is_path = rev.len() > 1 || rev[0] == src;
    let entry = if is_path { Some(rev) } else { None };
    proof {
        if dists_from_src@[v as int] < usize::MAX {
            assert(x == src);
            match &entry {
                Some(p) => {
                    assert(p@.len() == path@.len());
                    assert forall|ii: int| 0 <= ii < wseq.len()
                        implies (#[trigger] wseq[ii]).0 == p@[ii] as int by {
                        assert(wseq[ii].0 == path@[path@.len() - 1 - ii] as int);
                        assert(p@[ii] == path@[plen - 1 - ii]);
                    }
                    assert(is_walk(g, src as int, v as int, wseq));
                    assert(walk_cost(wseq) == dists_from_src@[v as int]);
                    if v == src {
                        assert(p@ =~= seq![src]);
                    }
                }
                None => {
                    // a reached vertex always gets a path
                    if v == src {
                        assert(rev@[0] == src);
                    } else {
                        assert(wseq.len() >= 2);
                        assert(rev@.len() >= 2);
                    }
                    assert(false);
                }
            }
        } else {
            assert(x == v && path@.len() == 1);
            assert(v != src);
            assert(rev@.len() == 1);
            assert(rev@[0] == v);
            match &entry {
                Some(p) => {
                    assert(false);
                }
                None => {}
            }
        }
    }
    entry
}

/// Finalize `node`, freshly removed from the queue with key `dist_src`:
/// record its finalization order, relax its outgoing edges and mark it
/// finalized, restoring the phase invariants.
#[verifier::loop_isolation(false)]
#[verifier::rlimit(100)]
fn process_node(
    graph: &Graph,
    src: usize,
    node: usize,
    dist_src: usize,
    dists_from_src: &mut Vec<usize>,
    parents: &mut Vec<Option<usize>>,
    checked: &mut Vec<bool>,
    pq: &mut PriorityQueue<usize>,
    Ghost(rank): Ghost<Map<int, nat>>,
    Ghost(step): Ghost<nat>,
) -> (r: (Ghost<Map<int, nat>>, Ghost<nat>))
    requires
        src < graph@.len(),
        graph_wf(graph@),
        obeys_exact_eq::<usize>(),
        old(pq).wf(),
        old(pq)@.dom().finite(),
        old(checked)@.len() == graph@.len(),
        old(dists_from_src)@.len() == graph@.len(),
        old(parents)@.len() == graph@.len(),
        old(dists_from_src)@[src as int] == 0,
        (node as int) < graph@.len(),
        !old(checked)@[node as int],
        old(dists_from_src)@[node as int] == dist_src,
        queue_ok(old(pq)@, old(dists_from_src)@, old(checked)@, Some(node as int)),
        triangle_ok(graph@, old(dists_from_src)@, old(checked)@),
        dists_achievable(graph@, src as int, old(dists_from_src)@),
        frontier_ok(old(dists_from_src)@, old(checked)@),
        parents_ok(graph@, src as int, old(dists_from_src)@, old(checked)@, old(parents)@, None),
        ranks_ok(rank, step, old(checked)@, old(parents)@),
        forall|v: int|
            0 <= v < graph@.len() && !old(checked)@[v] ==> dist_src
                <= #[trigger] old(dists_from_src)@[v],
    ensures
        final(pq).wf(),
        final(pq)@.dom().finite(),
        final(pq)@.dom() == old(pq)@.dom(),
        final(dists_from_src)@.len() == graph@.len(),
        final(parents)@.len() == graph@.len(),
        final(checked)@.len() == graph@.len(),
        final(checked)@ == old(checked)@.update(node as int, true),
        final(dists_from_src)@[src as int] == 0,
        queue_ok(final(pq)@, final(dists_from_src)@, final(checked)@, None),
        triangle_ok(graph@, final(dists_from_src)@, final(checked)@),
        dists_achievable(graph@, src as int, final(dists_from_src)@),
        frontier_ok(final(dists_from_src)@, final(checked)@),
        parents_ok(graph@, src as int, final(dists_from_src)@, final(checked)@, final(parents)@,
            None),
        ranks_ok(r.0@, r.1@, final(checked)@, final(parents)@),
{
    let ghost g = graph@;
    let ghost n_elems = graph@.len();
    let ghost rank2 = rank.insert(node as int, step);
    let ghost step2 = step + 1;
    proof {
        assert forall|vv: int| 0 <= vv < n_elems && #[trigger] checked@[vv]
            implies rank2.dom().contains(vv) && rank2[vv] < rank2[node as int] by {
            assert(vv != node as int);
        }
        assert(ranks_ok(rank2, step2, checked@, parents@));
    }
    relax_neighbors(graph, src, node, dist_src, dists_from_src, parents, pq, &*checked,
        Ghost(rank2), Ghost(step2));
    checked.set(node, true);
    proof {
        assert(queue_ok(pq@, dists_from_src@, checked@, None));
        assert(triangle_ok(g, dists_from_src@, checked@)) by {
            assert forall|u: int, jj: int|
                0 <= u < g.len() && checked@[u] && 0 <= jj < g[u].len()
                implies dists_from_src@[(#[trigger] g[u][jj]).0 as int]
                    <= dists_from_src@[u] + g[u][jj].1 by {
                if u == node as int {
                    assert(dists_from_src@[(g[node as int][jj]).0 as int]
                        <= dist_src + g[node as int][jj].1);
                }
            }
        }
        assert(frontier_ok(dists_from_src@, checked@));
        assert(parents_ok(g, src as int, dists_from_src@, checked@, parents@, None));
        assert(ranks_ok(rank2, step2, checked@, parents@));
    }
    (Ghost(rank2), Ghost(step2))
}

/// The queue-driven phase: seed the distances and the queue, then repeatedly
/// extract a minimum vertex and relax its edges, finalizing vertices until
/// the queue is exhausted. Returns the distances, the predecessor links, the
/// finalization markers and the ghost finalization order.
#[verifier::loop_isolation(false)]
#[verifier::rlimit(100)]
fn compute_tree(graph: &Graph, src: usize) -> (r: (
    Vec<usize>,
    Vec<Option<usize>>,
    Vec<bool>,
    Ghost<Map<int, nat>>,
    Ghost<nat>,
))
    requires
        src < graph@.len(),
        graph_wf(graph@),
    ensures
        r.0@.len() == graph@.len(),
        r.1@.len() == graph@.len(),
        r.2@.len() == graph@.len(),
        r.0@[src as int] == 0,
        forall|v: int| 0 <= v < graph@.len() ==> #[trigger] r.2@[v],
        triangle_ok(graph@, r.0@, r.2@),
        dists_achievable(graph@, src as int, r.0@),
        parents_ok(graph@, src as int, r.0@, r.2@, r.1@, None),
        ranks_ok(r.3@, r.4@, r.2@, r.1@),
{
    let ghost g = graph@;
    let n_elems = graph.n_vertices();
    let mut parents: Vec<Option<usize>> = Vec::new();
    let mut dists_from_src: Vec<usize> = Vec::new();
    let mut checked: Vec<bool> = Vec::new();
    let mut ids: Vec<usize> = Vec::new();
    let mut i: usize = 0;
    while i < n_elems
        invariant
            i <= n_elems,
            parents@.len() == i as int,
            dists_from_src@.len() == i as int,
            checked@.len() == i as int,
            ids@.len() == i as int,
            forall|k: int| 0 <= k < i ==> (#[trigger] parents@[k]) is None,
            forall|k: int| 0 <= k < i ==> (#[trigger] dists_from_src@[k]) == usize::MAX,
            forall|k: int| 0 <= k < i ==> !(#[trigger] checked@[k]),
            forall|k: int| 0 <= k < i ==> (#[trigger] ids@[k]) == k,
        decreases n_elems - i,
    {
        parents.push(None);
        dists_from_src.push(usize::MAX);
        checked.push(false);
        ids.push(i);
        i += 1;
    }
    let ghost ids0 = ids@;
    let mut pq: PriorityQueue<usize> = PriorityQueue::from_keys(ids);
    dists_from_src.set(src, 0);
    proof {
        assert(ids0.contains(src)) by {
            assert(ids0[src as int] == src);
        }
    }
    pq.change_key(&src, 0);
    let ghost mut rank: Map<int, nat> = Map::empty();
    let ghost mut step: nat = 0;
    proof {
        let q1 = Map::new(|t: usize| ids0.contains(t), |t: usize| usize::MAX);
        assert(pq@ == q1.insert(src, 0));
        assert forall|t: usize| #[trigger] ids0.contains(t) implies (t as int) < n_elems by {
            let k = choose|k: int| 0 <= k < ids0.len() && ids0[k] == t;
        }
        assert forall|t: usize| (t as int) < n_elems implies ids0.contains(t) by {
            assert(ids0[t as int] == t);
        }
        assert(queue_ok(pq@, dists_from_src@, checked@, None));
        assert(dists_achievable(g, src as int, dists_from_src@)) by {
            let w0: Seq<(int, int)> = seq![(src as int, 0int)];
            assert(w0.skip(1) =~= Seq::<(int, int)>::empty());
            assert(walk_cost(Seq::<(int, int)>::empty()) == 0);
            assert(walk_cost(w0) == 0);
            assert(is_walk(g, src as int, src as int, w0));
            assert forall|v: int|
                0 <= v < g.len() && (#[trigger] dists_from_src@[v]) < usize::MAX
                implies exists|w: Seq<(int, int)>|
                    is_walk(g, src as int, v, w) && walk_cost(w) == dists_from_src@[v] by {
                assert(v == src as int);
                assert(is_walk(g, src as int, v, w0) && walk_cost(w0) == dists_from_src@[v]);
            }
        }
    }
    let mut m = pq.extract_min();
    while m.is_some()
        invariant
            pq.wf(),
            pq@.dom().finite(),
            dists_from_src@.len() == n_elems,
            checked@.len() == n_elems,
            parents@.len() == n_elems,
            dists_from_src@[src as int] == 0,
            triangle_ok(g, dists_from_src@, checked@),
            dists_achievable(g, src as int, dists_from_src@),
            frontier_ok(dists_from_src@, checked@),
            parents_ok(g, src as int, dists_from_src@, checked@, parents@, None),
            ranks_ok(rank, step, checked@, parents@),
            (match m {
                Some(pair) => {
                    &&& (pair.0 as int) < n_elems
                    &&& !checked@[pair.0 as int]
                    &&& dists_from_src@[pair.0 as int] == pair.1
                    &&& queue_ok(pq@, dists_from_src@, checked@, Some(pair.0 as int))
                    &&& forall|v: int|
                        0 <= v < n_elems && !checked@[v] ==> pair.1
                            <= #[trigger] dists_from_src@[v]
                },
                None => {
                    &&& (forall|v: int| 0 <= v < n_elems ==> #[trigger] checked@[v])
                    &&& queue_ok(pq@, dists_from_src@, checked@, None)
                },
            }),
        decreases pq@.dom().len() + (if m is Some { 1int } else { 0int }),
    {
        let pair = m.unwrap();
        let node = pair.0;
        let dist_src = pair.1;
        let (rank2, step2) = process_node(graph, src, node, dist_src, &mut dists_from_src,
            &mut parents, &mut checked, &mut pq, Ghost(rank), Ghost(step));
        proof {
            rank = rank2@;
            step = step2@;
        }
        let ghost q2 = pq@;
        m = pq.extract_min();
        proof {
            match m {
                Some(p2) => {
                    assert(q2.dom().contains(p2.0));
                    assert((p2.0 as int) < n_elems);
                    assert(!checked@[p2.0 as int]);
                    assert(dists_from_src@[p2.0 as int] == p2.1);
                    assert forall|v: int| 0 <= v < n_elems && !checked@[v]
                        implies p2.1 <= #[trigger] dists_from_src@[v] by {
                        assert(q2.dom().contains(v as usize));
                        assert(p2.1 <= q2[v as usize]);
                    }
                }
                None => {
                    assert forall|v: int| 0 <= v < n_elems implies #[trigger] checked@[v] by {
                        if !checked@[v] {
                            assert(q2.dom().contains(v as usize));
                        }
                    }
                }
            }
        }
    }
    (dists_from_src, parents, checked, Ghost(rank), Ghost(step))
}

/// Djikstra's algorithm over a graph and a source vertex. For each vertex in
/// id order it returns the optional path from the source (`None` when the
/// vertex is unreached, the single-element path for the source itself) and
/// the shortest distance, with `usize::MAX` as the unreached sentinel.
/// A sum of weights that would overflow saturates at the sentinel.
#[verifier::loop_isolation(false)]
#[verifier::rlimit(100)]
pub fn djikstra(graph: &Graph, src: usize) -> (r: (Vec<Option<Vec<usize>>>, Vec<usize>))
    requires
        src < graph@.len(),
        graph_wf(graph@),
    ensures
        shortest_dists(graph@, src, r.1@),
        paths_ok(graph@, src, r.1@, r.0@),
{
    let ghost g = graph@;
    let n_elems = graph.n_vertices();
    let (dists_from_src, parents, checked, rank_g, step_g) = compute_tree(graph, src);
    let ghost rank = rank_g@;
    let ghost step = step_g@;
    // Reconstruct each vertex's path by walking the predecessor chain.
    let mut paths_from_src: Vec<Option<Vec<usize>>> = Vec::new();
    let mut v: usize = 0;
    while v < n_elems
        invariant
            v <= n_elems,
            paths_from_src@.len() == v as int,
            forall|k: int| 0 <= k < v
                ==> ((#[trigger] paths_from_src@[k]) is Some
                    <==> dists_from_src@[k] < usize::MAX),
            forall|k: int| 0 <= k < v ==> match #[trigger] paths_from_src@[k] {
                Some(p) => exists|w: Seq<(int, int)>|
                    {
                        &&& is_walk(g, src as int, k, w)
                        &&& walk_cost(w) == dists_from_src@[k]
                        &&& w.len() == p@.len()
                        &&& forall|ii: int|
                            0 <= ii < w.len() ==> (#[trigger] w[ii]).0 == p@[ii] as int
                    },
                None => true,
            },
            (src as int) < v ==> match paths_from_src@[src as int] {
                Some(p) => p@ == seq![src],
                None => false,
            },
        decreases n_elems - v,
    {
        let entry = reconstruct_path(src, v, &dists_from_src, &parents, Ghost(g),
            Ghost(checked@), Ghost(rank), Ghost(step));
        paths_from_src.push(entry);
        v += 1;
    }
    proof {
        assert forall|vv: int, w: Seq<(int, int)>|
            0 <= vv < g.len() && is_walk(g, src as int, vv, w)
            implies walk_cost(w) >= dists_from_src@[vv] by {
            assert forall|u: int, j: int|
                0 <= u < g.len() && 0 <= j < g[u].len()
                implies dists_from_src@[(#[trigger] g[u][j]).0 as int]
                    <= dists_from_src@[u] + g[u][j].1 by {
                assert(checked@[u]);
            }
            lemma_walk_lower_bound(g, dists_from_src@, src as int, vv, w);
        }
        assert(shortest_dists(g, src, dists_from_src@));
        assert(paths_ok(g, src, dists_from_src@, paths_from_src@));
    }
    (paths_from_src, dists_from_src)
}

/// The error returned when a boundary precondition is violated: the source
/// vertex or a stored neighbor id is not a valid vertex index.
#[derive(Debug, PartialEq, Eq)]
pub struct OutOfBoundsError;

/// Check that every stored neighbor id is a valid vertex index.
#[verifier::loop_isolation(false)]
fn check_graph_wf(graph: &Graph) -> (r: bool)
    ensures
        r == graph_wf(graph@),
{
    let n = graph.n_vertices();
    let mut u: usize = 0;
    while u < n
        invariant
            u <= n,
            forall|uu: int, j: int|
                0 <= uu < u && 0 <= j < graph@[uu].len()
                    ==> ((#[trigger] graph@[uu][j]).0 as int) < n,
        decreases n - u,
    {
        let neighbors = graph.neighbors_of(u);
        let m = neighbors.len();
        let mut j: usize = 0;
        while j < m
            invariant
                j <= m,
                forall|jj: int|
                    0 <= jj < j ==> ((#[trigger] graph@[u as int][jj]).0 as int) < n,
        decreases m - j,
        {
            if neighbors[j].0 >= n {
                return false;
            }
            j += 1;
        }
        u += 1;
    }
    true
}

/// Run the algorithm only after validating its boundary preconditions,
/// reporting a violation of either as an explicit error instead of asking
/// the caller to uphold them.
pub fn djikstra_checked(graph: &Graph, src: usize) -> (r: Result<
    (Vec<Option<Vec<usize>>>, Vec<usize>),
    OutOfBoundsError,
>)
    ensures
        r is Ok <==> (src < graph@.len() && graph_wf(graph@)),
        match r {
            Ok(pd) => shortest_dists(graph@, src, pd.1@) && paths_ok(graph@, src, pd.1@, pd.0@),
            Err(e) => e == OutOfBoundsError,
        },
{
    if src >= graph.n_vertices() {
        return Err(OutOfBoundsError);
    }
    if !check_graph_wf(graph) {
        return Err(OutOfBoundsError);
    }
    Ok(djikstra(graph, src))
}

/// Law: under [`shortest_dists`], a vertex is recorded with the unreached
/// sentinel exactly when no walk from the source reaches it with a cost
/// below the sentinel.
pub proof fn lemma_unreached_iff_no_walk(
    g: Seq<Seq<(usize, usize)>>,
    src: usize,
    dists: Seq<usize>,
    v: int,
)
    requires
        shortest_dists(g, src, dists),
        0 <= v < g.len(),
    ensures
        dists[v] == usize::MAX <==> !(exists|w: Seq<(int, int)>|
            is_walk(g, src as int, v, w) && walk_cost(w) < usize::MAX),
{
    if dists[v] == usize::MAX {
        if exists|w: Seq<(int, int)>| is_walk(g, src as int, v, w) && walk_cost(w) < usize::MAX {
            let w = choose|w: Seq<(int, int)>|
                is_walk(g, src as int, v, w) && walk_cost(w) < usize::MAX;
            assert(walk_cost(w) >= dists[v]);
        }
    } else {
        let w = choose|w: Seq<(int, int)>|
            is_walk(g, src as int, v, w) && walk_cost(w) == dists[v];
        assert(is_walk(g, src as int, v, w) && walk_cost(w) < usize::MAX);
    }
}

} // verus!
