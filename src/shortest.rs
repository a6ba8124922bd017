use vstd::prelude::*;
use crate::graph::{Edge, Graph};

verus! {

/// Edge `ks[i]` ends where edge `ks[i + 1]` starts.
pub open spec fn chained(es: Seq<Edge>, ks: Seq<int>, i: int) -> bool {
    es[ks[i]].to == es[ks[i + 1]].from
}

/// `ks` lists positions of edges of `es` that lead, one after the other,
/// from node `a` to node `b`; empty when `a == b`.
pub open spec fn is_route(es: Seq<Edge>, ks: Seq<int>, a: int, b: int) -> bool {
    &&& forall|i: int| 0 <= i < ks.len() ==> 0 <= #[trigger] ks[i] < es.len()
    &&& forall|i: int| 0 <= i < ks.len() - 1 ==> #[trigger] chained(es, ks, i)
    &&& if ks.len() == 0 {
        a == b
    } else {
        es[ks[0]].from == a && es[ks.last()].to == b
    }
}

/// The sum of the weights of the edges `ks`.
pub open spec fn route_cost(es: Seq<Edge>, ks: Seq<int>) -> int
    decreases ks.len(),
{
    if ks.len() == 0 {
        0
    } else {
        route_cost(es, ks.drop_last()) + es[ks.last()].weight
    }
}

/// The nodes that the route `ks` from `a` passes, `a` first.
pub open spec fn route_nodes(es: Seq<Edge>, a: int, ks: Seq<int>) -> Seq<usize> {
    seq![a as usize] + Seq::new(ks.len(), |i: int| es[ks[i]].to)
}

/// No route from `a` to `b` costs less than `c`.
pub open spec fn no_cheaper_route(es: Seq<Edge>, a: int, b: int, c: int) -> bool {
    forall|ks: Seq<int>| #[trigger] is_route(es, ks, a, b) ==> c <= route_cost(es, ks)
}

proof fn lemma_cost_prefix(es: Seq<Edge>, ks: Seq<int>, j: int)
    requires
        0 <= j <= ks.len(),
    ensures
        route_cost(es, ks.take(j)) <= route_cost(es, ks),
    decreases ks.len(),
{
    if j < ks.len() {
        lemma_cost_prefix(es, ks.drop_last(), j);
        assert(ks.drop_last().take(j) =~= ks.take(j));
    } else {
        assert(ks.take(j) =~= ks);
    }
}

proof fn lemma_cost_prepend(es: Seq<Edge>, k: int, ks: Seq<int>)
    ensures
        route_cost(es, seq![k] + ks) == es[k].weight + route_cost(es, ks),
    decreases ks.len(),
{
    if ks.len() > 0 {
        lemma_cost_prepend(es, k, ks.drop_last());
        assert((seq![k] + ks).drop_last() =~= seq![k] + ks.drop_last());
    } else {
        assert((seq![k] + ks).drop_last() =~= ks);
    }
}

proof fn lemma_cost_nonneg(es: Seq<Edge>, ks: Seq<int>)
    ensures
        route_cost(es, ks) >= 0,
    decreases ks.len(),
{
    if ks.len() > 0 {
        lemma_cost_nonneg(es, ks.drop_last());
    }
}

/// A route from inside `inside` to outside it has a first edge that leaves.
proof fn lemma_route_leaves(es: Seq<Edge>, ks: Seq<int>, a: int, b: int, inside: Set<int>) -> (j: int)
    requires
        is_route(es, ks, a, b),
        inside.contains(a),
        !inside.contains(b),
    ensures
        0 <= j < ks.len(),
        inside.contains(es[ks[j]].from as int),
        !inside.contains(es[ks[j]].to as int),
        is_route(es, ks.take(j), a, es[ks[j]].from as int),
        route_cost(es, ks.take(j)) + es[ks[j]].weight <= route_cost(es, ks),
    decreases ks.len(),
{
    let l = ks.len() - 1;
    let f = es[ks[l]].from as int;
    let pre = ks.drop_last();
    assert(pre =~= ks.take(l));
    assert forall|i: int| 0 <= i < pre.len() - 1 implies #[trigger] chained(es, pre, i) by {
        assert(chained(es, ks, i));
    }
    if l > 0 {
        assert(chained(es, ks, l - 1));
    }
    assert(is_route(es, pre, a, f));
    if inside.contains(f) {
        lemma_cost_prefix(es, ks, l + 1);
        assert(ks.take(l + 1) =~= ks);
        l
    } else {
        let j = lemma_route_leaves(es, pre, a, f, inside);
        assert(pre.take(j) =~= ks.take(j));
        assert(pre[j] == ks[j]);
        lemma_cost_prefix(es, ks, l);
        j
    }
}

/// The search state: `done` marks the settled nodes (the set `ds`, each
/// with its settling time in `t`), `dist` the best cost found so far, and
/// `pred` the position of the last edge of that best route.
pub open spec fn search_inv(
    g: &Graph,
    start: int,
    end: int,
    dist: Seq<Option<usize>>,
    pred: Seq<Option<usize>>,
    done: Seq<bool>,
    ds: Set<int>,
    t: Seq<int>,
) -> bool {
    let n = g.node_count();
    let es = g.edges@;
    &&& dist.len() == n + 1 && pred.len() == n + 1 && done.len() == n + 1 && t.len() == n + 1
    &&& ds.finite()
    &&& forall|v: int| #[trigger] ds.contains(v) ==> g.is_node(v) && 0 <= t[v] < ds.len()
    &&& forall|v: int| 0 <= v <= n ==> (#[trigger] done[v] <==> ds.contains(v))
    &&& !ds.contains(end)
    &&& dist[start] == Some(0usize)
    &&& pred[start] is None
    &&& ds.len() == 0 ==> forall|v: int| 0 <= v <= n && v != start ==> #[trigger] dist[v] is None
    &&& ds.len() > 0 ==> ds.contains(start)
    &&& forall|v: int| #[trigger] ds.contains(v) ==> dist[v] is Some
    &&& forall|v: int|
        0 <= v <= n && v != start && (#[trigger] dist[v]) is Some ==> {
            &&& g.is_node(v)
            &&& pred[v] matches Some(k) && {
                let e = es[k as int];
                &&& k < es.len()
                &&& e.to == v
                &&& ds.contains(e.from as int)
                &&& dist[v].unwrap() == dist[e.from as int].unwrap() + e.weight
                &&& ds.contains(v) ==> t[e.from as int] < t[v]
            }
        }
    &&& forall|s: int| #[trigger] ds.contains(s) ==> no_cheaper_route(es, start, s, dist[s].unwrap() as int)
    &&& forall|s: int, v: int|
        #![trigger ds.contains(s), dist[v]]
        ds.contains(s) && 0 <= v <= n && !ds.contains(v) && dist[v] is Some ==> dist[s].unwrap() <= dist[v].unwrap()
}

/// Edge `k` of `es` was relaxed: its target has a cost no more than that of
/// its source plus its weight, or that sum is out of range.
pub open spec fn relaxed(es: Seq<Edge>, dist: Seq<Option<usize>>, k: int) -> bool {
    let e = es[k];
    ||| (dist[e.to as int] is Some && dist[e.to as int].unwrap() <= dist[e.from as int].unwrap() + e.weight)
    ||| dist[e.from as int].unwrap() + e.weight > usize::MAX
}

/// The least cost of a route from `start` to `end`, with the nodes of one
/// such route, `start` first; `None` when every route from `start` to `end`
/// costs more than `usize::MAX`, and in particular when there is none.
/// Nodes are settled one at a time, least tentative cost first.
pub fn label_set(start: usize, end: usize, graph: &Graph) -> (r: Option<(Vec<usize>, usize)>)
    requires
        graph.wf(),
        graph.is_node(start as int),
        graph.is_node(end as int),
    ensures
        match r {
            Some((path, cost)) => {
                &&& exists|ks: Seq<int>|
                    #[trigger] is_route(graph.edges@, ks, start as int, end as int)
                        && route_cost(graph.edges@, ks) == cost
                        && path@ == route_nodes(graph.edges@, start as int, ks)
                &&& no_cheaper_route(graph.edges@, start as int, end as int, cost as int)
            },
            None => no_cheaper_route(graph.edges@, start as int, end as int, usize::MAX as int + 1),
        },
{
    let n = graph.hints.len() - 1;
    let ghost es = graph.edges@;
    let mut dist: Vec<Option<usize>> = Vec::new();
    let mut pred: Vec<Option<usize>> = Vec::new();
    let mut done: Vec<bool> = Vec::new();
    let mut i: usize = 0;
    while i <= n
        invariant
            n + 1 == graph.hints@.len(),
            n < usize::MAX,
            i <= n + 1,
            dist@.len() == i && pred@.len() == i && done@.len() == i,
            forall|v: int| 0 <= v < i ==> #[trigger] dist@[v] is None,
            forall|v: int| 0 <= v < i ==> #[trigger] pred@[v] is None,
            forall|v: int| 0 <= v < i ==> !#[trigger] done@[v],
        decreases n + 1 - i,
    {
        dist.push(None);
        pred.push(None);
        done.push(false);
        i += 1;
    }
    dist.set(start, Some(0));
    let ghost mut ds: Set<int> = Set::empty();
    let ghost mut t: Seq<int> = Seq::new((n + 1) as nat, |v: int| 0);
    proof {
        assert forall|v: int| 0 <= v <= n && v != start implies #[trigger] dist@[v] is None by {}
        assert(ds.len() == 0);
        assert forall|v: int| 0 <= v <= n implies (#[trigger] done@[v] <==> ds.contains(v)) by {}
    }
    loop
        invariant
            graph.wf(),
            n + 1 == graph.hints@.len(),
            es == graph.edges@,
            graph.is_node(start as int),
            graph.is_node(end as int),
            n < usize::MAX,
            search_inv(graph, start as int, end as int, dist@, pred@, done@, ds, t),
            forall|k: int| 0 <= k < es.len() && ds.contains(es[k].from as int) && !ds.contains(es[k].to as int)
                ==> #[trigger] relaxed(es, dist@, k),
        decreases n + 1 - ds.len(),
    {
        proof {
            assert(ds.subset_of(vstd::set_lib::set_int_range(1, n as int + 1)));
            vstd::set_lib::lemma_int_range(1, n as int + 1);
            vstd::set_lib::lemma_len_subset(ds, vstd::set_lib::set_int_range(1, n as int + 1));
        }
        // Extract the unsettled node of least tentative cost.
        let mut best: Option<usize> = None;
        let mut v: usize = 1;
        while v <= n
            invariant
                1 <= v <= n + 1,
                n < usize::MAX,
                dist@.len() == n + 1 && done@.len() == n + 1,
                best matches Some(b) ==> 1 <= b <= n && !done@[b as int] && dist@[b as int] is Some && forall|x: int|
                    1 <= x < v && !done@[x] && (#[trigger] dist@[x]) is Some ==> dist@[b as int].unwrap() <= dist@[x].unwrap(),
                best is None ==> forall|x: int| 1 <= x < v ==> done@[x] || (#[trigger] dist@[x]) is None,
            decreases n + 1 - v,
        {
            if !done[v] {
                if let Some(d) = dist[v] {
                    let better = match best {
                        None => true,
                        Some(b) => d < dist[b].unwrap(),
                    };
                    if better {
                        best = Some(v);
                    }
                }
            }
            v += 1;
        }
        let u = match best {
            None => {
                proof {
                    assert forall|ks: Seq<int>| #[trigger] is_route(es, ks, start as int, end as int) implies usize::MAX as int + 1 <= route_cost(es, ks) by {
                        assert(dist@[start as int] is Some);
                        assert(ds.contains(start as int));
                        let j = lemma_route_leaves(es, ks, start as int, end as int, ds);
                        assert(relaxed(es, dist@, ks[j]));
                        let e = es[ks[j]];
                        assert(graph.edge_in_group(ks[j]));
                        assert(done@[e.to as int] || dist@[e.to as int] is None);
                        assert(is_route(es, ks.take(j), start as int, e.from as int));
                    }
                }
                return None;
            },
            Some(u) => u,
        };
        let du = dist[u].unwrap();
        proof {
            assert forall|ks: Seq<int>| #[trigger] is_route(es, ks, start as int, u as int) implies du <= route_cost(es, ks) by {
                if u != start {
                    assert(ds.len() > 0) by {
                        if ds.len() == 0 {
                            assert(dist@[u as int] is None);
                        }
                    }
                    let j = lemma_route_leaves(es, ks, start as int, u as int, ds);
                    assert(relaxed(es, dist@, ks[j]));
                    let e = es[ks[j]];
                    assert(graph.edge_in_group(ks[j]));
                    assert(is_route(es, ks.take(j), start as int, e.from as int));
                    assert(!done@[e.to as int]);
                } else {
                    assert(dist@[start as int] == Some(0usize));
                    lemma_cost_nonneg(es, ks);
                }
            }
        }
        if u == end {
            let mut path: Vec<usize> = Vec::new();
            path.push(end);
            let mut cur: usize = end;
            let ghost mut ks: Seq<int> = Seq::empty();
            assert(path@ =~= route_nodes(es, end as int, ks));
            while cur != start
                invariant
                    graph.wf(),
                    es == graph.edges@,
                    n + 1 == graph.hints@.len(),
                    search_inv(graph, start as int, end as int, dist@, pred@, done@, ds, t),
                    dist@[end as int] == Some(du),
                    1 <= cur <= n,
                    cur == end || ds.contains(cur as int),
                    dist@[cur as int] is Some,
                    is_route(es, ks, cur as int, end as int),
                    path@ == route_nodes(es, cur as int, ks),
                    route_cost(es, ks) + dist@[cur as int].unwrap() == du,
                decreases (if cur == end { ds.len() as int } else { t[cur as int] }),
            {
                let k = pred[cur].unwrap();
                let from = graph.edges[k].from;
                proof {
                    let ks2 = seq![k as int] + ks;
                    lemma_cost_prepend(es, k as int, ks);
                    assert forall|i: int| 0 <= i < ks2.len() - 1 implies #[trigger] chained(es, ks2, i) by {
                        if i > 0 {
                            assert(chained(es, ks, i - 1));
                        }
                    }
                    assert(route_nodes(es, from as int, ks2) =~= seq![from] + route_nodes(es, cur as int, ks));
                    ks = ks2;
                }
                path.insert(0, from);
                cur = from;
            }
            assert(dist@[start as int] == Some(0usize));
            return Some((path, du));
        }
        // Settle `u` and relax its out-edges.
        done.set(u, true);
        let ghost old_ds = ds;
        proof {
            if u != start {
                assert(dist@[u as int] is Some);
                if ds.len() == 0 {
                    assert(dist@[u as int] is None);
                }
            }
            t = t.update(u as int, ds.len() as int);
            ds = ds.insert(u as int);
            assert(ds.len() > 0) by {
                vstd::set_lib::lemma_set_empty_equivalency_len(ds);
                assert(ds.contains(u as int));
            }
            assert forall|s: int| #[trigger] ds.contains(s) implies dist@[s].unwrap() <= du by {
                if s != u {
                    assert(old_ds.contains(s));
                    assert(dist@[u as int] is Some);
                }
            }
            assert forall|k2: int| 0 <= k2 < es.len() && ds.contains(es[k2].from as int) && !ds.contains(es[k2].to as int)
                && !(graph.hints@[u - 1] <= k2 < graph.hints@[u as int]) implies #[trigger] relaxed(es, dist@, k2) by {
                assert(graph.edge_in_group(k2));
                assert(old_ds.contains(es[k2].from as int));
            }
        }
        let lo = graph.hints[u - 1];
        let hi = graph.hints[u];
        let mut k: usize = lo;
        while k < hi
            invariant
                graph.wf(),
                n + 1 == graph.hints@.len(),
                es == graph.edges@,
                graph.is_node(start as int),
                graph.is_node(end as int),
                graph.is_node(u as int),
                lo == graph.hints@[u - 1],
                hi == graph.hints@[u as int],
                lo <= k <= hi,
                dist@[u as int] == Some(du),
                ds.contains(u as int),
                ds.contains(start as int),
                ds.len() > 0,
                forall|s: int| #[trigger] ds.contains(s) ==> dist@[s].unwrap() <= du,
                search_inv(graph, start as int, end as int, dist@, pred@, done@, ds, t),
                forall|k2: int| 0 <= k2 < es.len() && ds.contains(es[k2].from as int) && !ds.contains(es[k2].to as int)
                    && !(k <= k2 < hi) ==> #[trigger] relaxed(es, dist@, k2),
            decreases hi - k,
        {
            let e = graph.edges[k];
            let ghost old_dist = dist@;
            let ghost old_pred = pred@;
            assert(graph.edge_in_group(k as int));
            if !done[e.to] && e.weight <= usize::MAX - du {
                let nd = du + e.weight;
                let improves = match dist[e.to] {
                    None => true,
                    Some(d) => nd < d,
                };
                if improves {
                    dist.set(e.to, Some(nd));
                    pred.set(e.to, Some(k));
                    proof {
                        let to = e.to as int;
                        assert(!ds.contains(to));
                        assert(to != start);
                        assert forall|v: int| #[trigger] ds.contains(v) implies dist@[v] == old_dist[v] by {}
                        assert forall|v: int|
                            0 <= v <= n && v != start && (#[trigger] dist@[v]) is Some implies {
                                &&& graph.is_node(v)
                                &&& pred@[v] matches Some(k3) && {
                                    let e3 = es[k3 as int];
                                    &&& k3 < es.len()
                                    &&& e3.to == v
                                    &&& ds.contains(e3.from as int)
                                    &&& dist@[v].unwrap() == dist@[e3.from as int].unwrap() + e3.weight
                                    &&& ds.contains(v) ==> t[e3.from as int] < t[v]
                                }
                            } by {
                            if v != to {
                                assert(old_dist[v] is Some);
                                let k3 = old_pred[v].unwrap();
                                assert(ds.contains(es[k3 as int].from as int));
                            }
                        }
                        assert forall|s: int, v: int|
                            ds.contains(s) && 0 <= v <= n && !ds.contains(v) && dist@[v] is Some implies dist@[s].unwrap() <= dist@[v].unwrap() by {
                            if v != to {
                                assert(old_dist[v] is Some);
                            }
                        }
                    }
                }
            }
            proof {
                assert(relaxed(es, dist@, k as int) || ds.contains(e.to as int));
                assert forall|x: int| 0 <= x <= n && (#[trigger] old_dist[x]) is Some implies dist@[x] is Some
                    && dist@[x].unwrap() <= old_dist[x].unwrap() by {}
                assert forall|k2: int| 0 <= k2 < es.len() && ds.contains(es[k2].from as int) && !ds.contains(es[k2].to as int)
                    && !(k + 1 <= k2 < hi) implies #[trigger] relaxed(es, dist@, k2) by {
                    if k2 != k {
                        assert(relaxed(es, old_dist, k2));
                        assert(ds.contains(es[k2].from as int));
                        assert(graph.edge_in_group(k2));
                        let to2 = es[k2].to as int;
                        assert(old_dist[to2] is Some ==> dist@[to2] is Some && dist@[to2].unwrap() <= old_dist[to2].unwrap());
                        assert(dist@[es[k2].from as int] == old_dist[es[k2].from as int]);
                    }
                }
            }
            k += 1;
        }
    }
}

} // verus!
