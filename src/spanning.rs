use vstd::prelude::*;
use crate::graph::{Edge, Graph};

verus! {

/// Some edge of `es` joins `x` and `y`, in one direction or the other.
pub open spec fn joins(es: Seq<Edge>, x: int, y: int) -> bool {
    exists|k: int|
        0 <= k < es.len() && ((#[trigger] es[k].from == x && es[k].to == y) || (es[k].from == y
            && es[k].to == x))
}

/// Position `i` of `w` stays put or crosses an edge of `es`.
pub open spec fn walk_step(es: Seq<Edge>, w: Seq<int>, i: int) -> bool {
    w[i] == w[i + 1] || joins(es, w[i], w[i + 1])
}

/// `w` is a walk over the edges of `es`, taken as undirected.
pub open spec fn is_walk(es: Seq<Edge>, w: Seq<int>) -> bool {
    &&& w.len() >= 1
    &&& forall|i: int| 0 <= i < w.len() - 1 ==> #[trigger] walk_step(es, w, i)
}

/// Some undirected walk over `es` leads from `a` to `b`.
pub open spec fn linked(es: Seq<Edge>, a: int, b: int) -> bool {
    exists|w: Seq<int>| #[trigger] is_walk(es, w) && w[0] == a && w.last() == b
}

/// Every edge of `t` is an edge of `es`.
pub open spec fn edges_from(t: Seq<Edge>, es: Seq<Edge>) -> bool {
    forall|k: int| 0 <= k < t.len() ==> es.contains(#[trigger] t[k])
}

/// Each edge of `t` joins two nodes that the edges before it left apart:
/// `t` has no cycle.
pub open spec fn is_forest(t: Seq<Edge>) -> bool {
    forall|k: int|
        0 <= k < t.len() ==> #[trigger] t[k].from != t[k].to && !linked(
            t.take(k),
            t[k].from as int,
            t[k].to as int,
        )
}

/// Every edge of `es` lighter than an edge of `t` already had its ends
/// linked by the edges of `t` before that one.
pub open spec fn is_greedy(t: Seq<Edge>, es: Seq<Edge>) -> bool {
    forall|k: int, j: int|
        0 <= k < t.len() && 0 <= j < es.len() && #[trigger] es[j].weight < #[trigger] t[k].weight ==> linked(
            t.take(k),
            es[j].from as int,
            es[j].to as int,
        )
}

/// The edges of `t` link every two nodes of `g`.
pub open spec fn spans(g: &Graph, t: Seq<Edge>) -> bool {
    forall|a: int, b: int| g.is_node(a) && g.is_node(b) ==> #[trigger] linked(t, a, b)
}

/// Every two nodes of `g` are linked when edge direction is ignored.
pub open spec fn is_connected(g: &Graph) -> bool {
    spans(g, g.edges@)
}

proof fn lemma_linked_refl(es: Seq<Edge>, a: int)
    ensures
        linked(es, a, a),
{
    assert(is_walk(es, seq![a]));
}

proof fn lemma_linked_trans(es: Seq<Edge>, a: int, b: int, c: int)
    requires
        linked(es, a, b),
        linked(es, b, c),
    ensures
        linked(es, a, c),
{
    let w1 = choose|w: Seq<int>| #[trigger] is_walk(es, w) && w[0] == a && w.last() == b;
    let w2 = choose|w: Seq<int>| #[trigger] is_walk(es, w) && w[0] == b && w.last() == c;
    let w = w1 + w2;
    assert forall|i: int| 0 <= i < w.len() - 1 implies #[trigger] walk_step(es, w, i) by {
        if i < w1.len() - 1 {
            assert(walk_step(es, w1, i));
        } else if i >= w1.len() {
            assert(walk_step(es, w2, i - w1.len()));
        }
    }
    assert(is_walk(es, w));
}

proof fn lemma_linked_edge(es: Seq<Edge>, k: int)
    requires
        0 <= k < es.len(),
    ensures
        linked(es, es[k].from as int, es[k].to as int),
        linked(es, es[k].to as int, es[k].from as int),
{
    let (x, y) = (es[k].from as int, es[k].to as int);
    assert(joins(es, x, y));
    assert(joins(es, y, x));
    assert(walk_step(es, seq![x, y], 0));
    assert(walk_step(es, seq![y, x], 0));
    assert(is_walk(es, seq![x, y]));
    assert(is_walk(es, seq![y, x]));
}

/// A walk over `es` is a walk over any `fs` that holds every edge of `es`.
proof fn lemma_linked_sub(es: Seq<Edge>, fs: Seq<Edge>, a: int, b: int)
    requires
        edges_from(es, fs),
        linked(es, a, b),
    ensures
        linked(fs, a, b),
{
    let w = choose|w: Seq<int>| #[trigger] is_walk(es, w) && w[0] == a && w.last() == b;
    assert forall|i: int| 0 <= i < w.len() - 1 implies #[trigger] walk_step(fs, w, i) by {
        assert(walk_step(es, w, i));
        if w[i] != w[i + 1] {
            let k = choose|k: int|
                0 <= k < es.len() && ((#[trigger] es[k].from == w[i] && es[k].to == w[i + 1]) || (
                es[k].from == w[i + 1] && es[k].to == w[i]));
            assert(fs.contains(es[k]));
            let j = choose|j: int| 0 <= j < fs.len() && fs[j] == es[k];
            assert(fs[j].from == es[k].from);
        }
    }
    assert(is_walk(fs, w));
}

proof fn lemma_linked_push(es: Seq<Edge>, e: Edge, a: int, b: int)
    requires
        linked(es, a, b),
    ensures
        linked(es.push(e), a, b),
{
    assert forall|k: int| 0 <= k < es.len() implies es.push(e).contains(#[trigger] es[k]) by {
        assert(es.push(e)[k] == es[k]);
    }
    lemma_linked_sub(es, es.push(e), a, b);
}

/// Joins `v`, linked to one end of `e`, to `w`, linked to its other end,
/// across `e` once it is added.
proof fn lemma_linked_bridge(es: Seq<Edge>, e: Edge, v: int, x: int, y: int, w: int)
    requires
        linked(es, v, x),
        linked(es, y, w),
        (e.from == x && e.to == y) || (e.from == y && e.to == x),
    ensures
        linked(es.push(e), v, w),
{
    let fs = es.push(e);
    lemma_linked_push(es, e, v, x);
    lemma_linked_push(es, e, y, w);
    lemma_linked_edge(fs, es.len() as int);
    lemma_linked_trans(fs, v, x, y);
    lemma_linked_trans(fs, v, y, w);
}

/// Where every edge of `es` that is no loop has one label on both ends, a
/// walk from a node `a` reaches only nodes of `a`'s label, or only `a` if it
/// has none.
proof fn lemma_walk_keeps_label(es: Seq<Edge>, labels: Seq<Option<usize>>, w: Seq<int>, i: int)
    requires
        is_walk(es, w),
        0 <= i < w.len(),
        0 <= w[0] < labels.len(),
        forall|k: int| 0 <= k < es.len() ==> (#[trigger] es[k]).from < labels.len() && es[k].to < labels.len(),
        forall|k: int|
            0 <= k < es.len() && (#[trigger] es[k]).from != es[k].to ==> labels[es[k].from as int] is Some
                && labels[es[k].from as int] == labels[es[k].to as int],
    ensures
        w[i] == w[0] || (0 <= w[i] < labels.len() && labels[w[0]] is Some && labels[w[i]] == labels[w[0]]),
    decreases i,
{
    if i > 0 {
        lemma_walk_keeps_label(es, labels, w, i - 1);
        assert(walk_step(es, w, i - 1));
        if w[i - 1] != w[i] {
            let k = choose|k: int|
                0 <= k < es.len() && ((#[trigger] es[k].from == w[i - 1] && es[k].to == w[i]) || (
                es[k].from == w[i] && es[k].to == w[i - 1]));
            assert(es[k].from != es[k].to);
        }
    }
}

proof fn lemma_linked_same_label(es: Seq<Edge>, labels: Seq<Option<usize>>, a: int, b: int)
    requires
        linked(es, a, b),
        a != b,
        0 <= a < labels.len(),
        forall|k: int| 0 <= k < es.len() ==> (#[trigger] es[k]).from < labels.len() && es[k].to < labels.len(),
        forall|k: int|
            0 <= k < es.len() && (#[trigger] es[k]).from != es[k].to ==> labels[es[k].from as int] is Some
                && labels[es[k].from as int] == labels[es[k].to as int],
    ensures
        0 <= b < labels.len(),
        labels[a] is Some,
        labels[a] == labels[b],
{
    let w = choose|w: Seq<int>| #[trigger] is_walk(es, w) && w[0] == a && w.last() == b;
    lemma_walk_keeps_label(es, labels, w, w.len() - 1);
}

/// `o` with label `hi` renamed to `lo`.
pub open spec fn relabel(o: Option<usize>, hi: usize, lo: usize) -> Option<usize> {
    if o == Some(hi) {
        Some(lo)
    } else {
        o
    }
}

/// `order` lists each position of `es` once, by non-decreasing weight.
pub open spec fn is_weight_order(es: Seq<Edge>, order: Seq<usize>) -> bool {
    &&& order.len() == es.len()
    &&& forall|p: int| 0 <= p < order.len() ==> #[trigger] order[p] < es.len()
    &&& forall|k: int| 0 <= k < es.len() ==> #[trigger] order.contains(k as usize)
    &&& forall|p: int, q: int|
        0 <= p <= q < order.len() ==> es[order[p] as int].weight <= es[order[q] as int].weight
}

/// The positions of `edges`, stably sorted by edge weight.
pub fn weight_order(edges: &[Edge]) -> (r: Vec<usize>)
    ensures
        is_weight_order(edges@, r@),
{
    let m = edges.len();
    let mut r: Vec<usize> = Vec::new();
    let mut k: usize = 0;
    while k < m
        invariant
            k <= m == edges@.len(),
            r@.len() == k,
            forall|p: int| 0 <= p < r@.len() ==> #[trigger] r@[p] < k,
            forall|j: int| 0 <= j < k ==> #[trigger] r@.contains(j as usize),
            forall|p: int, q: int|
                0 <= p <= q < r@.len() ==> edges@[r@[p] as int].weight <= edges@[r@[q] as int].weight,
        decreases m - k,
    {
        let w = edges[k].weight;
        let mut p: usize = 0;
        while p < r.len() && edges[r[p]].weight <= w
            invariant
                p <= r@.len() == k,
                k < m == edges@.len(),
                forall|q: int| 0 <= q < r@.len() ==> #[trigger] r@[q] < k,
                forall|q: int| 0 <= q < p ==> edges@[#[trigger] r@[q] as int].weight <= w,
            decreases r@.len() - p,
        {
            p += 1;
        }
        let ghost old_r = r@;
        r.insert(p, k);
        proof {
            assert(r@ == old_r.insert(p as int, k));
            assert forall|j: int| 0 <= j < k + 1 implies #[trigger] r@.contains(j as usize) by {
                if j < k {
                    assert(old_r.contains(j as usize));
                    let q = choose|q: int| 0 <= q < old_r.len() && old_r[q] == j as usize;
                    if q < p {
                        assert(r@[q] == j as usize);
                    } else {
                        assert(r@[q + 1] == j as usize);
                    }
                } else {
                    assert(r@[p as int] == k);
                }
            }
            assert forall|a: int, b: int| 0 <= a <= b < r@.len() implies edges@[r@[a] as int].weight
                <= edges@[r@[b] as int].weight by {
                if p < old_r.len() {
                    assert(edges@[old_r[p as int] as int].weight > w);
                }
            }
        }
        k += 1;
    }
    r
}

/// Node `v` lay on the side of `x` under the labels `g`.
pub open spec fn on_side(g: Seq<Option<usize>>, v: int, x: int) -> bool {
    v == x || (g[x] is Some && g[v] == g[x])
}

/// Nodes that share a label in `g` shared one in `old_g`.
pub open spec fn refines(old_g: Seq<Option<usize>>, g: Seq<Option<usize>>, n: int) -> bool {
    forall|x: int, y: int|
        #![trigger old_g[x], old_g[y]]
        0 <= x <= n && 0 <= y <= n && old_g[x] is Some && old_g[x] == old_g[y] ==> g[x] is Some && g[x]
            == g[y]
}

/// `g` joins the parts of `x` and `y` in `old_g` and nothing else.
pub open spec fn merges(old_g: Seq<Option<usize>>, g: Seq<Option<usize>>, n: int, x: int, y: int) -> bool {
    forall|v: int, w: int|
        #![trigger g[v], g[w]]
        0 <= v <= n && 0 <= w <= n && g[v] is Some && g[v] == g[w] ==> {
            ||| v == w
            ||| (old_g[v] is Some && old_g[v] == old_g[w])
            ||| (on_side(old_g, v, x) && on_side(old_g, w, y))
            ||| (on_side(old_g, v, y) && on_side(old_g, w, x))
        }
}

/// Nodes that share a label are linked by the edges of `t`.
pub open spec fn labels_linked(t: Seq<Edge>, g: Seq<Option<usize>>, n: int) -> bool {
    forall|v: int, w: int|
        #![trigger g[v], g[w]]
        0 <= v <= n && 0 <= w <= n && g[v] is Some && g[v] == g[w] ==> linked(t, v, w)
}

proof fn lemma_merge_links(t: Seq<Edge>, old_g: Seq<Option<usize>>, g: Seq<Option<usize>>, n: int, e: Edge)
    requires
        labels_linked(t, old_g, n),
        merges(old_g, g, n, e.from as int, e.to as int),
        0 <= e.from <= n,
        0 <= e.to <= n,
    ensures
        labels_linked(t.push(e), g, n),
{
    let (x, y) = (e.from as int, e.to as int);
    assert forall|v: int, w: int|
        0 <= v <= n && 0 <= w <= n && g[v] is Some && g[v] == g[w] implies linked(t.push(e), v, w) by {
        assert(g[v] == g[w]);
        if v == w {
            lemma_linked_refl(t.push(e), v);
        } else if old_g[v] is Some && old_g[v] == old_g[w] {
            lemma_linked_push(t, e, v, w);
        } else {
            assert(old_g[x] is Some && old_g[v] == old_g[x] ==> linked(t, v, x));
            assert(old_g[x] is Some && old_g[w] == old_g[x] ==> linked(t, x, w));
            assert(old_g[y] is Some && old_g[v] == old_g[y] ==> linked(t, v, y));
            assert(old_g[y] is Some && old_g[w] == old_g[y] ==> linked(t, y, w));
            lemma_linked_refl(t, x);
            lemma_linked_refl(t, y);
            if on_side(old_g, v, x) && on_side(old_g, w, y) {
                lemma_linked_bridge(t, e, v, x, y, w);
            } else {
                lemma_linked_bridge(t, e, v, y, x, w);
            }
        }
    }
}

/// Every non-loop edge among the first `p` of `order` has one label on both ends.
pub open spec fn labelled_alike(es: Seq<Edge>, order: Seq<usize>, p: int, labels: Seq<Option<usize>>) -> bool {
    forall|q: int|
        0 <= q < p ==> {
            let e = #[trigger] es[order[q] as int];
            e.from != e.to ==> labels[e.from as int] is Some && labels[e.from as int] == labels[e.to as int]
        }
}

/// Kruskal's algorithm: takes the edges by ascending weight (ties in their
/// order of storage) and keeps each one that joins two parts not yet joined.
/// Returns the kept edges when they span the graph, taken as undirected, and
/// `None` when the graph is not connected.
pub fn kruskal(graph: &Graph) -> (r: Option<Vec<Edge>>)
    requires
        graph.wf(),
    ensures
        r is None <==> !is_connected(graph),
        r matches Some(t) ==> {
            &&& graph.node_count() >= 1 ==> t@.len() == graph.node_count() - 1
            &&& edges_from(t@, graph.edges@)
            &&& is_forest(t@)
            &&& is_greedy(t@, graph.edges@)
            &&& spans(graph, t@)
        },
{
    let n = graph.hints.len() - 1;
    let m = graph.edges.len();
    let ghost es = graph.edges@;
    let order = weight_order(graph.edges.as_slice());
    let mut groups: Vec<Option<usize>> = Vec::new();
    while groups.len() <= n
        invariant
            groups@.len() <= n + 1,
            forall|v: int| 0 <= v < groups@.len() ==> groups@[v] is None,
        decreases n + 1 - groups@.len(),
    {
        groups.push(None);
    }
    let mut result: Vec<Edge> = Vec::new();
    let mut counter: usize = 0;
    let mut p: usize = 0;
    // The nodes that carry a label, and the labels in use.
    let ghost mut gs: Set<int> = Set::empty();
    let ghost mut ls: Set<int> = Set::empty();
    while p < m
        invariant
            graph.wf(),
            n + 1 == graph.hints@.len(),
            m == es.len(),
            es == graph.edges@,
            is_weight_order(es, order@),
            groups@.len() == n + 1,
            p <= m,
            counter <= p,
            forall|v: int| 0 <= v <= n ==> (#[trigger] groups@[v] matches Some(l) ==> l < counter),
            labels_linked(result@, groups@, n as int),
            labelled_alike(es, order@, p as int, groups@),
            forall|k: int|
                0 <= k < result@.len() ==> (#[trigger] result@[k]).from != result@[k].to && 1 <= result@[k].from <= n
                    && 1 <= result@[k].to <= n && groups@[result@[k].from as int] is Some
                    && groups@[result@[k].from as int] == groups@[result@[k].to as int],
            edges_from(result@, es),
            is_forest(result@),
            is_greedy(result@, es),
            gs.finite(),
            ls.finite(),
            groups@[0] is None,
            forall|v: int| #[trigger] gs.contains(v) <==> (1 <= v <= n && groups@[v] is Some),
            forall|l: int|
                #[trigger] ls.contains(l) ==> 0 <= l < counter && exists|v: int|
                    0 <= v <= n && groups@[v] == Some(l as usize),
            forall|v: int| 0 <= v <= n && (#[trigger] groups@[v]) is Some ==> ls.contains(groups@[v].unwrap() as int),
            result@.len() + ls.len() == gs.len(),
        decreases m - p,
    {
        let i = order[p];
        let e = graph.edges[i];
        let from = e.from;
        let to = e.to;
        let ghost old_g = groups@;
        let ghost old_res = result@;
        assert(graph.edge_in_group(i as int));
        assert(es.contains(e)) by { assert(es[i as int] == e); }
        if from != to {
            let accept: bool;
            match (groups[from], groups[to]) {
                (None, None) => {
                    groups.set(from, Some(counter));
                    groups.set(to, Some(counter));
                    proof {
                        assert(!gs.contains(from as int) && !gs.contains(to as int));
                        assert(!ls.contains(counter as int));
                        assert forall|l: int| #[trigger] ls.contains(l) implies exists|v: int|
                            0 <= v <= n && groups@[v] == Some(l as usize) by {
                            let v = choose|v: int| 0 <= v <= n && old_g[v] == Some(l as usize);
                            assert(groups@[v] == Some(l as usize));
                        }
                        assert(groups@[from as int] == Some(counter));
                        gs = gs.insert(from as int).insert(to as int);
                        ls = ls.insert(counter as int);
                    }
                    counter += 1;
                    accept = true;
                },
                (None, Some(b)) => {
                    groups.set(from, Some(b));
                    proof {
                        assert(!gs.contains(from as int));
                        assert forall|l: int| #[trigger] ls.contains(l) implies exists|v: int|
                            0 <= v <= n && groups@[v] == Some(l as usize) by {
                            let v = choose|v: int| 0 <= v <= n && old_g[v] == Some(l as usize);
                            assert(groups@[v] == Some(l as usize));
                        }
                        assert(ls.contains(b as int));
                        gs = gs.insert(from as int);
                    }
                    accept = true;
                },
                (Some(a), None) => {
                    groups.set(to, Some(a));
                    proof {
                        assert(!gs.contains(to as int));
                        assert forall|l: int| #[trigger] ls.contains(l) implies exists|v: int|
                            0 <= v <= n && groups@[v] == Some(l as usize) by {
                            let v = choose|v: int| 0 <= v <= n && old_g[v] == Some(l as usize);
                            assert(groups@[v] == Some(l as usize));
                        }
                        assert(ls.contains(a as int));
                        gs = gs.insert(to as int);
                    }
                    accept = true;
                },
                (Some(a), Some(b)) => {
                    if a != b {
                        let lo = if a < b { a } else { b };
                        let hi = if a < b { b } else { a };
                        let mut x: usize = 0;
                        while x < groups.len()
                            invariant
                                groups@.len() == old_g.len(),
                                x <= groups@.len(),
                                forall|y: int| 0 <= y < x ==> #[trigger] groups@[y] == relabel(old_g[y], hi, lo),
                                forall|y: int| x <= y < groups@.len() ==> #[trigger] groups@[y] == old_g[y],
                            decreases groups@.len() - x,
                        {
                            if groups[x] == Some(hi) {
                                groups.set(x, Some(lo));
                            }
                            x += 1;
                        }
                        proof {
                            assert(ls.contains(a as int) && ls.contains(b as int));
                            assert(groups@[from as int] == Some(lo) || groups@[to as int] == Some(lo));
                            assert forall|l: int| #[trigger] ls.remove(hi as int).contains(l) implies exists|v: int|
                                0 <= v <= n && groups@[v] == Some(l as usize) by {
                                let v = choose|v: int| 0 <= v <= n && old_g[v] == Some(l as usize);
                                assert(groups@[v] == relabel(old_g[v], hi, lo));
                            }
                            assert forall|v: int| 0 <= v <= n && (#[trigger] groups@[v]) is Some implies ls.remove(hi as int).contains(
                                groups@[v].unwrap() as int) by {
                                assert(groups@[v] == relabel(old_g[v], hi, lo));
                            }
                            assert forall|v: int| #[trigger] gs.contains(v) <==> (1 <= v <= n && groups@[v] is Some) by {
                                if 0 <= v <= n {
                                    assert(groups@[v] == relabel(old_g[v], hi, lo));
                                }
                            }
                            ls = ls.remove(hi as int);
                        }
                        accept = true;
                    } else {
                        accept = false;
                    }
                },
            }
            proof {
                let g = groups@;
                let ni = n as int;
                if accept {
                    assert(from != to);
                    if old_g[from as int] is None && old_g[to as int] is None {
                        assert forall|v: int| 0 <= v <= ni && v != from && v != to implies g[v] == old_g[v] by {}
                    }
                    assert(refines(old_g, g, ni));
                    assert(merges(old_g, g, ni, from as int, to as int));
                    if linked(old_res, from as int, to as int) {
                        lemma_linked_same_label(old_res, old_g, from as int, to as int);
                    }
                    lemma_merge_links(old_res, old_g, g, ni, e);
                }
            }
            if accept {
                proof {
                    assert forall|j: int| 0 <= j < m && #[trigger] es[j].weight < e.weight implies linked(
                        old_res,
                        es[j].from as int,
                        es[j].to as int,
                    ) by {
                        assert(order@.contains(j as usize));
                        let q = choose|q: int| 0 <= q < order@.len() && order@[q] == j as usize;
                        if q >= p {
                            assert(es[order@[p as int] as int].weight <= es[order@[q] as int].weight);
                        }
                        assert(graph.edge_in_group(j));
                        let e2 = es[order@[q] as int];
                        if e2.from == e2.to {
                            lemma_linked_refl(old_res, e2.from as int);
                        } else {
                            assert(old_g[e2.from as int] == old_g[e2.to as int]);
                        }
                    }
                }
                result.push(e);
                proof {
                    let res = result@;
                    assert(res == old_res.push(e));
                    assert forall|k: int, j: int| 0 <= k < res.len() && 0 <= j < es.len() && #[trigger] es[j].weight
                        < #[trigger] res[k].weight implies linked(res.take(k), es[j].from as int, es[j].to as int) by {
                        if k < old_res.len() {
                            assert(res.take(k) =~= old_res.take(k));
                            assert(res[k] == old_res[k]);
                        } else {
                            assert(res.take(k) =~= old_res);
                        }
                    }
                    assert forall|k: int| 0 <= k < res.len() implies #[trigger] res[k].from != res[k].to
                        && !linked(res.take(k), res[k].from as int, res[k].to as int) by {
                        if k < old_res.len() {
                            assert(res.take(k) =~= old_res.take(k));
                            assert(res[k] == old_res[k]);
                        } else {
                            assert(res.take(k) =~= old_res);
                        }
                    }
                    assert forall|k: int| 0 <= k < res.len() implies es.contains(#[trigger] res[k]) by {
                        if k < old_res.len() {
                            assert(res[k] == old_res[k]);
                        }
                    }
                    assert forall|k: int| 0 <= k < res.len() implies (#[trigger] res[k]).from != res[k].to
                        && 1 <= res[k].from <= n && 1 <= res[k].to <= n && groups@[res[k].from as int] is Some
                        && groups@[res[k].from as int] == groups@[res[k].to as int] by {
                        if k < old_res.len() {
                            assert(res[k] == old_res[k]);
                            assert(old_g[res[k].from as int] == old_g[res[k].to as int]);
                        }
                    }
                }
            }
            proof {
                let g = groups@;
                assert forall|q: int| 0 <= q < p + 1 implies {
                    let e2 = #[trigger] es[order@[q] as int];
                    e2.from != e2.to ==> g[e2.from as int] is Some && g[e2.from as int] == g[e2.to as int]
                } by {
                    if q < p {
                        let e2 = es[order@[q] as int];
                        assert(graph.edge_in_group(order@[q] as int));
                        if e2.from != e2.to {
                            assert(old_g[e2.from as int] == old_g[e2.to as int]);
                        }
                    }
                }
            }
        }
        p += 1;
    }
    assert forall|k: int| 0 <= k < m implies {
        &&& (#[trigger] es[k]).from < groups@.len()
        &&& es[k].to < groups@.len()
        &&& (es[k].from != es[k].to ==> groups@[es[k].from as int] is Some && groups@[es[k].from as int]
            == groups@[es[k].to as int])
    } by {
        assert(graph.edge_in_group(k));
        assert(order@.contains(k as usize));
        let q = choose|q: int| 0 <= q < order@.len() && order@[q] == k as usize;
        assert(es[order@[q] as int] == es[k]);
    }
    if n >= 2 {
        let mut v: usize = 2;
        while v <= n
            invariant
                2 <= v <= n + 1,
                n < usize::MAX,
                n + 1 == groups@.len(),
                n + 1 == graph.hints@.len(),
                es == graph.edges@,
                forall|u: int| 2 <= u < v ==> #[trigger] groups@[u] is Some && groups@[u] == groups@[1],
                m == es.len(),
                forall|k: int| 0 <= k < m ==> {
                    &&& (#[trigger] es[k]).from < groups@.len()
                    &&& es[k].to < groups@.len()
                    &&& (es[k].from != es[k].to ==> groups@[es[k].from as int] is Some && groups@[es[k].from as int]
                        == groups@[es[k].to as int])
                },
            decreases n + 1 - v,
        {
            let same = match (groups[v], groups[1]) {
                (Some(x), Some(y)) => x == y,
                _ => false,
            };
            if !same {
                proof {
                    if linked(es, 1, v as int) {
                        lemma_linked_same_label(es, groups@, 1, v as int);
                    }
                    assert(!linked(es, 1, v as int));
                    assert(graph.is_node(1) && graph.is_node(v as int));
                }
                return None;
            }
            v += 1;
        }
    }
    proof {
        if n == 1 && result@.len() > 0 {
            assert(result@[0].from != result@[0].to);
        }
        if n >= 2 {
            let l1 = groups@[1].unwrap() as int;
            assert(groups@[2] is Some && groups@[2] == groups@[1]);
            assert forall|v: int| #[trigger] gs.contains(v) <==> vstd::set_lib::set_int_range(1, n as int + 1).contains(v) by {
                if 1 <= v <= n && v != 1 {
                    assert(groups@[v] == groups@[1]);
                }
            }
            assert(gs =~= vstd::set_lib::set_int_range(1, n as int + 1));
            vstd::set_lib::lemma_int_range(1, n as int + 1);
            assert forall|l: int| #[trigger] ls.contains(l) <==> Set::<int>::empty().insert(l1).contains(l) by {
                if ls.contains(l) {
                    let v = choose|v: int| 0 <= v <= n && groups@[v] == Some(l as usize);
                    if v != 1 {
                        assert(groups@[v] == groups@[1]);
                    }
                }
            }
            assert(ls =~= Set::<int>::empty().insert(l1));
        }
    }
    proof {
        assert forall|a: int, b: int| graph.is_node(a) && graph.is_node(b) implies #[trigger] linked(result@, a, b) by {
            if a == b {
                lemma_linked_refl(result@, a);
            } else {
                assert(groups@[a] == groups@[1] || a == 1);
                assert(groups@[b] == groups@[1] || b == 1);
                assert(groups@[2] is Some && groups@[2] == groups@[1]);
            }
        }
        assert forall|a: int, b: int| graph.is_node(a) && graph.is_node(b) implies #[trigger] linked(es, a, b) by {
            assert(linked(result@, a, b));
            lemma_linked_sub(result@, es, a, b);
        }
    }
    Some(result)
}

} // verus!
