use vstd::prelude::*;
use crate::graph::{Edge, Graph};
use crate::shortest::{chained, is_route};

verus! {

/// `f` puts the source of every edge of `es` before its target.
pub open spec fn orders_edges(es: Seq<Edge>, f: spec_fn(int) -> int) -> bool {
    forall|k: int| 0 <= k < es.len() ==> f(#[trigger] es[k].from as int) < f(es[k].to as int)
}

/// The number of edges among the first `j` of `es` that lead into `v` and
/// that `alive` keeps.
spec fn in_count(es: Seq<Edge>, alive: spec_fn(int) -> bool, v: int, j: int) -> nat
    decreases j,
{
    if j <= 0 {
        0
    } else {
        in_count(es, alive, v, j - 1) + if alive(j - 1) && es[j - 1].to == v {
            1nat
        } else {
            0nat
        }
    }
}

proof fn lemma_in_count_bound(es: Seq<Edge>, alive: spec_fn(int) -> bool, v: int, j: int)
    requires
        j >= 0,
    ensures
        in_count(es, alive, v, j) <= j,
    decreases j,
{
    if j > 0 {
        lemma_in_count_bound(es, alive, v, j - 1);
    }
}

proof fn lemma_in_count_ext(es: Seq<Edge>, a: spec_fn(int) -> bool, b: spec_fn(int) -> bool, v: int, j: int)
    requires
        forall|k: int| 0 <= k < j ==> #[trigger] a(k) == b(k),
    ensures
        in_count(es, a, v, j) == in_count(es, b, v, j),
    decreases j,
{
    if j > 0 {
        lemma_in_count_ext(es, a, b, v, j - 1);
    }
}

/// Dropping edge `k0` from the kept ones lowers the count of its target by one.
proof fn lemma_in_count_drop(es: Seq<Edge>, a: spec_fn(int) -> bool, b: spec_fn(int) -> bool, k0: int, v: int, j: int)
    requires
        0 <= k0,
        a(k0),
        !b(k0),
        forall|k: int| 0 <= k < j && k != k0 ==> #[trigger] a(k) == b(k),
    ensures
        in_count(es, b, v, j) + (if k0 < j && es[k0].to == v { 1int } else { 0int }) == in_count(es, a, v, j),
    decreases j,
{
    if j > 0 {
        lemma_in_count_drop(es, a, b, k0, v, j - 1);
    }
}

/// A count of zero means no kept edge leads into `v`; a positive count
/// names one.
proof fn lemma_in_count_witness(es: Seq<Edge>, a: spec_fn(int) -> bool, v: int, j: int) -> (k: int)
    ensures
        in_count(es, a, v, j) == 0 ==> forall|i: int| 0 <= i < j ==> !(#[trigger] a(i) && es[i].to == v),
        in_count(es, a, v, j) > 0 ==> 0 <= k < j && a(k) && es[k].to == v,
    decreases j,
{
    if j <= 0 {
        0
    } else if a(j - 1) && es[j - 1].to == v {
        j - 1
    } else {
        lemma_in_count_witness(es, a, v, j - 1)
    }
}

/// The unplaced node in `1..i` of least `f`, or `0` when there is none.
proof fn lemma_least_unplaced(placed: Seq<bool>, f: spec_fn(int) -> int, i: int) -> (x: int)
    requires
        i <= placed.len(),
    ensures
        x == 0 ==> forall|y: int| 1 <= y < i ==> #[trigger] placed[y],
        x != 0 ==> 1 <= x < i && !placed[x] && forall|y: int| 1 <= y < i && !#[trigger] placed[y] ==> f(x) <= f(y),
    decreases i,
{
    if i <= 1 {
        0
    } else {
        let x = lemma_least_unplaced(placed, f, i - 1);
        if !placed[i - 1] && (x == 0 || f(i - 1) < f(x)) {
            i - 1
        } else {
            x
        }
    }
}

/// `f` rises along every route of at least one edge, when `f` orders the edges.
proof fn lemma_route_rises(es: Seq<Edge>, f: spec_fn(int) -> int, ks: Seq<int>, a: int, b: int)
    requires
        orders_edges(es, f),
        is_route(es, ks, a, b),
        ks.len() > 0,
    ensures
        f(a) < f(b),
    decreases ks.len(),
{
    let l = ks.len() - 1;
    let e = es[ks[l]];
    assert(f(e.from as int) < f(e.to as int));
    if l > 0 {
        let pre = ks.drop_last();
        assert forall|i: int| 0 <= i < pre.len() - 1 implies #[trigger] chained(es, pre, i) by {
            assert(chained(es, ks, i));
        }
        assert(chained(es, ks, l - 1));
        lemma_route_rises(es, f, pre, a, e.from as int);
    }
}

/// A graph with a directed cycle, a route of at least one edge from a node
/// back to itself, has no order that puts every edge's source before its
/// target; so `monotone_ordering` returns `None` on it.
pub proof fn lemma_cycle_has_no_order(es: Seq<Edge>, ks: Seq<int>, a: int)
    requires
        is_route(es, ks, a, a),
        ks.len() > 0,
    ensures
        forall|f: spec_fn(int) -> int| !#[trigger] orders_edges(es, f),
{
    assert forall|f: spec_fn(int) -> int| !#[trigger] orders_edges(es, f) by {
        if orders_edges(es, f) {
            lemma_route_rises(es, f, ks, a, a);
        }
    }
}

/// The edges that still count toward in-degrees once the nodes in `placed`
/// are ordered.
spec fn unplaced_source(es: Seq<Edge>, placed: Seq<bool>) -> spec_fn(int) -> bool {
    |k: int| !placed[es[k].from as int]
}

/// Kahn's algorithm, in passes: each pass ranks, in ascending id order,
/// every unranked node whose in-degree from unranked nodes was zero when the
/// pass began. Returns the rank of each node (position `0` unused), or
/// `None` when no order puts every edge's source before its target, as on
/// any graph with a directed cycle (see `lemma_cycle_has_no_order`). The
/// ranks of the nodes are `0..n`, each used once.
pub fn monotone_ordering(graph: &Graph) -> (r: Option<Vec<usize>>)
    requires
        graph.wf(),
    ensures
        match r {
            Some(rank) => {
                &&& rank@.len() == graph.hints@.len()
                &&& orders_edges(graph.edges@, |v: int| rank@[v] as int)
                &&& forall|v: int| graph.is_node(v) ==> #[trigger] rank@[v] < graph.node_count()
                &&& forall|v: int, w: int|
                    graph.is_node(v) && graph.is_node(w) && v != w ==> #[trigger] rank@[v] != #[trigger] rank@[w]
            },
            None => forall|f: spec_fn(int) -> int| !#[trigger] orders_edges(graph.edges@, f),
        },
{
    let n = graph.hints.len() - 1;
    let m = graph.edges.len();
    let ghost es = graph.edges@;
    let mut indeg: Vec<usize> = Vec::new();
    let mut rank: Vec<usize> = Vec::new();
    let mut placed: Vec<bool> = Vec::new();
    let mut i: usize = 0;
    while i <= n
        invariant
            n < usize::MAX,
            i <= n + 1,
            indeg@.len() == i && rank@.len() == i && placed@.len() == i,
            forall|v: int| 0 <= v < i ==> #[trigger] indeg@[v] == 0,
            forall|v: int| 0 <= v < i ==> !#[trigger] placed@[v],
        decreases n + 1 - i,
    {
        indeg.push(0);
        rank.push(0);
        placed.push(false);
        i += 1;
    }
    let ghost all = unplaced_source(es, placed@);
    let mut i: usize = 0;
    while i < m
        invariant
            graph.wf(),
            n + 1 == graph.hints@.len(),
            es == graph.edges@,
            m == es.len(),
            i <= m,
            indeg@.len() == n + 1,
            placed@.len() == n + 1,
            forall|v: int| 0 <= v <= n ==> !#[trigger] placed@[v],
            all == unplaced_source(es, placed@),
            forall|v: int| 0 <= v <= n ==> #[trigger] indeg@[v] == in_count(es, all, v, i as int),
        decreases m - i,
    {
        let to = graph.edges[i].to;
        proof {
            assert(graph.edge_in_group(i as int));
            lemma_in_count_bound(es, all, to as int, i as int);
            assert(!placed@[es[i as int].from as int]);
        }
        indeg.set(to, indeg[to] + 1);
        i += 1;
    }
    let mut counter: usize = 0;
    let ghost mut ps: Set<int> = Set::empty();
    proof {
        assert forall|k: int| 0 <= k < m && placed@[es[k].to as int] implies placed@[#[trigger] es[k].from as int]
            && rank@[es[k].from as int] < rank@[es[k].to as int] by {
            assert(graph.edge_in_group(k));
        }
        assert forall|v: int| all == unplaced_source(es, placed@) && 0 <= v <= n implies #[trigger] indeg@[v]
            == in_count(es, unplaced_source(es, placed@), v, m as int) by {}
    }
    while counter < n
        invariant
            graph.wf(),
            n + 1 == graph.hints@.len(),
            n < usize::MAX,
            es == graph.edges@,
            m == es.len(),
            indeg@.len() == n + 1 && rank@.len() == n + 1 && placed@.len() == n + 1,
            ps.finite(),
            ps.len() == counter,
            counter <= n,
            forall|v: int| #[trigger] ps.contains(v) ==> 1 <= v <= n,
            forall|v: int| 0 <= v <= n ==> (#[trigger] placed@[v] <==> ps.contains(v)),
            forall|v: int| 0 <= v <= n ==> #[trigger] indeg@[v] == in_count(es, unplaced_source(es, placed@), v, m as int),
            forall|v: int| #[trigger] ps.contains(v) ==> rank@[v] < counter,
            forall|v: int, w: int| ps.contains(v) && ps.contains(w) && v != w ==> #[trigger] rank@[v] != #[trigger] rank@[w],
            forall|k: int| 0 <= k < m && placed@[es[k].to as int] ==> placed@[#[trigger] es[k].from as int]
                && rank@[es[k].from as int] < rank@[es[k].to as int],
        decreases n - counter,
    {
        // The nodes that are ready at the start of this pass.
        let mut eligible: Vec<usize> = Vec::new();
        let mut v: usize = 1;
        while v <= n
            invariant
                1 <= v <= n + 1,
                n < usize::MAX,
                indeg@.len() == n + 1 && placed@.len() == n + 1,
                forall|q: int| 0 <= q < eligible@.len() ==> 1 <= #[trigger] eligible@[q] < v,
                forall|q: int| 0 <= q < eligible@.len() ==> !placed@[#[trigger] eligible@[q] as int] && indeg@[eligible@[q] as int] == 0,
                forall|q: int, q2: int| 0 <= q < q2 < eligible@.len() ==> #[trigger] eligible@[q] < #[trigger] eligible@[q2],
                forall|x: int| 1 <= x < v && !placed@[x] && indeg@[x] == 0 ==> #[trigger] eligible@.contains(x as usize),
            decreases n + 1 - v,
        {
            if !placed[v] && indeg[v] == 0 {
                let ghost old_e = eligible@;
                eligible.push(v);
                proof {
                    assert forall|x: int| 1 <= x < v + 1 && !placed@[x] && indeg@[x] == 0 implies #[trigger] eligible@.contains(x as usize) by {
                        if x < v {
                            assert(old_e.contains(x as usize));
                            let q = choose|q: int| 0 <= q < old_e.len() && old_e[q] == x as usize;
                            assert(eligible@[q] == x as usize);
                        } else {
                            assert(eligible@[old_e.len() as int] == v);
                        }
                    }
                }
            }
            v += 1;
        }
        if eligible.len() == 0 {
            proof {
                let pl = placed@;
                let y = lemma_least_unplaced(pl, |x: int| 0, n as int + 1);
                if y == 0 {
                    assert(ps =~= vstd::set_lib::set_int_range(1, n as int + 1)) by {
                        assert forall|x: int| 1 <= x <= n implies ps.contains(x) by {
                            assert(pl[x]);
                        }
                    }
                    vstd::set_lib::lemma_int_range(1, n as int + 1);
                }
                assert forall|f: spec_fn(int) -> int| !#[trigger] orders_edges(es, f) by {
                    let x = lemma_least_unplaced(pl, f, n as int + 1);
                    assert(x != 0);
                    if indeg@[x] == 0 {
                        assert(eligible@.contains(x as usize));
                    }
                    let k = lemma_in_count_witness(es, unplaced_source(es, pl), x, m as int);
                    if orders_edges(es, f) {
                        assert(f(es[k].from as int) < f(es[k].to as int));
                        assert(graph.edge_in_group(k));
                    }
                }
            }
            return None;
        }
        let ghost start_placed = placed@;
        let ghost start_counter = counter;
        proof {
            assert forall|q: int, k: int| 0 <= q < eligible@.len() && 0 <= k < m && es[k].to == #[trigger] eligible@[q]
                implies #[trigger] start_placed[es[k].from as int] by {
                let x = eligible@[q] as int;
                lemma_in_count_witness(es, unplaced_source(es, start_placed), x, m as int);
                assert(!(unplaced_source(es, start_placed)(k) && es[k].to == x));
            }
        }
        let mut p: usize = 0;
        while p < eligible.len()
            invariant
                graph.wf(),
                n + 1 == graph.hints@.len(),
                n < usize::MAX,
                es == graph.edges@,
                m == es.len(),
                indeg@.len() == n + 1 && rank@.len() == n + 1 && placed@.len() == n + 1,
                start_placed.len() == n + 1,
                p <= eligible@.len(),
                ps.finite(),
                ps.len() == counter,
                counter == start_counter + p,
                counter <= n,
                forall|v: int| #[trigger] ps.contains(v) ==> 1 <= v <= n,
                forall|v: int| 0 <= v <= n ==> (#[trigger] placed@[v] <==> ps.contains(v)),
                forall|v: int| 0 <= v <= n ==> #[trigger] indeg@[v] == in_count(es, unplaced_source(es, placed@), v, m as int),
                forall|v: int| #[trigger] ps.contains(v) ==> rank@[v] < counter,
                forall|v: int, w: int| ps.contains(v) && ps.contains(w) && v != w ==> #[trigger] rank@[v] != #[trigger] rank@[w],
                forall|k: int| 0 <= k < m && placed@[es[k].to as int] ==> placed@[#[trigger] es[k].from as int]
                    && rank@[es[k].from as int] < rank@[es[k].to as int],
                forall|q: int| 0 <= q < eligible@.len() ==> 1 <= #[trigger] eligible@[q] <= n,
                forall|q: int| p <= q < eligible@.len() ==> !placed@[#[trigger] eligible@[q] as int],
                forall|q: int, q2: int| 0 <= q < q2 < eligible@.len() ==> #[trigger] eligible@[q] < #[trigger] eligible@[q2],
                forall|q: int, k: int| 0 <= q < eligible@.len() && 0 <= k < m && es[k].to == #[trigger] eligible@[q]
                    ==> #[trigger] start_placed[es[k].from as int],
                forall|v: int| 0 <= v <= n && #[trigger] start_placed[v] ==> placed@[v] && rank@[v] < start_counter,
            decreases eligible@.len() - p,
        {
            let x = eligible[p];
            let ghost old_placed = placed@;
            let ghost old_rank = rank@;
            proof {
                assert(!ps.contains(x as int));
                assert(ps.insert(x as int).subset_of(vstd::set_lib::set_int_range(1, n as int + 1)));
                vstd::set_lib::lemma_int_range(1, n as int + 1);
                vstd::set_lib::lemma_len_subset(ps.insert(x as int), vstd::set_lib::set_int_range(1, n as int + 1));
            }
            placed.set(x, true);
            rank.set(x, counter);
            proof {
                ps = ps.insert(x as int);
                assert forall|k: int| 0 <= k < m && placed@[es[k].to as int] implies placed@[#[trigger] es[k].from as int]
                    && rank@[es[k].from as int] < rank@[es[k].to as int] by {
                    assert(graph.edge_in_group(k));
                    if es[k].to == x {
                        assert(start_placed[es[k].from as int]);
                    } else if es[k].from == x {
                        assert(old_placed[es[k].to as int]);
                    }
                }
                assert forall|v: int, w: int| ps.contains(v) && ps.contains(w) && v != w implies #[trigger] rank@[v] != #[trigger] rank@[w] by {
                    if v != x && w != x {
                        assert(old_rank[v] != old_rank[w]);
                    }
                }
            }
            counter += 1;
            let lo = graph.hints[x - 1];
            let hi = graph.hints[x];
            let ghost a0 = unplaced_source(es, old_placed);
            proof {
                assert(graph.is_node(x as int));
                let a1 = |k: int| !placed@[es[k].from as int] || (es[k].from == x && k >= lo);
                assert forall|k: int| 0 <= k < m implies #[trigger] a0(k) == a1(k) by {
                    assert(graph.edge_in_group(k));
                }
                assert forall|v: int| 0 <= v <= n implies #[trigger] indeg@[v] == in_count(es, a1, v, m as int) by {
                    lemma_in_count_ext(es, a0, a1, v, m as int);
                }
            }
            let mut kk: usize = lo;
            while kk < hi
                invariant
                    graph.wf(),
                    n + 1 == graph.hints@.len(),
                    es == graph.edges@,
                    m == es.len(),
                    graph.is_node(x as int),
                    placed@[x as int],
                    placed@.len() == n + 1,
                    lo == graph.hints@[x - 1],
                    hi == graph.hints@[x as int],
                    lo <= kk <= hi,
                    indeg@.len() == n + 1,
                    forall|v: int| 0 <= v <= n ==> #[trigger] indeg@[v] == in_count(
                        es,
                        |k: int| !placed@[es[k].from as int] || (es[k].from == x && k >= kk),
                        v,
                        m as int,
                    ),
                decreases hi - kk,
            {
                let to = graph.edges[kk].to;
                let ghost a = |k: int| !placed@[es[k].from as int] || (es[k].from == x && k >= kk);
                let ghost b = |k: int| !placed@[es[k].from as int] || (es[k].from == x && k >= kk + 1);
                proof {
                    assert(graph.edge_in_group(kk as int));
                    assert forall|k: int| 0 <= k < m && k != kk implies #[trigger] a(k) == b(k) by {}
                    assert forall|v: int| 0 <= v <= n implies #[trigger] indeg@[v] - (if v == to { 1int } else { 0int })
                        == in_count(es, b, v, m as int) by {
                        lemma_in_count_drop(es, a, b, kk as int, v, m as int);
                    }
                }
                indeg.set(to, indeg[to] - 1);
                kk += 1;
            }
            proof {
                let a = |k: int| !placed@[es[k].from as int] || (es[k].from == x && k >= hi);
                assert forall|k: int| 0 <= k < m implies #[trigger] a(k) == unplaced_source(es, placed@)(k) by {
                    assert(graph.edge_in_group(k));
                }
                assert forall|v: int| 0 <= v <= n implies #[trigger] indeg@[v] == in_count(es, unplaced_source(es, placed@), v, m as int) by {
                    lemma_in_count_ext(es, a, unplaced_source(es, placed@), v, m as int);
                }
            }
            p += 1;
        }
    }
    proof {
        assert forall|y: int| 1 <= y <= n implies #[trigger] placed@[y] by {
            if !placed@[y] {
                let rest = vstd::set_lib::set_int_range(1, n as int + 1).remove(y);
                assert(ps.subset_of(rest));
                vstd::set_lib::lemma_int_range(1, n as int + 1);
                vstd::set_lib::lemma_len_subset(ps, rest);
            }
        }
        assert forall|k: int| 0 <= k < m implies (|v: int| rank@[v] as int)(#[trigger] es[k].from as int)
            < (|v: int| rank@[v] as int)(es[k].to as int) by {
            assert(graph.edge_in_group(k));
            assert(placed@[es[k].to as int]);
        }
        assert(orders_edges(es, |v: int| rank@[v] as int));
        assert forall|v: int| graph.is_node(v) implies #[trigger] rank@[v] < graph.node_count() by {
            assert(placed@[v]);
            assert(ps.contains(v));
        }
        assert forall|v: int, w: int| graph.is_node(v) && graph.is_node(w) && v != w implies #[trigger] rank@[v]
            != #[trigger] rank@[w] by {
            assert(placed@[v] && placed@[w]);
            assert(ps.contains(v) && ps.contains(w));
        }
    }
    Some(rank)
}

} // verus!
