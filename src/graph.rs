use vstd::prelude::*;
use crate::text::{parse_edges, parse_text};

verus! {

/// A directed edge with a non-negative weight.
#[derive(Debug, Clone, Copy, PartialEq, Eq, Structural)]
pub struct Edge {
    pub from: usize,
    pub to: usize,
    pub weight: usize,
}

/// Why an edge list could not become a graph.
#[derive(Debug, Clone, Copy, PartialEq, Eq, Structural)]
pub enum LoadError {
    /// A line is not three non-negative integers separated by whitespace.
    MalformedInput,
    /// An edge names node `0`, which is reserved.
    ZeroNode,
    /// The edges are not grouped by ascending source node.
    OutOfOrder,
}

/// Every endpoint of every edge is a positive node id.
pub open spec fn no_zero_node(es: Seq<Edge>) -> bool {
    forall|k: int| 0 <= k < es.len() ==> #[trigger] es[k].from >= 1 && es[k].to >= 1
}

/// The edges are sorted by source node.
pub open spec fn sorted_by_source(es: Seq<Edge>) -> bool {
    forall|i: int, j: int| 0 <= i <= j < es.len() ==> es[i].from <= es[j].from
}

/// `n` bounds every endpoint and is reached by one, or is `0` when there is
/// no edge: the largest node id that the edges mention.
pub open spec fn is_max_node(es: Seq<Edge>, n: int) -> bool {
    &&& forall|k: int| 0 <= k < es.len() ==> #[trigger] es[k].from <= n && es[k].to <= n
    &&& (es.len() == 0 ==> n == 0)
    &&& (es.len() > 0 ==> exists|k: int| 0 <= k < es.len() && (#[trigger] es[k].from == n || es[k].to == n))
}

/// The edges before position `h` have sources up to `j`, the others beyond.
pub open spec fn splits_at(es: Seq<Edge>, h: int, j: int) -> bool {
    &&& 0 <= h <= es.len()
    &&& forall|i: int| 0 <= i < h ==> #[trigger] es[i].from <= j
    &&& forall|i: int| h <= i < es.len() ==> #[trigger] es[i].from > j
}

/// `r` is the graph of the edges `es`, or the reason there is none.
pub open spec fn built_from(es: Seq<Edge>, r: Result<Graph, LoadError>) -> bool {
    match r {
        Ok(g) => {
            &&& no_zero_node(es)
            &&& sorted_by_source(es)
            &&& g.wf()
            &&& g.edges@ == es
            &&& is_max_node(es, g.node_count())
        },
        Err(LoadError::ZeroNode) => !no_zero_node(es),
        Err(LoadError::OutOfOrder) => no_zero_node(es) && !sorted_by_source(es),
        Err(LoadError::MalformedInput) => false,
    }
}

/// Filtering keeps a sequence whole when each element passes, and empties it
/// when none does.
proof fn lemma_filter_all(s: Seq<Edge>, pred: spec_fn(Edge) -> bool)
    ensures
        (forall|k: int| 0 <= k < s.len() ==> pred(#[trigger] s[k])) ==> s.filter(pred) == s,
        (forall|k: int| 0 <= k < s.len() ==> !pred(#[trigger] s[k])) ==> s.filter(pred) == Seq::<Edge>::empty(),
    decreases s.len(),
{
    reveal(Seq::filter);
    if s.len() > 0 {
        let t = s.drop_last();
        lemma_filter_all(t, pred);
        if forall|k: int| 0 <= k < s.len() ==> pred(#[trigger] s[k]) {
            assert forall|k: int| 0 <= k < t.len() implies pred(#[trigger] t[k]) by {
                assert(t[k] == s[k]);
            }
            assert(s.filter(pred) =~= s);
        }
        if forall|k: int| 0 <= k < s.len() ==> !pred(#[trigger] s[k]) {
            assert forall|k: int| 0 <= k < t.len() implies !pred(#[trigger] t[k]) by {
                assert(t[k] == s[k]);
            }
            assert(!pred(s[s.len() - 1]));
        }
    } else {
        assert(s.filter(pred) =~= Seq::<Edge>::empty());
    }
}

/// A graph over the nodes `1..=n`, stored as one edge list grouped by
/// source node. The out-edges of node `i` are
/// `edges[hints[i - 1]..hints[i]]`; `hints` has `n + 1` entries and node
/// `0` is never used.
pub struct Graph {
    pub hints: Vec<usize>,
    pub edges: Vec<Edge>,
}

impl Graph {
    /// Number of nodes.
    pub open spec fn node_count(&self) -> int {
        self.hints@.len() - 1
    }

    /// `v` names a node of the graph.
    pub open spec fn is_node(&self, v: int) -> bool {
        1 <= v <= self.node_count()
    }

    /// The edge at position `k` lies in the range of its source node.
    pub open spec fn edge_in_group(&self, k: int) -> bool {
        let e = self.edges@[k];
        &&& self.is_node(e.from as int)
        &&& self.is_node(e.to as int)
        &&& self.hints@[e.from - 1] <= k < self.hints@[e.from as int]
    }

    /// The offsets are non-decreasing, start at zero, close with the edge
    /// count, and every edge sits in the range of its source node.
    pub open spec fn wf(&self) -> bool {
        &&& self.hints@.len() >= 1
        &&& self.hints@[0] == 0
        &&& self.hints@[self.node_count()] == self.edges@.len()
        &&& forall|i: int, j: int|
            0 <= i <= j < self.hints@.len() ==> self.hints@[i] <= self.hints@[j]
        &&& forall|k: int| 0 <= k < self.edges@.len() ==> #[trigger] self.edge_in_group(k)
    }

    /// The out-edges of node `v`.
    pub open spec fn out_edges(&self, v: int) -> Seq<Edge> {
        self.edges@.subrange(self.hints@[v - 1] as int, self.hints@[v] as int)
    }

    /// Builds the graph of `edges`, whose nodes are `1..=n` for the largest
    /// id `n` that an edge mentions. A node without out-edges gets an empty
    /// range, wherever it stands.
    pub fn new_from_edges(edges: Vec<Edge>) -> (r: Result<Graph, LoadError>)
        ensures
            built_from(edges@, r),
    {
        let m = edges.len();
        let mut n: usize = 0;
        let mut i: usize = 0;
        while i < m
            invariant
                i <= m == edges@.len(),
                forall|k: int| 0 <= k < i ==> #[trigger] edges@[k].from >= 1 && edges@[k].to >= 1,
                forall|k: int| 0 <= k < i ==> #[trigger] edges@[k].from <= n && edges@[k].to <= n,
                i == 0 ==> n == 0,
                i > 0 ==> exists|k: int| 0 <= k < i && (#[trigger] edges@[k].from == n || edges@[k].to == n),
            decreases m - i,
        {
            let e = edges[i];
            let ghost old_n = n;
            if e.from == 0 || e.to == 0 {
                proof {
                    if no_zero_node(edges@) {
                        assert(edges@[i as int].from >= 1 && edges@[i as int].to >= 1);
                    }
                }
                return Err(LoadError::ZeroNode);
            }
            if e.from > n {
                n = e.from;
            }
            if e.to > n {
                n = e.to;
            }
            proof {
                if e.from == n || e.to == n {
                    assert(edges@[i as int] == e);
                } else {
                    assert(n == old_n);
                    assert(i > 0);
                    let k = choose|k: int| 0 <= k < i && (#[trigger] edges@[k].from == old_n || edges@[k].to == old_n);
                    assert(0 <= k < i + 1);
                }
            }
            i += 1;
        }
        assert(no_zero_node(edges@));
        let mut i: usize = 1;
        while i < m
            invariant
                1 <= i,
                m == edges@.len(),
                no_zero_node(edges@),
                forall|a: int, b: int| 0 <= a <= b < i && b < m ==> edges@[a].from <= edges@[b].from,
            decreases m - i,
        {
            if edges[i - 1].from > edges[i].from {
                proof {
                    assert(!(edges@[i - 1].from <= edges@[i as int].from));
                    assert forall|k: int| 0 <= k < m implies #[trigger] edges@[k].from >= 1 && edges@[k].to >= 1 by {}
                }
                return Err(LoadError::OutOfOrder);
            }
            i += 1;
        }
        let mut hints: Vec<usize> = Vec::new();
        hints.push(0);
        let mut k: usize = 0;
        proof {
            assert(no_zero_node(edges@));
            assert forall|i: int| 0 <= i < m implies edges@[i].from > 0 by {
                assert(edges@[i].from >= 1 && edges@[i].to >= 1);
            }
        }
        let mut v: usize = 0;
        while v < n
            invariant
                v <= n,
                m == edges@.len(),
                k <= m,
                hints@.len() == v + 1,
                hints@[0] == 0,
                hints@[v as int] == k,
                sorted_by_source(edges@),
                is_max_node(edges@, n as int),
                no_zero_node(edges@),
                forall|j: int| 0 <= j <= v ==> splits_at(edges@, #[trigger] hints@[j] as int, j),
                forall|i: int| 0 <= i < k ==> edges@[i].from <= v,
                forall|i: int| k <= i < m ==> edges@[i].from > v,
            decreases n - v,
        {
            v += 1;
            while k < m && edges[k].from == v
                invariant
                    1 <= v <= n,
                    m == edges@.len(),
                    k <= m,
                    sorted_by_source(edges@),
                    forall|i: int| 0 <= i < k ==> edges@[i].from <= v,
                    forall|i: int| k <= i < m ==> edges@[i].from >= v,
                decreases m - k,
            {
                k += 1;
            }
            proof {
                assert forall|i: int| k <= i < m implies edges@[i].from > v by {
                    assert(edges@[k as int].from <= edges@[i].from);
                }
            }
            hints.push(k);
        }
        proof {
            if k < m {
                assert(edges@[k as int].from <= n);
            }
        }
        let g = Graph { hints, edges };
        assert forall|i: int, j: int| 0 <= i <= j < g.hints@.len() implies g.hints@[i] <= g.hints@[j] by {
            assert(splits_at(g.edges@, g.hints@[i] as int, i));
            assert(splits_at(g.edges@, g.hints@[j] as int, j));
            if g.hints@[j] < g.hints@[i] {
                let x = g.hints@[j] as int;
                assert(g.edges@[x].from <= i);
            }
        }
        assert forall|x: int| 0 <= x < g.edges@.len() implies #[trigger] g.edge_in_group(x) by {
            let f = g.edges@[x].from as int;
            assert(g.edges@[x].from >= 1 && g.edges@[x].to >= 1);
            assert(g.edges@[x].from <= n && g.edges@[x].to <= n);
            assert(splits_at(g.edges@, g.hints@[f - 1] as int, f - 1));
            assert(splits_at(g.edges@, g.hints@[f] as int, f));
        }
        Ok(g)
    }

    /// Reads a graph from text with one edge per line, `from to weight`,
    /// three non-negative integers separated by whitespace, lines grouped by
    /// ascending `from`.
    pub fn new(text: &[u8]) -> (r: Result<Graph, LoadError>)
        ensures
            match parse_text(text@) {
                None => r == Err::<Graph, LoadError>(LoadError::MalformedInput),
                Some(es) => built_from(es, r),
            },
    {
        match parse_edges(text) {
            None => Err(LoadError::MalformedInput),
            Some(edges) => Graph::new_from_edges(edges),
        }
    }

    /// What `children(i)` returns is exactly the list of edges whose source
    /// is `i`, for every node `i`.
    pub proof fn lemma_children_are_out_edges(&self, i: int)
        requires
            self.wf(),
            self.is_node(i),
        ensures
            self.out_edges(i) == self.edges@.filter(|e: Edge| e.from == i),
    {
        let es = self.edges@;
        let lo = self.hints@[i - 1] as int;
        let hi = self.hints@[i] as int;
        let pred = |e: Edge| e.from == i;
        let a = es.take(lo);
        let b = es.subrange(lo, hi);
        let c = es.skip(hi);
        assert(es =~= a + b + c);
        assert forall|k: int| 0 <= k < a.len() implies !pred(#[trigger] a[k]) by {
            assert(self.edge_in_group(k));
            assert(a[k] == es[k]);
            let f = es[k].from as int;
            if f >= i {
                assert(self.hints@[i - 1] <= self.hints@[f - 1]);
            }
        }
        assert forall|k: int| 0 <= k < b.len() implies pred(#[trigger] b[k]) by {
            assert(self.edge_in_group(k + lo));
            assert(b[k] == es[k + lo]);
            let f = es[k + lo].from as int;
            if f < i {
                assert(self.hints@[f] <= self.hints@[i - 1]);
            } else if f > i {
                assert(self.hints@[i] <= self.hints@[f - 1]);
            }
        }
        assert forall|k: int| 0 <= k < c.len() implies !pred(#[trigger] c[k]) by {
            assert(self.edge_in_group(k + hi));
            assert(c[k] == es[k + hi]);
            let f = es[k + hi].from as int;
            if f <= i {
                assert(self.hints@[f] <= self.hints@[i]);
            }
        }
        lemma_filter_all(a, pred);
        lemma_filter_all(b, pred);
        lemma_filter_all(c, pred);
        Seq::filter_distributes_over_add(a + b, c, pred);
        Seq::filter_distributes_over_add(a, b, pred);
        assert(Seq::<Edge>::empty() + b + Seq::<Edge>::empty() =~= b);
    }

    /// The out-edges of `node`.
    pub fn children(&self, node: usize) -> (r: &[Edge])
        requires
            self.wf(),
            self.is_node(node as int),
        ensures
            r@ == self.out_edges(node as int),
    {
        &self.edges.as_slice()[self.hints[node - 1]..self.hints[node]]
    }
}

} // verus!
