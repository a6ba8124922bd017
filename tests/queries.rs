use graph_queries::graph::{Edge, Graph, LoadError};
use graph_queries::ordering::monotone_ordering;
use graph_queries::shortest::label_set;
use graph_queries::spanning::{kruskal, weight_order};
use graph_queries::text::parse_edges;

fn load(text: &str) -> Graph {
    Graph::new(text.as_bytes()).unwrap()
}

fn edge(from: usize, to: usize, weight: usize) -> Edge {
    Edge { from, to, weight }
}

fn load_error(text: &str) -> LoadError {
    match Graph::new(text.as_bytes()) {
        Ok(_) => panic!("expected an error"),
        Err(e) => e,
    }
}

const SCENARIO: &str = "1 2 1\n1 3 4\n2 3 1\n";

#[test]
fn scenario_shortest_path_takes_cheaper_detour() {
    let g = load(SCENARIO);
    assert_eq!(label_set(1, 3, &g), Some((vec![1, 2, 3], 2)));
}

#[test]
fn scenario_spanning_tree() {
    let g = load(SCENARIO);
    let t = kruskal(&g).unwrap();
    assert_eq!(t, vec![edge(1, 2, 1), edge(2, 3, 1)]);
    assert_eq!(t.iter().map(|e| e.weight).sum::<usize>(), 2);
}

#[test]
fn scenario_topological_order() {
    let g = load(SCENARIO);
    let rank = monotone_ordering(&g).unwrap();
    assert!(rank[1] < rank[2]);
    assert!(rank[2] < rank[3]);
}

#[test]
fn loader_groups_edges_by_source() {
    let g = load("1 2 5\n1 3 6\n2 3 7\n3 1 8\n");
    assert_eq!(g.hints, vec![0, 2, 3, 4]);
    assert_eq!(g.children(1), &[edge(1, 2, 5), edge(1, 3, 6)][..]);
    assert_eq!(g.children(2), &[edge(2, 3, 7)][..]);
    assert_eq!(g.children(3), &[edge(3, 1, 8)][..]);
}

#[test]
fn loader_children_match_source_for_every_node() {
    let g = load("1 4 1\n1 2 2\n2 3 3\n4 1 4\n4 2 5\n4 3 6\n");
    for i in 1..g.hints.len() {
        let expected: Vec<Edge> = g.edges.iter().copied().filter(|e| e.from == i).collect();
        assert_eq!(g.children(i).to_vec(), expected);
    }
}

#[test]
fn loader_backfills_nodes_without_out_edges() {
    let g = load("1 3 5\n3 1 2\n");
    assert_eq!(g.hints, vec![0, 1, 1, 2]);
    assert!(g.children(2).is_empty());
    assert_eq!(g.children(3), &[edge(3, 1, 2)][..]);
}

#[test]
fn loader_gives_trailing_sinks_a_range() {
    let g = load("1 4 1\n");
    assert_eq!(g.hints, vec![0, 1, 1, 1, 1]);
    assert!(g.children(4).is_empty());
}

#[test]
fn loader_accepts_empty_text() {
    let g = load("");
    assert_eq!(g.hints, vec![0]);
    assert!(g.edges.is_empty());
}

#[test]
fn loader_accepts_extra_whitespace_and_crlf() {
    let g = load("  1\t2   3 \r\n1 3 4\r\n2 3 1");
    assert_eq!(g.edges, vec![edge(1, 2, 3), edge(1, 3, 4), edge(2, 3, 1)]);
}

#[test]
fn loader_accepts_largest_number() {
    let text = format!("1 2 {}\n", usize::MAX);
    let g = load(&text);
    assert_eq!(g.edges, vec![edge(1, 2, usize::MAX)]);
}

#[test]
fn loader_rejects_too_few_tokens() {
    assert_eq!(load_error("1 2\n"), LoadError::MalformedInput);
}

#[test]
fn loader_rejects_too_many_tokens() {
    assert_eq!(load_error("1 2 3 4\n"), LoadError::MalformedInput);
}

#[test]
fn loader_rejects_non_integer_token() {
    assert_eq!(load_error("1 2 x\n"), LoadError::MalformedInput);
    assert_eq!(load_error("1 -2 3\n"), LoadError::MalformedInput);
}

#[test]
fn loader_rejects_blank_line() {
    assert_eq!(load_error("1 2 3\n\n2 3 4\n"), LoadError::MalformedInput);
}

#[test]
fn loader_rejects_number_beyond_usize() {
    let text = format!("1 2 {}0\n", usize::MAX);
    assert_eq!(load_error(&text), LoadError::MalformedInput);
}

#[test]
fn loader_rejects_zero_node() {
    assert_eq!(load_error("0 1 3\n"), LoadError::ZeroNode);
    assert_eq!(load_error("1 0 3\n"), LoadError::ZeroNode);
}

#[test]
fn loader_rejects_unsorted_sources() {
    assert_eq!(load_error("2 1 3\n1 2 3\n"), LoadError::OutOfOrder);
}

#[test]
fn parse_edges_reads_lines() {
    assert_eq!(parse_edges(b"1 2 3\n4 5 6\n"), Some(vec![edge(1, 2, 3), edge(4, 5, 6)]));
    assert_eq!(parse_edges(b"1 2 3\n4 5"), None);
}

#[test]
fn new_from_edges_builds_offsets() {
    let g = Graph::new_from_edges(vec![edge(1, 2, 1), edge(2, 3, 1)]).unwrap();
    assert_eq!(g.hints, vec![0, 1, 2, 2]);
}

#[test]
fn shortest_path_unreachable_is_none() {
    let g = load("1 2 1\n3 1 1\n");
    assert_eq!(label_set(1, 3, &g), None);
    assert_eq!(label_set(2, 1, &g), None);
}

#[test]
fn shortest_path_to_itself_is_empty_route() {
    let g = load(SCENARIO);
    assert_eq!(label_set(2, 2, &g), Some((vec![2], 0)));
}

#[test]
fn shortest_path_uses_edge_direction() {
    let g = load("1 2 1\n3 2 1\n");
    assert_eq!(label_set(1, 2, &g), Some((vec![1, 2], 1)));
    assert_eq!(label_set(2, 3, &g), None);
}

#[test]
fn shortest_path_handles_zero_weights() {
    let g = load("1 2 0\n1 4 1\n2 3 0\n3 4 0\n");
    assert_eq!(label_set(1, 4, &g), Some((vec![1, 2, 3, 4], 0)));
}

/// Least cost over all simple paths, by enumeration.
fn brute_force_cost(g: &Graph, at: usize, end: usize, seen: &mut Vec<bool>) -> Option<usize> {
    if at == end {
        return Some(0);
    }
    seen[at] = true;
    let mut best: Option<usize> = None;
    for e in g.children(at) {
        if !seen[e.to] {
            if let Some(c) = brute_force_cost(g, e.to, end, seen) {
                let total = c + e.weight;
                best = Some(best.map_or(total, |b| b.min(total)));
            }
        }
    }
    seen[at] = false;
    best
}

fn sample_graphs() -> Vec<String> {
    let mut texts = Vec::new();
    let mut seed: u64 = 12345;
    for round in 0..40 {
        let n = 2 + round % 7;
        let mut lines = Vec::new();
        for from in 1..=n {
            for to in 1..=n {
                seed = seed.wrapping_mul(6364136223846793005).wrapping_add(1442695040888963407);
                if (seed >> 33) % 3 == 0 {
                    let w = (seed >> 40) % 10;
                    lines.push(format!("{} {} {}", from, to, w));
                }
            }
        }
        lines.push(format!("{} {} {}", n, n, 1));
        texts.push(lines.join("\n"));
    }
    texts
}

#[test]
fn shortest_path_matches_enumeration_on_small_graphs() {
    for text in sample_graphs() {
        let g = load(&text);
        let n = g.hints.len() - 1;
        for start in 1..=n {
            for end in 1..=n {
                let mut seen = vec![false; n + 1];
                let expected = brute_force_cost(&g, start, end, &mut seen);
                let got = label_set(start, end, &g);
                assert_eq!(got.as_ref().map(|r| r.1), expected, "{} from {} to {}", text, start, end);
                if let Some((path, cost)) = got {
                    assert_eq!(path[0], start);
                    assert_eq!(*path.last().unwrap(), end);
                    let mut sum = 0;
                    for pair in path.windows(2) {
                        let w = g.children(pair[0]).iter().filter(|e| e.to == pair[1]).map(|e| e.weight).min();
                        sum += w.expect("consecutive nodes joined by an edge");
                    }
                    assert_eq!(sum, cost);
                }
            }
        }
    }
}

#[test]
fn weight_order_is_stable() {
    let es = vec![edge(1, 2, 3), edge(1, 3, 1), edge(2, 3, 3), edge(3, 1, 1)];
    assert_eq!(weight_order(&es), vec![1, 3, 0, 2]);
}

#[test]
fn spanning_tree_of_disjoint_components_is_none() {
    let g = load("1 2 1\n3 4 1\n");
    assert_eq!(kruskal(&g), None);
}

#[test]
fn spanning_tree_of_isolated_node_is_none() {
    let g = load("1 2 1\n2 1 1\n3 3 1\n");
    assert_eq!(kruskal(&g), None);
}

#[test]
fn spanning_tree_of_single_node_is_empty() {
    let g = load("1 1 5\n");
    assert_eq!(kruskal(&g), Some(vec![]));
}

#[test]
fn spanning_tree_ignores_direction() {
    let g = load("1 3 2\n2 3 1\n");
    assert_eq!(kruskal(&g), Some(vec![edge(2, 3, 1), edge(1, 3, 2)]));
}

fn find(parent: &mut Vec<usize>, x: usize) -> usize {
    let mut r = x;
    while parent[r] != r {
        r = parent[r];
    }
    r
}

/// Least weight over every spanning tree, by enumeration of edge subsets.
fn brute_force_tree_weight(g: &Graph) -> Option<usize> {
    let n = g.hints.len() - 1;
    let m = g.edges.len();
    let mut best: Option<usize> = None;
    for mask in 0u32..(1u32 << m) {
        if mask.count_ones() as usize != n - 1 {
            continue;
        }
        let mut parent: Vec<usize> = (0..=n).collect();
        let mut ok = true;
        let mut w = 0;
        for k in 0..m {
            if mask & (1 << k) != 0 {
                let e = g.edges[k];
                let (a, b) = (find(&mut parent, e.from), find(&mut parent, e.to));
                if a == b {
                    ok = false;
                    break;
                }
                parent[a] = b;
                w += e.weight;
            }
        }
        if ok {
            best = Some(best.map_or(w, |b| b.min(w)));
        }
    }
    best
}

#[test]
fn spanning_tree_weight_matches_enumeration_on_small_graphs() {
    let texts = [
        "1 2 4\n1 3 1\n2 3 2\n2 4 5\n3 4 8\n4 5 3\n5 1 7\n",
        "1 2 3\n2 3 3\n3 4 3\n4 1 3\n4 2 1\n",
        "1 2 9\n1 4 2\n2 3 1\n3 1 6\n3 5 4\n4 5 4\n5 2 2\n5 6 7\n6 1 1\n",
        "1 2 1\n2 3 1\n4 5 1\n",
    ];
    for text in texts {
        let g = load(text);
        let n = g.hints.len() - 1;
        let expected = brute_force_tree_weight(&g);
        let got = kruskal(&g);
        assert_eq!(got.as_ref().map(|t| t.iter().map(|e| e.weight).sum::<usize>()), expected, "{}", text);
        if let Some(t) = got {
            assert_eq!(t.len(), n - 1);
            for e in &t {
                assert!(g.edges.contains(e));
            }
        }
    }
}

#[test]
fn topological_order_respects_every_edge() {
    let g = load("1 2 0\n1 3 0\n2 4 0\n3 4 0\n4 5 0\n");
    let rank = monotone_ordering(&g).unwrap();
    for e in &g.edges {
        assert!(rank[e.from] < rank[e.to]);
    }
    let mut ranks: Vec<usize> = rank[1..].to_vec();
    ranks.sort();
    assert_eq!(ranks, vec![0, 1, 2, 3, 4]);
}

#[test]
fn topological_order_goes_in_passes() {
    let g = load("1 3 0\n2 3 0\n3 4 0\n");
    assert_eq!(monotone_ordering(&g), Some(vec![0, 0, 1, 2, 3]));
}

#[test]
fn topological_order_defers_nodes_freed_within_a_pass() {
    let g = load("1 2 0\n");
    assert_eq!(monotone_ordering(&g), Some(vec![0, 0, 1]));
    let g = load("2 1 0\n");
    assert_eq!(monotone_ordering(&g), Some(vec![0, 1, 0]));
}

#[test]
fn topological_order_detects_cycle() {
    let g = load("1 2 0\n2 3 0\n3 1 0\n");
    assert_eq!(monotone_ordering(&g), None);
}

#[test]
fn topological_order_detects_self_loop() {
    let g = load("1 2 0\n2 2 0\n");
    assert_eq!(monotone_ordering(&g), None);
}
