use centrality::betweenness::normalization_divisor;
use centrality::closeness::closeness_of;
use centrality::counts::{explore, path_counts, ExploreError};
use centrality::traversal::{traverse, Traversal};
use petgraph::graph::{DiGraph, NodeIndex};

fn plain_graph(nodes: usize, edges: &[(usize, usize)]) -> DiGraph<String, i32> {
    let mut graph = DiGraph::<String, i32>::new();
    for i in 0..nodes {
        graph.add_node(format!("n{}", i));
    }
    for &(from, to) in edges {
        graph.add_edge(NodeIndex::new(from), NodeIndex::new(to), 1);
    }
    graph
}

/// Dependency of one source on every node.
fn dependencies(graph: &DiGraph<String, i32>, source: usize) -> Vec<f64> {
    let found = explore(graph, source).unwrap();
    let t: &Traversal = &found.traversal;
    let sigma: Vec<f64> = found.path_counts.iter().map(|&c| c as f64).collect();
    let mut delta = vec![0.0f64; graph.node_count()];
    for &w in t.order.iter().rev() {
        for &v in &t.predecessors[w] {
            delta[v] += sigma[v] / sigma[w] * (1.0 + delta[w]);
        }
    }
    delta
}

/// Dependencies of every source added up per node, divided by the
/// normalisation divisor.
fn betweenness(graph: &DiGraph<String, i32>) -> Vec<f64> {
    let n = graph.node_count();
    let mut total = vec![0.0f64; n];
    for source in 0..n {
        let delta = dependencies(graph, source);
        for w in 0..n {
            if w != source {
                total[w] += delta[w];
            }
        }
    }
    match normalization_divisor(n) {
        Some(divisor) => total.iter().map(|x| x / divisor as f64).collect(),
        None => vec![0.0; n],
    }
}

/// Hop distances between all pairs by repeated relaxation.
fn all_pairs(n: usize, edges: &[(usize, usize)]) -> Vec<Vec<Option<usize>>> {
    let mut d = vec![vec![None; n]; n];
    for v in 0..n {
        d[v][v] = Some(0);
    }
    for &(a, b) in edges {
        if a != b {
            d[a][b] = Some(1);
        }
    }
    for k in 0..n {
        for i in 0..n {
            for j in 0..n {
                if let (Some(x), Some(y)) = (d[i][k], d[k][j]) {
                    if d[i][j].map_or(true, |z| x + y < z) {
                        d[i][j] = Some(x + y);
                    }
                }
            }
        }
    }
    d
}

/// Number of shortest paths between all pairs, counted edge by edge.
fn all_path_counts(n: usize, edges: &[(usize, usize)], d: &Vec<Vec<Option<usize>>>) -> Vec<Vec<f64>> {
    let mut count = vec![vec![0.0f64; n]; n];
    for s in 0..n {
        count[s][s] = 1.0;
        for hops in 1..n {
            for &(a, b) in edges {
                if d[s][b] == Some(hops) && d[s][a] == Some(hops - 1) {
                    count[s][b] += count[s][a];
                }
            }
        }
    }
    count
}

fn naive_betweenness(n: usize, edges: &[(usize, usize)]) -> Vec<f64> {
    let d = all_pairs(n, edges);
    let count = all_path_counts(n, edges, &d);
    let mut total = vec![0.0f64; n];
    for s in 0..n {
        for t in 0..n {
            if s == t || d[s][t].is_none() {
                continue;
            }
            for v in 0..n {
                if v == s || v == t {
                    continue;
                }
                if let (Some(x), Some(y)) = (d[s][v], d[v][t]) {
                    if Some(x + y) == d[s][t] {
                        total[v] += count[s][v] * count[v][t] / count[s][t];
                    }
                }
            }
        }
    }
    if n <= 2 {
        vec![0.0; n]
    } else {
        total.iter().map(|x| x / ((n - 1) * (n - 2)) as f64).collect()
    }
}

fn scrambled_edges(seed: u64, n: usize, m: usize) -> Vec<(usize, usize)> {
    let mut state = seed;
    let mut edges = Vec::new();
    for _ in 0..m {
        state = state.wrapping_mul(6364136223846793005).wrapping_add(1442695040888963407);
        let a = ((state >> 33) % n as u64) as usize;
        state = state.wrapping_mul(6364136223846793005).wrapping_add(1442695040888963407);
        let b = ((state >> 33) % n as u64) as usize;
        edges.push((a, b));
    }
    edges
}

#[test]
fn four_cycle_is_walked_in_order() {
    let graph = plain_graph(4, &[(0, 1), (1, 2), (2, 3), (3, 0)]);
    let t = traverse(&graph, 0).unwrap();
    assert_eq!(t.source, 0);
    assert_eq!(t.order, vec![0, 1, 2, 3]);
    assert_eq!(t.distance, vec![Some(0), Some(1), Some(2), Some(3)]);
    assert_eq!(t.predecessors, vec![vec![], vec![0], vec![1], vec![2]]);
    let t = traverse(&graph, 2).unwrap();
    assert_eq!(t.order, vec![2, 3, 0, 1]);
    assert_eq!(t.distance, vec![Some(2), Some(3), Some(0), Some(1)]);
}

#[test]
fn diamond_records_both_predecessors() {
    let graph = plain_graph(4, &[(0, 1), (0, 2), (1, 3), (2, 3)]);
    let t = traverse(&graph, 0).unwrap();
    assert_eq!(t.distance, vec![Some(0), Some(1), Some(1), Some(2)]);
    assert_eq!(t.order, vec![0, 2, 1, 3]);
    assert_eq!(t.predecessors, vec![vec![], vec![0], vec![0], vec![2, 1]]);
}

#[test]
fn longer_way_round_is_not_a_predecessor() {
    let graph = plain_graph(3, &[(0, 1), (1, 2), (0, 2)]);
    let t = traverse(&graph, 0).unwrap();
    assert_eq!(t.distance, vec![Some(0), Some(1), Some(1)]);
    assert_eq!(t.predecessors, vec![vec![], vec![0], vec![0]]);
}

#[test]
fn unreached_nodes_have_no_distance() {
    let graph = plain_graph(4, &[(0, 1), (2, 3)]);
    let t = traverse(&graph, 0).unwrap();
    assert_eq!(t.distance, vec![Some(0), Some(1), None, None]);
    assert_eq!(t.order, vec![0, 1]);
    assert_eq!(t.predecessors, vec![vec![], vec![0], vec![], vec![]]);
}

#[test]
fn lone_source_reaches_only_itself() {
    let graph = plain_graph(3, &[(1, 2)]);
    let t = traverse(&graph, 0).unwrap();
    assert_eq!(t.distance, vec![Some(0), None, None]);
    assert_eq!(t.order, vec![0]);
}

#[test]
fn self_loop_leaves_the_source_at_distance_zero() {
    let graph = plain_graph(2, &[(0, 0), (0, 1), (1, 1)]);
    let t = traverse(&graph, 0).unwrap();
    assert_eq!(t.distance, vec![Some(0), Some(1)]);
    assert_eq!(t.predecessors, vec![vec![], vec![0]]);
}

#[test]
fn parallel_edges_are_recorded_once_each() {
    let graph = plain_graph(2, &[(0, 1), (0, 1)]);
    let t = traverse(&graph, 0).unwrap();
    assert_eq!(t.predecessors, vec![vec![], vec![0, 0]]);
    assert_eq!(t.order, vec![0, 1]);
}

#[test]
fn traversal_from_unknown_node_is_refused() {
    let graph = plain_graph(2, &[(0, 1)]);
    assert!(traverse(&graph, 2).is_none());
    assert!(traverse(&plain_graph(0, &[]), 0).is_none());
}

#[test]
fn divisor_is_missing_below_three_nodes() {
    assert_eq!(normalization_divisor(0), None);
    assert_eq!(normalization_divisor(1), None);
    assert_eq!(normalization_divisor(2), None);
    assert_eq!(normalization_divisor(3), Some(2));
    assert_eq!(normalization_divisor(4), Some(6));
    assert_eq!(normalization_divisor(10), Some(72));
    assert_eq!(
        normalization_divisor(usize::MAX),
        Some((usize::MAX as u128 - 1) * (usize::MAX as u128 - 2))
    );
}

#[test]
fn four_cycle_has_betweenness_one_half_everywhere() {
    let graph = plain_graph(4, &[(0, 1), (1, 2), (2, 3), (3, 0)]);
    assert_eq!(betweenness(&graph), vec![0.5, 0.5, 0.5, 0.5]);
}

#[test]
fn star_has_zero_betweenness_everywhere() {
    let graph = plain_graph(4, &[(0, 1), (0, 2), (0, 3)]);
    assert_eq!(betweenness(&graph), vec![0.0, 0.0, 0.0, 0.0]);
}

#[test]
fn path_gives_betweenness_to_the_middle() {
    let graph = plain_graph(3, &[(0, 1), (1, 2)]);
    assert_eq!(betweenness(&graph), vec![0.0, 0.5, 0.0]);
}

#[test]
fn isolated_node_changes_no_raw_dependency() {
    let edges = [(0, 1), (1, 2), (2, 0), (0, 2)];
    let without = betweenness(&plain_graph(3, &edges));
    let with = betweenness(&plain_graph(4, &edges));
    assert_eq!(with[3], 0.0);
    for v in 0..3 {
        assert!((with[v] * 6.0 - without[v] * 2.0).abs() < 1e-12);
    }
}

#[test]
fn tiny_graphs_have_zero_betweenness() {
    assert_eq!(betweenness(&plain_graph(0, &[])), Vec::<f64>::new());
    assert_eq!(betweenness(&plain_graph(1, &[(0, 0)])), vec![0.0]);
    assert_eq!(betweenness(&plain_graph(2, &[(0, 1), (1, 0)])), vec![0.0, 0.0]);
}

#[test]
fn cycles_are_symmetric_under_rotation() {
    for k in 3..9usize {
        let edges: Vec<(usize, usize)> = (0..k).map(|i| (i, (i + 1) % k)).collect();
        let graph = plain_graph(k, &edges);
        let first = closeness_of(&graph, 0).unwrap();
        assert_eq!(first.reached_others, k - 1);
        assert_eq!(first.total_hops, (k * (k - 1) / 2) as u128);
        let scores = betweenness(&graph);
        for v in 1..k {
            assert_eq!(closeness_of(&graph, v).unwrap(), first);
            assert!((scores[v] - scores[0]).abs() < 1e-12);
        }
    }
}

#[test]
fn traversal_agrees_with_all_pairs_distances() {
    for seed in 0..40u64 {
        let n = 1 + (seed as usize % 10);
        let edges = scrambled_edges(seed, n, (seed as usize * 7) % 23);
        let graph = plain_graph(n, &edges);
        let d = all_pairs(n, &edges);
        for s in 0..n {
            let t = traverse(&graph, s).unwrap();
            assert_eq!(t.distance, d[s]);
            let score = closeness_of(&graph, s).unwrap();
            let reached = d[s].iter().filter(|x| x.is_some()).count();
            let hops: usize = d[s].iter().map(|x| x.unwrap_or(0)).sum();
            assert_eq!(score.reached_others, reached - 1);
            assert_eq!(score.total_hops, hops as u128);
        }
    }
}

#[test]
fn betweenness_agrees_with_pair_enumeration() {
    for seed in 0..40u64 {
        let n = 1 + (seed as usize % 10);
        let edges = scrambled_edges(seed + 100, n, (seed as usize * 5) % 27);
        let graph = plain_graph(n, &edges);
        let fast = betweenness(&graph);
        let slow = naive_betweenness(n, &edges);
        for v in 0..n {
            assert!((fast[v] - slow[v]).abs() < 1e-9);
        }
    }
}

#[test]
fn diamond_has_two_shortest_paths_to_the_far_corner() {
    let graph = plain_graph(5, &[(0, 1), (0, 2), (1, 3), (2, 3)]);
    let t = traverse(&graph, 0).unwrap();
    assert_eq!(path_counts(&t), Some(vec![1, 1, 1, 2, 0]));
    let found = explore(&graph, 0).unwrap();
    assert_eq!(found.path_counts, vec![1, 1, 1, 2, 0]);
    assert_eq!(found.traversal.distance, vec![Some(0), Some(1), Some(1), Some(2), None]);
    assert_eq!(found.traversal.source, 0);
}

#[test]
fn parallel_edges_count_as_separate_paths() {
    let graph = plain_graph(3, &[(0, 1), (0, 1), (1, 2)]);
    let found = explore(&graph, 0).unwrap();
    assert_eq!(found.path_counts, vec![1, 2, 2]);
}

#[test]
fn only_the_source_counts_a_path_in_a_graph_without_edges() {
    let graph = plain_graph(3, &[]);
    let found = explore(&graph, 1).unwrap();
    assert_eq!(found.path_counts, vec![0, 1, 0]);
    assert_eq!(found.traversal.order, vec![1]);
}

#[test]
fn path_counts_on_a_grid_are_binomial() {
    let mut edges = Vec::new();
    for r in 0..4usize {
        for c in 0..4usize {
            if c + 1 < 4 {
                edges.push((r * 4 + c, r * 4 + c + 1));
            }
            if r + 1 < 4 {
                edges.push((r * 4 + c, (r + 1) * 4 + c));
            }
        }
    }
    let found = explore(&plain_graph(16, &edges), 0).unwrap();
    assert_eq!(found.path_counts[15], 20);
    assert_eq!(found.path_counts[5], 2);
    assert_eq!(found.path_counts[10], 6);
    assert_eq!(found.traversal.distance[15], Some(6));
}

#[test]
fn exploring_from_unknown_node_is_an_error() {
    let graph = plain_graph(2, &[(0, 1)]);
    assert_eq!(explore(&graph, 2).err(), Some(ExploreError::UnknownNode));
    assert_eq!(explore(&plain_graph(0, &[]), 0).err(), Some(ExploreError::UnknownNode));
}

#[test]
fn path_counts_beyond_the_integer_range_are_an_error() {
    let doubled = |nodes: usize| {
        let mut edges = Vec::new();
        for i in 0..nodes - 1 {
            edges.push((i, i + 1));
            edges.push((i, i + 1));
        }
        plain_graph(nodes, &edges)
    };
    let fits = explore(&doubled(128), 0).unwrap();
    assert_eq!(fits.path_counts[127], 1u128 << 127);
    assert_eq!(explore(&doubled(129), 0).err(), Some(ExploreError::PathCountOverflow));
    assert_eq!(path_counts(&traverse(&doubled(129), 0).unwrap()), None);
    assert!(explore(&doubled(129), 1).is_ok());
}

#[test]
fn counts_agree_with_counting_edge_by_edge() {
    for seed in 0..40u64 {
        let n = 1 + (seed as usize % 10);
        let edges = scrambled_edges(seed + 500, n, (seed as usize * 3) % 29);
        let graph = plain_graph(n, &edges);
        let d = all_pairs(n, &edges);
        let count = all_path_counts(n, &edges, &d);
        for s in 0..n {
            let found = explore(&graph, s).unwrap();
            for v in 0..n {
                assert_eq!(found.path_counts[v] as f64, count[s][v]);
            }
        }
    }
}

#[test]
fn dependencies_of_a_source_add_up_to_the_inner_nodes_of_its_paths() {
    for seed in 0..40u64 {
        let n = 1 + (seed as usize % 8);
        let edges = scrambled_edges(seed + 900, n, (seed as usize * 5) % 19);
        let graph = plain_graph(n, &edges);
        for s in 0..n {
            let delta = dependencies(&graph, s);
            let inner: f64 = (0..n).filter(|&w| w != s).map(|w| delta[w]).sum();
            let score = closeness_of(&graph, s).unwrap();
            let expected = score.total_hops as f64 - score.reached_others as f64;
            assert!((inner - expected).abs() < 1e-9);
        }
    }
}

#[test]
fn four_cycle_dependencies_by_hand() {
    let graph = plain_graph(4, &[(0, 1), (1, 2), (2, 3), (3, 0)]);
    assert_eq!(dependencies(&graph, 0), vec![3.0, 2.0, 1.0, 0.0]);
    assert_eq!(dependencies(&graph, 2), vec![1.0, 0.0, 3.0, 2.0]);
}

#[test]
fn star_dependencies_by_hand() {
    let graph = plain_graph(4, &[(0, 1), (0, 2), (0, 3)]);
    assert_eq!(dependencies(&graph, 0), vec![3.0, 0.0, 0.0, 0.0]);
    assert_eq!(dependencies(&graph, 1), vec![0.0, 0.0, 0.0, 0.0]);
}

#[test]
fn cycle_traversals_are_rotations_of_each_other() {
    for k in 1..9usize {
        let edges: Vec<(usize, usize)> = (0..k).map(|i| (i, (i + 1) % k)).collect();
        let graph = plain_graph(k, &edges);
        for s in 0..k {
            let found = explore(&graph, s).unwrap();
            assert_eq!(found.path_counts, vec![1u128; k]);
            for d in 0..k {
                let node = (s + d) % k;
                assert_eq!(found.traversal.order[d], node);
                assert_eq!(found.traversal.distance[node], Some(d));
                if d >= 1 {
                    assert_eq!(found.traversal.predecessors[node], vec![(s + d - 1) % k]);
                } else {
                    assert!(found.traversal.predecessors[node].is_empty());
                }
            }
        }
    }
}

#[test]
fn node_without_incoming_edges_is_left_out_of_other_traversals() {
    let graph = plain_graph(4, &[(0, 1), (1, 2), (3, 0)]);
    for s in 0..3 {
        let found = explore(&graph, s).unwrap();
        assert_eq!(found.traversal.distance[3], None);
        assert_eq!(found.path_counts[3], 0);
        assert!(!found.traversal.order.contains(&3));
        assert!(found.traversal.predecessors.iter().all(|row| !row.contains(&3)));
    }
}
