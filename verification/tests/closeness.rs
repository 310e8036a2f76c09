use centrality::closeness::{closeness_of, closeness_terms, compute_closeness_centrality, Closeness};
use centrality::paths::hop_cost;
use petgraph::graph::{DiGraph, NodeIndex};

fn named_graph(names: &[&str], edges: &[(usize, usize)]) -> DiGraph<String, i32> {
    let mut graph = DiGraph::<String, i32>::new();
    for name in names {
        graph.add_node(name.to_string());
    }
    for &(from, to) in edges {
        graph.add_edge(NodeIndex::new(from), NodeIndex::new(to), 1);
    }
    graph
}

fn ratio(score: Closeness) -> f64 {
    if score.is_zero() {
        0.0
    } else {
        score.reached_others as f64 / score.total_hops as f64
    }
}

#[test]
fn four_cycle_has_closeness_one_half_everywhere() {
    let graph = named_graph(&["A", "B", "C", "D"], &[(0, 1), (1, 2), (2, 3), (3, 0)]);
    let scores = compute_closeness_centrality(&graph);
    assert_eq!(scores.len(), 4);
    for (i, name) in ["A", "B", "C", "D"].iter().enumerate() {
        assert_eq!(scores[i].0, *name);
        assert_eq!(scores[i].1, Closeness { reached_others: 3, total_hops: 6 });
        assert_eq!(ratio(scores[i].1), 0.5);
    }
}

#[test]
fn test_compute_closeness_centrality() {
    let graph = named_graph(&["A", "B", "C", "D"], &[(0, 1), (1, 2), (2, 3), (3, 0)]);
    let scores = compute_closeness_centrality(&graph);
    assert!(ratio(scores[0].1) > 0.0);
    assert!(ratio(scores[1].1) > 0.0);
}

#[test]
fn star_centre_reaches_every_leaf_in_one_hop() {
    let graph = named_graph(&["X", "L1", "L2", "L3"], &[(0, 1), (0, 2), (0, 3)]);
    let centre = closeness_of(&graph, 0).unwrap();
    assert_eq!(centre, Closeness { reached_others: 3, total_hops: 3 });
    assert_eq!(ratio(centre), 1.0);
    for leaf in 1..4 {
        let score = closeness_of(&graph, leaf).unwrap();
        assert_eq!(score, Closeness { reached_others: 0, total_hops: 0 });
        assert!(score.is_zero());
        assert_eq!(ratio(score), 0.0);
    }
}

#[test]
fn isolated_node_has_zero_closeness() {
    let graph = named_graph(&["A", "B", "alone"], &[(0, 1)]);
    let alone = closeness_of(&graph, 2).unwrap();
    assert!(alone.is_zero());
    assert_eq!(alone.reached_others, 0);
    let a = closeness_of(&graph, 0).unwrap();
    assert_eq!(a, Closeness { reached_others: 1, total_hops: 1 });
}

#[test]
fn single_node_graph_scores_zero() {
    let graph = named_graph(&["only"], &[]);
    let scores = compute_closeness_centrality(&graph);
    assert_eq!(scores.len(), 1);
    assert_eq!(scores[0].0, "only");
    assert!(scores[0].1.is_zero());
}

#[test]
fn empty_graph_has_no_scores() {
    let graph = named_graph(&[], &[]);
    assert!(compute_closeness_centrality(&graph).is_empty());
    assert_eq!(closeness_of(&graph, 0), None);
}

#[test]
fn unknown_node_has_no_closeness() {
    let graph = named_graph(&["A", "B"], &[(0, 1)]);
    assert_eq!(closeness_of(&graph, 2), None);
    assert!(closeness_of(&graph, 1).is_some());
}

#[test]
fn self_loop_does_not_count_as_reaching_another_node() {
    let graph = named_graph(&["A"], &[(0, 0)]);
    let score = closeness_of(&graph, 0).unwrap();
    assert_eq!(score, Closeness { reached_others: 0, total_hops: 0 });
}

#[test]
fn parallel_edges_do_not_change_closeness() {
    let graph = named_graph(&["A", "B", "C"], &[(0, 1), (0, 1), (1, 2)]);
    let score = closeness_of(&graph, 0).unwrap();
    assert_eq!(score, Closeness { reached_others: 2, total_hops: 3 });
    assert_eq!(ratio(score), 2.0 / 3.0);
}

#[test]
fn edge_labels_do_not_change_closeness() {
    let mut graph = DiGraph::<String, i32>::new();
    let a = graph.add_node("A".to_string());
    let b = graph.add_node("B".to_string());
    let c = graph.add_node("C".to_string());
    graph.add_edge(a, b, -1);
    graph.add_edge(b, c, 40);
    let score = closeness_of(&graph, 0).unwrap();
    assert_eq!(score, Closeness { reached_others: 2, total_hops: 3 });
}

#[test]
fn terms_count_entries_and_add_distances() {
    let table = vec![(4usize, 0u64), (1, 2), (7, 1), (3, 2)];
    assert_eq!(closeness_terms(&table), Closeness { reached_others: 3, total_hops: 5 });
    assert_eq!(closeness_terms(&Vec::new()), Closeness { reached_others: 0, total_hops: 0 });
    let wide = vec![(0usize, u64::MAX), (1, u64::MAX)];
    assert_eq!(closeness_terms(&wide).total_hops, 2 * (u64::MAX as u128));
}

#[test]
fn closeness_is_zero_exactly_for_nodes_that_reach_nothing() {
    let graph = named_graph(&["A", "B", "C", "D"], &[(0, 1), (1, 2), (3, 3)]);
    let zero: Vec<bool> = compute_closeness_centrality(&graph).iter().map(|s| s.1.is_zero()).collect();
    assert_eq!(zero, vec![false, false, true, true]);
}

#[test]
fn every_edge_costs_one_hop() {
    assert_eq!(hop_cost(1), 1);
    assert_eq!(hop_cost(-1), 1);
    assert_eq!(hop_cost(0), 1);
    assert_eq!(hop_cost(i32::MAX), 1);
}

#[test]
fn dead_end_has_zero_closeness_however_many_edges_lead_to_it() {
    let graph = named_graph(&["A", "B", "sink"], &[(0, 2), (1, 2), (0, 1)]);
    let sink = closeness_of(&graph, 2).unwrap();
    assert!(sink.is_zero());
    assert_eq!(sink, Closeness { reached_others: 0, total_hops: 0 });
}
