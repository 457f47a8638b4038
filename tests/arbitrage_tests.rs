use arbitrage::breaking::{break_step, remove_nodes, CycleReport};
use arbitrage::builder::{graph_builder, PairMapping, QuoteRecord};
use arbitrage::cycle::{cycle_log_weight, is_closed_walk, negative_finder};
use arbitrage::graph::{Edge, Graph, WEIGHT_ONE};
use arbitrage::sampling::induced_subgraph;

fn log_weight_of(price: &str) -> Option<i64> {
    match price.parse::<f64>() {
        Ok(p) if p.is_finite() && p > 0.0 => Some((-p.log2() * WEIGHT_ONE as f64).round() as i64),
        _ => None,
    }
}

fn pair(symbol: &str, base: &str, other: &str) -> PairMapping {
    PairMapping { symbol: symbol.to_string(), base: base.to_string(), other: other.to_string() }
}

fn quote(symbol: &str, price: &str) -> QuoteRecord {
    QuoteRecord { symbol: symbol.to_string(), log_weight: log_weight_of(price) }
}

fn graph_of(labels: &[&str], edges: &[(usize, usize, i64)]) -> Graph {
    let mut g = Graph::new();
    for l in labels {
        g.node_for(&l.to_string());
    }
    for &(s, t, w) in edges {
        g.add_edge(s, t, w);
    }
    g
}

fn profit_of(weight: i128) -> f64 {
    2f64.powf(-(weight as f64) / WEIGHT_ONE as f64)
}

#[test]
fn builder_single_quote_gives_two_nodes_and_two_edges() {
    let mapping = vec![pair("XY", "X", "Y")];
    let g = graph_builder(&mapping, &vec![quote("XY", "2.0")]);
    assert_eq!(g.nodes, vec!["X".to_string(), "Y".to_string()]);
    assert_eq!(
        g.edges,
        vec![
            Edge { source: 0, target: 1, weight: -WEIGHT_ONE },
            Edge { source: 1, target: 0, weight: WEIGHT_ONE },
        ]
    );
    assert!((g.edges[0].weight as f64 / WEIGHT_ONE as f64 - (-1.0)).abs() < 1e-9);
}

#[test]
fn builder_skips_non_positive_and_unparsable_prices() {
    let mapping = vec![pair("XY", "X", "Y")];
    let records = vec![quote("XY", "0"), quote("XY", "-1"), quote("XY", "abc")];
    let g = graph_builder(&mapping, &records);
    assert_eq!(g.edge_count(), 0);
    assert_eq!(g.node_count(), 0);
}

#[test]
fn builder_skips_unmapped_symbols() {
    let mapping = vec![pair("XY", "X", "Y")];
    let g = graph_builder(&mapping, &vec![quote("ZW", "2.0"), quote("XY", "4")]);
    assert_eq!(g.nodes, vec!["X".to_string(), "Y".to_string()]);
    assert_eq!(g.edges.len(), 2);
    assert_eq!(g.edges[0].weight, -2 * WEIGHT_ONE);
}

#[test]
fn builder_keeps_parallel_edges_and_reuses_nodes() {
    let mapping = vec![pair("XY", "X", "Y"), pair("YZ", "Y", "Z")];
    let records = vec![quote("XY", "2"), quote("XY", "0.5"), quote("YZ", "1")];
    let g = graph_builder(&mapping, &records);
    assert_eq!(g.nodes, vec!["X".to_string(), "Y".to_string(), "Z".to_string()]);
    assert_eq!(g.edge_count(), 6);
    assert_eq!(g.edges[2], Edge { source: 0, target: 1, weight: WEIGHT_ONE });
    assert_eq!(g.edges[4], Edge { source: 1, target: 2, weight: 0 });
    assert_eq!(g.out_degree(1), 3);
    assert_eq!(g.total_out_degree(), 6);
}

#[test]
fn weight_and_price_round_trip() {
    for w in [-3.5f64, -1.0, 0.0, 0.25, 1.0, 7.75] {
        let price = 2f64.powf(-w);
        let back = -price.log2();
        assert!((w - back).abs() < 1e-9);
        let fixed = log_weight_of(&price.to_string()).unwrap();
        assert!((fixed as f64 / WEIGHT_ONE as f64 - w).abs() < 1e-9);
    }
}

#[test]
fn detector_finds_triangle_cycle() {
    let w = -WEIGHT_ONE;
    let g = graph_of(&["A", "B", "C"], &[(0, 1, w), (1, 2, w), (2, 0, w)]);
    let c = negative_finder(&g).unwrap();
    assert_eq!(c.nodes.len(), 3);
    let mut sorted = c.nodes.clone();
    sorted.sort();
    assert_eq!(sorted, vec![0, 1, 2]);
    assert!(is_closed_walk(&g, &c.nodes, &c.links));
    assert_eq!(cycle_log_weight(&g, &c.links), -3 * WEIGHT_ONE as i128);
}

#[test]
fn detector_reports_none_without_negative_weights() {
    let g = graph_of(&["A", "B", "C"], &[(0, 1, 5), (1, 2, 0), (2, 0, 1), (1, 0, 3)]);
    assert_eq!(negative_finder(&g), None);
}

#[test]
fn detector_reports_none_on_empty_and_single_node_graphs() {
    assert_eq!(negative_finder(&Graph::new()), None);
    let g = graph_of(&["A"], &[(0, 0, -WEIGHT_ONE)]);
    assert_eq!(negative_finder(&g), None);
}

#[test]
fn detector_reports_none_for_balanced_quotes() {
    let mapping = vec![pair("AB", "A", "B"), pair("BC", "B", "C"), pair("CA", "C", "A")];
    let records = vec![quote("AB", "2"), quote("BC", "4"), quote("CA", "0.125")];
    let g = graph_builder(&mapping, &records);
    assert_eq!(negative_finder(&g), None);
}

#[test]
fn reported_cycle_has_profit_above_one() {
    let mapping = vec![pair("AB", "A", "B"), pair("BC", "B", "C"), pair("CA", "C", "A")];
    let records = vec![quote("AB", "2"), quote("BC", "4"), quote("CA", "0.25")];
    let g = graph_builder(&mapping, &records);
    let c = negative_finder(&g).unwrap();
    let w = cycle_log_weight(&g, &c.links);
    assert!(w < 0);
    assert!(profit_of(w) > 1.0);
    assert!((profit_of(w) - 2.0).abs() < 1e-9);
}

#[test]
fn cycle_weight_skips_missing_edges() {
    let g = graph_of(&["A", "B", "C"], &[(0, 1, -7), (1, 2, 4)]);
    assert_eq!(cycle_log_weight(&g, &vec![0, 1, 9]), -3);
    assert!(!is_closed_walk(&g, &vec![0, 1, 2], &vec![0, 1, 1]));
    assert!(!is_closed_walk(&g, &vec![], &vec![]));
    assert!(!is_closed_walk(&g, &vec![0, 1], &vec![0]));
}

#[test]
fn detector_follows_the_edges_that_set_each_link() {
    let mapping = vec![pair("XY", "X", "Y")];
    let g = graph_builder(&mapping, &vec![quote("XY", "2"), quote("XY", "0.25")]);
    assert_eq!(g.find_edge(0, 1), Some(0));
    let c = negative_finder(&g).unwrap();
    assert_eq!(c.nodes.len(), 2);
    assert!(is_closed_walk(&g, &c.nodes, &c.links));
    assert_eq!(cycle_log_weight(&g, &c.links), -3 * WEIGHT_ONE as i128);
    assert!((profit_of(cycle_log_weight(&g, &c.links)) - 8.0).abs() < 1e-9);
}

#[test]
fn remove_nodes_removes_third_cycle_node() {
    let mut g = graph_of(&["A", "B", "C", "D"], &[(0, 1, 1), (1, 2, 2), (2, 3, 3), (3, 0, 4), (3, 1, 5)]);
    remove_nodes(&mut g, &vec![0, 1, 2, 3]);
    assert_eq!(g.nodes, vec!["A".to_string(), "B".to_string(), "D".to_string()]);
    assert_eq!(
        g.edges,
        vec![
            Edge { source: 0, target: 1, weight: 1 },
            Edge { source: 2, target: 0, weight: 4 },
            Edge { source: 2, target: 1, weight: 5 },
        ]
    );
}

#[test]
fn remove_nodes_leaves_short_cycles_alone() {
    let mut g = graph_of(&["A", "B"], &[(0, 1, -3), (1, 0, 1)]);
    remove_nodes(&mut g, &vec![0, 1]);
    assert_eq!(g.node_count(), 2);
    assert_eq!(g.edge_count(), 2);
}

#[test]
fn break_step_reports_and_removes() {
    let w = -WEIGHT_ONE;
    let mut g = graph_of(&["A", "B", "C"], &[(0, 1, w), (1, 2, w), (2, 0, w), (0, 2, 5 * WEIGHT_ONE)]);
    let rep: CycleReport = break_step(&mut g).unwrap();
    assert_eq!(rep.cycle.len(), 3);
    assert_eq!(rep.cycle_weight, -3 * WEIGHT_ONE as i128);
    assert_eq!(rep.out_degree_sum, 4);
    assert_eq!(rep.node_count, 3);
    assert_eq!(rep.removed, Some(rep.cycle[2]));
    assert_eq!(rep.cycle_links.len(), 3);
    assert_eq!(g.node_count(), 2);
    assert!(break_step(&mut g).is_none());
}

#[test]
fn breaking_loop_terminates_within_node_count() {
    let mapping = vec![
        pair("AB", "A", "B"),
        pair("BC", "B", "C"),
        pair("CA", "C", "A"),
        pair("CD", "C", "D"),
        pair("DA", "D", "A"),
    ];
    let records = vec![quote("AB", "2"), quote("BC", "2"), quote("CA", "2"), quote("CD", "3"), quote("DA", "3")];
    let mut g = graph_builder(&mapping, &records);
    let n = g.node_count();
    let mut steps = 0;
    while let Some(rep) = break_step(&mut g) {
        assert!(rep.cycle.len() > 2);
        assert!(rep.cycle_weight < 0);
        steps += 1;
        assert!(steps <= n);
        assert_eq!(g.node_count(), n - steps);
    }
    assert_eq!(negative_finder(&g), None);
}

#[test]
fn detector_is_repeatable() {
    let w = -WEIGHT_ONE;
    let g = graph_of(&["A", "B", "C", "D"], &[(0, 1, 2), (1, 2, w), (2, 3, w), (3, 1, w)]);
    let first = negative_finder(&g);
    let second = negative_finder(&g);
    assert!(first.is_some());
    assert_eq!(first, second);
    let h = graph_of(&["A", "B"], &[(0, 1, 1), (1, 0, 1)]);
    assert_eq!(negative_finder(&h), negative_finder(&h));
}

#[test]
fn induced_subgraph_keeps_marked_nodes_and_their_edges() {
    let g = graph_of(&["A", "B", "C", "D"], &[(0, 1, 1), (1, 3, 2), (3, 0, 3), (2, 3, 4)]);
    let sub = induced_subgraph(&g, &vec![true, false, true, true]);
    assert_eq!(sub.nodes, vec!["A".to_string(), "C".to_string(), "D".to_string()]);
    assert_eq!(
        sub.edges,
        vec![Edge { source: 2, target: 0, weight: 3 }, Edge { source: 1, target: 2, weight: 4 }]
    );
    let all = induced_subgraph(&g, &vec![true; 4]);
    assert_eq!(all.nodes, g.nodes);
    assert_eq!(all.edges, g.edges);
}

#[test]
fn cycle_unreachable_from_start_is_not_found() {
    let g = graph_of(&["A", "B", "C"], &[(1, 2, -2), (2, 1, 1)]);
    assert_eq!(negative_finder(&g), None);
    let h = graph_of(&["A", "B", "C"], &[(0, 1, 0), (1, 2, -2), (2, 1, 1)]);
    let c = negative_finder(&h).unwrap();
    assert_eq!(c.nodes.len(), 2);
    assert_eq!(cycle_log_weight(&h, &c.links), -1);
}

#[test]
fn removing_the_start_node_makes_the_next_node_the_start() {
    let mut g = graph_of(&["A", "B", "C", "D"], &[(0, 1, 1), (1, 2, -3), (2, 3, -3), (3, 1, -3)]);
    g.remove_node(0);
    assert_eq!(g.nodes, vec!["B".to_string(), "C".to_string(), "D".to_string()]);
    assert_eq!(g.edge_count(), 3);
    assert_eq!(g.edges[0], Edge { source: 0, target: 1, weight: -3 });
    let c = negative_finder(&g).unwrap();
    assert_eq!(c.nodes.len(), 3);
    assert_eq!(cycle_log_weight(&g, &c.links), -9);
}

#[test]
fn detector_finds_cycle_when_relaxing_edge_enters_the_start_node() {
    let g = graph_of(&["A", "B", "C"], &[(2, 0, 19), (0, 1, 0), (1, 2, -10), (2, 1, -10)]);
    let c = negative_finder(&g).unwrap();
    let mut sorted = c.nodes.clone();
    sorted.sort();
    assert_eq!(sorted, vec![1, 2]);
    assert!(is_closed_walk(&g, &c.nodes, &c.links));
    assert_eq!(cycle_log_weight(&g, &c.links), -20);
}
