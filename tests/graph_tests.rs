use petgraph::graph::NodeIndex;
use rate_graph::error::RateError;
use rate_graph::graph::{
    construct_graph, degree_distribution, edge_weights, squared_distance, RateGraph, Vertex,
    RATE_LIMIT,
};
use rate_graph::merge_datasets::CombinedDataPoint;

fn point(date: &str, inflation_rate: i64, interest_rate: i64) -> CombinedDataPoint {
    CombinedDataPoint { date: String::from(date), inflation_rate, interest_rate }
}

fn create_sample_data() -> Vec<CombinedDataPoint> {
    vec![point("2020-10", 4, 12), point("2020-11", -6, 16), point("2020-12", 9, 17)]
}

fn distance(squared: u128) -> f64 {
    (squared as f64).sqrt() / 100.0
}

fn sorted_distances(graph: &RateGraph) -> Vec<f64> {
    let mut d: Vec<f64> = graph.edge_indices().map(|e| distance(graph[e])).collect();
    d.sort_by(|a, b| a.partial_cmp(b).unwrap());
    d
}

#[test]
fn test_calculate_distance() {
    let vertices: Vec<Vertex> = create_sample_data()
        .into_iter()
        .map(|dp| Vertex {
            date: dp.date,
            inflation_rate: dp.inflation_rate,
            interest_rate: dp.interest_rate,
        })
        .collect();
    let d = distance(squared_distance(&vertices[0], &vertices[1]));
    assert!((d - 0.107703).abs() < 1e-6);
}

#[test]
fn test_graph_structure() {
    let graph = construct_graph(create_sample_data(), 10_000);
    assert_eq!(graph.node_count(), 3);
    assert_eq!(graph.edge_count(), 2);
    let d = sorted_distances(&graph);
    assert!((d[0] - 0.107703).abs() < 1e-6);
    assert!((d[1] - 0.150333).abs() < 1e-6);
}

#[test]
fn test_average_edge_distance() {
    let graph = construct_graph(create_sample_data(), 10_000);
    let weights = edge_weights(&graph).unwrap();
    let avg = weights.iter().map(|w| distance(*w)).sum::<f64>() / weights.len() as f64;
    assert!(avg > 0.0);
}

#[test]
fn test_degree_distribution() {
    let graph = construct_graph(create_sample_data(), 10_000);
    let degree_dist = degree_distribution(&graph);
    assert_eq!(degree_dist.len(), 2);
    assert_eq!(degree_dist.get(&0), Some(&1));
    assert_eq!(degree_dist.get(&1), Some(&2));
}

#[test]
fn squared_distance_exact_values() {
    let a = Vertex { date: String::from("a"), inflation_rate: 4, interest_rate: 12 };
    let b = Vertex { date: String::from("b"), inflation_rate: -6, interest_rate: 16 };
    assert_eq!(squared_distance(&a, &b), 116);
    assert_eq!(squared_distance(&b, &a), 116);
    assert_eq!(squared_distance(&a, &a), 0);
}

#[test]
fn squared_distance_extreme_rates() {
    let a = Vertex { date: String::new(), inflation_rate: -RATE_LIMIT, interest_rate: RATE_LIMIT };
    let b = Vertex { date: String::new(), inflation_rate: RATE_LIMIT, interest_rate: -RATE_LIMIT };
    let span: u128 = 2 * RATE_LIMIT as u128;
    assert_eq!(squared_distance(&a, &b), 2 * span * span);
}

#[test]
fn vertices_keep_order_and_values() {
    let graph = construct_graph(create_sample_data(), 10_000);
    let v = &graph[NodeIndex::new(1)];
    assert_eq!(v.date, "2020-11");
    assert_eq!(v.inflation_rate, -6);
    assert_eq!(v.interest_rate, 16);
    let ends: Vec<(usize, usize)> = graph
        .edge_indices()
        .map(|e| {
            let (a, b) = graph.edge_endpoints(e).unwrap();
            (a.index(), b.index())
        })
        .collect();
    assert_eq!(ends, vec![(0, 1), (1, 2)]);
}

#[test]
fn threshold_prunes_long_steps() {
    // 0.107703 stays under 0.11 (squared: 121), 0.150333 does not.
    let graph = construct_graph(create_sample_data(), 121);
    assert_eq!(graph.node_count(), 3);
    assert_eq!(graph.edge_count(), 1);
    assert_eq!(edge_weights(&graph).unwrap(), vec![116]);
    let degree_dist = degree_distribution(&graph);
    assert_eq!(degree_dist.get(&0), Some(&2));
    assert_eq!(degree_dist.get(&1), Some(&1));
}

#[test]
fn threshold_on_the_boundary_keeps_edge() {
    let data = vec![point("a", 0, 0), point("b", 4, 3)];
    let graph = construct_graph(data, 25);
    assert_eq!(edge_weights(&graph).unwrap(), vec![25]);
}

#[test]
fn zero_threshold_gives_no_edges() {
    let graph = construct_graph(create_sample_data(), 0);
    assert_eq!(graph.node_count(), 3);
    assert_eq!(graph.edge_count(), 0);
    assert_eq!(edge_weights(&graph), Err(RateError::EmptyGraphStatistics));
    let degree_dist = degree_distribution(&graph);
    assert_eq!(degree_dist.len(), 1);
    assert_eq!(degree_dist.get(&0), Some(&3));
}

#[test]
fn zero_threshold_keeps_equal_neighbours() {
    let data = vec![point("a", 5, 7), point("b", 5, 7)];
    let graph = construct_graph(data, 0);
    assert_eq!(edge_weights(&graph).unwrap(), vec![0]);
}

#[test]
fn empty_and_single_inputs() {
    let empty = construct_graph(Vec::new(), 10_000);
    assert_eq!(empty.node_count(), 0);
    assert_eq!(empty.edge_count(), 0);
    assert!(degree_distribution(&empty).is_empty());
    assert_eq!(edge_weights(&empty), Err(RateError::EmptyGraphStatistics));

    let single = construct_graph(vec![point("a", 1, 2)], 10_000);
    assert_eq!(single.node_count(), 1);
    assert_eq!(single.edge_count(), 0);
    assert_eq!(degree_distribution(&single).get(&0), Some(&1));
}

#[test]
fn degree_counts_sum_to_vertices() {
    let data = vec![
        point("a", 0, 0),
        point("b", 1, 1),
        point("c", 90, 90),
        point("d", 91, 90),
        point("e", 500, 0),
    ];
    let graph = construct_graph(data, 100);
    let degree_dist = degree_distribution(&graph);
    let total: usize = degree_dist.values().sum();
    assert_eq!(total, 5);
    assert_eq!(graph.edge_count(), 2);
}

#[test]
fn chain_graph_edges_join_neighbours_only() {
    let data: Vec<CombinedDataPoint> =
        (0..6).map(|k| point("d", (k * 7 % 5) as i64, (k * 3) as i64)).collect();
    let graph = construct_graph(data, 36);
    assert!(graph.edge_count() <= 5);
    for e in graph.edge_indices() {
        let (a, b) = graph.edge_endpoints(e).unwrap();
        assert_eq!(a.index() + 1, b.index());
    }
}

#[test]
fn threshold_between_hundredths() {
    // A threshold of 0.105 is 10.5 hundredths: squared limit floor(110.25).
    let graph = construct_graph(create_sample_data(), 110);
    assert_eq!(graph.edge_count(), 0);
    let graph = construct_graph(create_sample_data(), 116);
    assert_eq!(edge_weights(&graph).unwrap(), vec![116]);
}
