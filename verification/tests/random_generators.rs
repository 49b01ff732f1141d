use network_rex::classic::complete_graph;
use network_rex::graph::Graph;
use network_rex::random_graphs::{
    barabasi_albert_graph, gnp_random_graph, random_regular_graph, EdgeProbability,
};

fn assert_no_unordered_duplicates(g: &Graph) {
    for i in 0..g.edges.len() {
        for j in (i + 1)..g.edges.len() {
            let (a1, b1) = g.edges[i];
            let (a2, b2) = g.edges[j];
            assert!(!(a1 == a2 && b1 == b2));
            assert!(!(a1 == b2 && b1 == a2));
        }
    }
}

fn degree_in(g: &Graph, node: u32) -> usize {
    g.edges_list(node).len()
}

#[test]
fn test_random_regular_graph() {
    let rrg_zero_d = random_regular_graph(0, 5).unwrap();
    assert_eq!(rrg_zero_d.edges.len(), 0);
    assert_eq!(rrg_zero_d.nodes, vec![0, 1, 2, 3, 4]);
}

#[test]
fn gnp_zero_probability_has_no_edges() {
    let g = gnp_random_graph(9, EdgeProbability { num: 0, den: 1 });
    assert_eq!(g.name, "random graph");
    assert_eq!(g.nodes, (0..9).collect::<Vec<u32>>());
    assert_eq!(g.edges.len(), 0);

    let empty = gnp_random_graph(0, EdgeProbability { num: 0, den: 4 });
    assert_eq!(empty.nodes.len(), 0);
    assert_eq!(empty.edges.len(), 0);
}

#[test]
fn gnp_certain_probability_matches_complete_graph() {
    let g = gnp_random_graph(5, EdgeProbability { num: 1, den: 1 });
    let cg = complete_graph(5);
    assert_eq!(g.nodes, cg.nodes);
    assert_eq!(g.edges, cg.edges);
    assert_eq!(g.edges.len(), 5 * 4 / 2);
    assert_eq!(g.name, "complete graph");

    let above_one = gnp_random_graph(4, EdgeProbability { num: 3, den: 2 });
    assert_eq!(above_one.edges, complete_graph(4).edges);
}

#[test]
fn gnp_open_interval_edges_are_canonical() {
    let n: u32 = 12;
    let g = gnp_random_graph(n, EdgeProbability { num: 1, den: 2 });
    assert_eq!(g.name, "random graph");
    assert_eq!(g.nodes, (0..n).collect::<Vec<u32>>());
    for &(i, j) in &g.edges {
        assert!(i < j);
        assert!(j < n);
    }
    // Canonical combinatorial order: increasing i, then increasing j.
    for w in 1..g.edges.len() {
        let (a1, b1) = g.edges[w - 1];
        let (a2, b2) = g.edges[w];
        assert!(a1 < a2 || (a1 == a2 && b1 < b2));
    }
    assert_no_unordered_duplicates(&g);
}

#[test]
fn regular_graph_rejects_odd_total_degree() {
    let err = random_regular_graph(3, 5).unwrap_err();
    assert_eq!(err.message, "n * d must be even");

    let err = random_regular_graph(1, 7).unwrap_err();
    assert_eq!(err.message, "n * d must be even");
}

#[test]
fn regular_graph_rejects_degree_at_or_above_node_count() {
    let err = random_regular_graph(5, 4).unwrap_err();
    assert_eq!(err.message, "the 0 <= d < n inequality must be satisfied");

    let err = random_regular_graph(4, 4).unwrap_err();
    assert_eq!(err.message, "the 0 <= d < n inequality must be satisfied");

    let err = random_regular_graph(0, 0).unwrap_err();
    assert_eq!(err.message, "the 0 <= d < n inequality must be satisfied");
}

#[test]
fn regular_graph_zero_degree_is_empty() {
    let g = random_regular_graph(0, 6).unwrap();
    assert_eq!(g.name, "empty graph");
    assert_eq!(g.nodes, vec![0, 1, 2, 3, 4, 5]);
    assert_eq!(g.edges.len(), 0);
}

#[test]
fn regular_graph_two_regular_on_four_nodes() {
    let g = random_regular_graph(2, 4).unwrap();
    assert_eq!(g.name, "random graph");
    assert_eq!(g.nodes, vec![0, 1, 2, 3]);
    assert_eq!(g.edges.len(), 4);
    for v in 0..4 {
        assert_eq!(degree_in(&g, v), 2);
    }
    for &(a, b) in &g.edges {
        assert!(a < b);
        assert!(b < 4);
    }
    assert_no_unordered_duplicates(&g);
}

#[test]
fn regular_graph_every_degree_equals_d() {
    let d: u32 = 3;
    let n: u32 = 8;
    let g = random_regular_graph(d, n).unwrap();
    assert_eq!(g.nodes, (0..n).collect::<Vec<u32>>());
    assert_eq!(g.edges.len() as u32, n * d / 2);
    for (_, count) in g.degree() {
        assert_eq!(count, d as usize);
    }
    for &(a, b) in &g.edges {
        assert!(a < b);
        assert!(b < n);
    }
    assert_no_unordered_duplicates(&g);
}

#[test]
fn regular_graph_perfect_matching() {
    // d == 1 never needs a retry: every identifier holds a single stub.
    let g = random_regular_graph(1, 8).unwrap();
    assert_eq!(g.nodes, (0..8).collect::<Vec<u32>>());
    assert_eq!(g.edges.len(), 4);
    for (_, count) in g.degree() {
        assert_eq!(count, 1);
    }
}

#[test]
fn attachment_graph_rejects_bad_attachment_count() {
    let err = barabasi_albert_graph(10, 0).unwrap_err();
    assert_eq!(err.message, "the 1 <= m < n inequality must be satisfied, m = 0, n = 10");

    let err = barabasi_albert_graph(3, 3).unwrap_err();
    assert_eq!(err.message, "the 1 <= m < n inequality must be satisfied, m = 3, n = 3");

    let err = barabasi_albert_graph(2, 5).unwrap_err();
    assert_eq!(err.message, "the 1 <= m < n inequality must be satisfied, m = 5, n = 2");
}

#[test]
fn decimal_rendering_is_exact() {
    assert_eq!(network_rex::decimal::u32_to_decimal(0), "0");
    assert_eq!(network_rex::decimal::u32_to_decimal(9), "9");
    assert_eq!(network_rex::decimal::u32_to_decimal(10), "10");
    assert_eq!(network_rex::decimal::u32_to_decimal(305), "305");
    assert_eq!(network_rex::decimal::u32_to_decimal(4294967295), "4294967295");
}

#[test]
fn attachment_graph_grows_star_seed() {
    let g = barabasi_albert_graph(10, 2).unwrap();
    assert_eq!(g.name, "star graph");
    assert_eq!(g.nodes, (0..10).collect::<Vec<u32>>());
    assert_eq!(g.edges.len(), 2 + 7 * 2);
    // The seed star is kept in place.
    assert_eq!(g.edges[0], (0, 1));
    assert_eq!(g.edges[1], (0, 2));
    // Every node attached after the seed brought exactly two edges.
    for source in 3..10 {
        let brought = g
            .edges
            .iter()
            .filter(|&&(a, _)| a == source)
            .count();
        assert_eq!(brought, 2);
        assert!(degree_in(&g, source) >= 2);
    }
    for &(a, b) in &g.edges {
        assert!(a < 10);
        assert!(b < 10);
        assert!(a != b);
    }
    assert_no_unordered_duplicates(&g);
}

#[test]
fn attachment_graph_seed_only() {
    // n == m + 1 leaves the seed untouched: no draw is ever made.
    let g = barabasi_albert_graph(4, 3).unwrap();
    assert_eq!(g.name, "star graph");
    assert_eq!(g.nodes, vec![0, 1, 2, 3]);
    assert_eq!(g.edges, vec![(0, 1), (0, 2), (0, 3)]);
}

#[test]
fn attachment_graph_single_attachment() {
    let g = barabasi_albert_graph(6, 1).unwrap();
    assert_eq!(g.nodes, (0..6).collect::<Vec<u32>>());
    assert_eq!(g.edges.len(), 1 + 4);
    for v in 2..6 {
        assert!(degree_in(&g, v) >= 1);
    }
}
