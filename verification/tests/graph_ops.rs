use network_rex::graph::Graph;

#[test]
fn edge_list() {
    let g = Graph {
        name: String::from("sample"),
        nodes: vec![1, 2, 3],
        edges: vec![(1, 2), (2, 3)],
    };
    assert_eq!(g.edges_list(1), vec![(1, 2)]);
    assert_eq!(g.edges_list(2), vec![(1, 2), (2, 3)]);
    assert_eq!(g.edges_list(3), vec![(2, 3)]);
}

#[test]
fn has_node() {
    let g = Graph {
        name: String::from("sample"),
        nodes: vec![1, 2, 3],
        edges: vec![],
    };
    assert_eq!(g.has_node(&1), true);
}

#[test]
fn add_edge() {
    let mut g = Graph::new();
    g.add_edge(1, 2);

    assert_eq!(g.edges, vec![(1, 2)]);
    assert_eq!(g.nodes, vec![1, 2]);
}

#[test]
fn add_edges_from() {
    let nodes = vec![0, 1, 2, 3, 4];
    let edges = vec![(1, 2), (2, 3), (1, 4)];
    let mut g = Graph::new();
    g.add_nodes_from(nodes.clone());
    g.add_edges_from(edges);

    assert_eq!(g.nodes, nodes);
}

#[test]
fn new_graph_is_empty() {
    let g = Graph::new();
    assert_eq!(g.name, String::new());
    assert_eq!(g.nodes, Vec::<u32>::new());
    assert_eq!(g.edges, Vec::<(u32, u32)>::new());
}

#[test]
fn add_node_is_idempotent() {
    let mut g = Graph::new();
    g.add_node(4);
    g.add_node(4);
    g.add_node(7);
    assert_eq!(g.nodes, vec![4, 7]);
}

#[test]
fn add_edge_registers_missing_endpoints_once() {
    let mut g = Graph::new();
    g.add_node(1);
    g.add_edge(1, 2);
    g.add_edge(2, 1);
    assert_eq!(g.nodes, vec![1, 2]);
    assert_eq!(g.edges, vec![(1, 2), (2, 1)]);
}

#[test]
fn degree_counts_incident_edges() {
    let g = Graph {
        name: String::from("sample"),
        nodes: vec![1, 2, 3, 4],
        edges: vec![(1, 2), (2, 3), (1, 4), (2, 4)],
    };
    assert_eq!(g.degree(), vec![(1, 2), (2, 3), (3, 1), (4, 2)]);
}
