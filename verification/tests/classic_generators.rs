use network_rex::classic::{complete_graph, empty_graph, star_graph};

#[test]
fn test_complete_graph() {
    let cg = complete_graph(5);
    assert_eq!(cg.nodes.len(), 5);
    assert_eq!(cg.edges.len(), 10);

    let eg = complete_graph(0);
    assert_eq!(eg.nodes.len(), 0);
    assert_eq!(eg.edges.len(), 0);
}

#[test]
fn test_empty_graph() {
    let eg = empty_graph(7);
    assert_eq!(eg.nodes.len(), 7);
    assert_eq!(eg.edges.len(), 0);
}

#[test]
fn test_star_graph() {
    let sg = star_graph(5);
    assert_eq!(sg.nodes.len(), 6);
    assert_eq!(sg.edges.len(), 5);
    let contain_zero = sg.edges_list(0).len();
    assert_eq!(contain_zero, 5);
    let other_edge_degree = sg.edges_list(1).len();
    assert_eq!(other_edge_degree, 1);

    let eg = star_graph(0);
    assert_eq!(eg.nodes.len(), 0);
    assert_eq!(eg.edges.len(), 0);
}

#[test]
fn complete_graph_canonical_order() {
    let cg = complete_graph(4);
    assert_eq!(cg.name, "complete graph");
    assert_eq!(cg.nodes, vec![0, 1, 2, 3]);
    assert_eq!(cg.edges, vec![(0, 1), (0, 2), (0, 3), (1, 2), (1, 3), (2, 3)]);
}

#[test]
fn complete_graph_on_one_node_is_empty() {
    let g = complete_graph(1);
    assert_eq!(g.name, "empty graph");
    assert_eq!(g.nodes, vec![0]);
    assert_eq!(g.edges, Vec::<(u32, u32)>::new());
}

#[test]
fn star_graph_exact_shape() {
    let sg = star_graph(3);
    assert_eq!(sg.name, "star graph");
    assert_eq!(sg.nodes, vec![0, 1, 2, 3]);
    assert_eq!(sg.edges, vec![(0, 1), (0, 2), (0, 3)]);
}

#[test]
fn empty_graph_exact_shape() {
    let eg = empty_graph(3);
    assert_eq!(eg.name, "empty graph");
    assert_eq!(eg.nodes, vec![0, 1, 2]);
    assert_eq!(eg.edges, Vec::<(u32, u32)>::new());
}
