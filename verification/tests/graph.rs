use k2tree::graph::Graph;

#[test]
fn random_graph_is_a_square_grid() {
    let graph = Graph::new(6);
    assert_eq!(graph.get_nodes(), 6);
    assert_eq!(graph.get_matrix().len(), 6);
    for row in graph.get_matrix() {
        assert_eq!(row.len(), 6);
    }
    let none = Graph::new(0);
    assert_eq!(none.get_nodes(), 0);
    assert_eq!(none.get_matrix().len(), 0);
    assert_eq!(none.edges().len(), 0);
}

#[test]
fn random_graph_lists_its_edges_row_after_row() {
    let graph = Graph::new(9);
    let mut expected = Vec::new();
    for from in 0..9 {
        for to in 0..9 {
            if graph.get_matrix()[from][to] {
                expected.push((from, to));
            }
        }
    }
    assert_eq!(graph.edges(), expected);
}

#[test]
fn random_graph_holds_both_values() {
    let graph = Graph::new(64);
    let edges = graph.edges().len();
    assert!(edges > 0);
    assert!(edges < 64 * 64);
}
