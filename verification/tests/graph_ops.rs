use graph_core::graph::Graph;

fn sample() -> Graph {
    // the four-vertex example: A=1, B=2, C=3, D=4
    let mut g = Graph::new();
    g.add_edge(1, 2, 4);
    g.add_edge(2, 3, 3);
    g.add_edge(2, 4, 2);
    g.add_edge(4, 1, 1);
    g.add_edge(1, 3, 2);
    g.add_edge(2, 4, 2);
    g
}

#[test]
fn empty_graph_basics() {
    let mut g = Graph::new();
    assert!(g.is_empty());
    assert_eq!(g.size(), 0);
    assert_eq!(g.get_vertices(), Vec::<u64>::new());
    assert_eq!(g.get_edges(), Vec::new());
    assert!(g.clear());
    assert!(g.is_empty());
}

#[test]
fn add_vertex_is_idempotent() {
    let mut g = Graph::new();
    assert!(g.add_vertex(7));
    assert!(g.add_vertex(7));
    assert_eq!(g.size(), 1);
    assert_eq!(g.get_vertices(), vec![7]);
    assert_eq!(g.get_neighbors(7), Some(Vec::new()));
    assert_eq!(g.get_neighbors(8), None);
}

#[test]
fn add_edge_creates_endpoints_and_overwrites() {
    let mut g = Graph::new();
    g.add_edge(1, 2, 4);
    assert_eq!(g.size(), 2);
    assert_eq!(g.get_edge_weight(1, 2), Some(4));
    assert_eq!(g.get_edge_weight(2, 1), Some(4));
    // last write wins, no duplicate entry
    g.add_edge(2, 1, 9);
    assert_eq!(g.get_edge_weight(1, 2), Some(9));
    assert_eq!(g.get_edges().len(), 1);
}

#[test]
fn edge_view_has_each_pair_once_with_symmetric_weight() {
    let g = sample();
    let edges = g.get_edges();
    assert_eq!(edges.len(), 5);
    for k1 in 0..edges.len() {
        let (a, b, w) = edges[k1];
        assert!(a <= b);
        assert_eq!(g.get_edge_weight(a, b), Some(w));
        assert_eq!(g.get_edge_weight(b, a), Some(w));
        for k2 in 0..edges.len() {
            if k1 != k2 {
                assert!(!(edges[k1].0 == edges[k2].0 && edges[k1].1 == edges[k2].1));
            }
        }
    }
}

#[test]
fn get_neighbors_reports_adjacency_in_insertion_order() {
    let g = sample();
    assert_eq!(g.get_neighbors(1), Some(vec![(2, 4), (4, 1), (3, 2)]));
    assert_eq!(g.get_neighbors(2), Some(vec![(1, 4), (3, 3), (4, 2)]));
}

#[test]
fn get_edge_answers_membership() {
    let g = sample();
    assert!(g.get_edge(1, 2));
    assert!(g.get_edge(2, 1));
    assert!(!g.get_edge(3, 4));
    assert!(!g.get_edge(1, 9));
}

#[test]
fn remove_edge_drops_both_directions() {
    let mut g = sample();
    assert!(g.remove_edge(1, 2));
    assert_eq!(g.get_edge_weight(1, 2), None);
    assert_eq!(g.get_edge_weight(2, 1), None);
    assert_eq!(g.get_edges().len(), 4);
    // a second removal reports failure and changes nothing
    assert!(!g.remove_edge(1, 2));
    assert_eq!(g.get_edges().len(), 4);
    assert!(!g.remove_edge(1, 9));
}

#[test]
fn remove_vertex_cascades() {
    let mut g = sample();
    assert!(g.remove_vertex(2));
    assert_eq!(g.size(), 3);
    assert_eq!(g.get_vertices(), vec![1, 3, 4]);
    // every adjacency entry for the removed vertex is scrubbed
    assert_eq!(g.get_neighbors(1), Some(vec![(4, 1), (3, 2)]));
    assert_eq!(g.get_neighbors(3), Some(vec![(1, 2)]));
    assert_eq!(g.get_neighbors(4), Some(vec![(1, 1)]));
    assert!(!g.remove_vertex(2));
    assert!(!g.remove_vertex(9));
}

#[test]
fn self_loop_is_stored_once() {
    let mut g = Graph::new();
    g.add_edge(5, 5, 3);
    assert_eq!(g.size(), 1);
    assert_eq!(g.get_edges(), vec![(5, 5, 3)]);
    assert_eq!(g.get_edge_weight(5, 5), Some(3));
    assert!(g.remove_edge(5, 5));
    assert_eq!(g.get_edges(), Vec::new());
}
