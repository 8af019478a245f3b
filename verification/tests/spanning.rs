use graph_core::graph::Graph;

// labels: A=1, B=2, C=3, D=4, E=5, F=6, G=7

fn four_vertex() -> Graph {
    let mut g = Graph::new();
    g.add_edge(1, 2, 4);
    g.add_edge(2, 3, 3);
    g.add_edge(2, 4, 2);
    g.add_edge(4, 1, 1);
    g.add_edge(1, 3, 2);
    g.add_edge(2, 4, 2);
    g
}

fn total(es: &[(u64, u64, i64)]) -> i64 {
    let mut t = 0;
    for e in es {
        t += e.2;
    }
    t
}

#[test]
fn kruskal_on_four_vertex_example() {
    let g = four_vertex();
    let mst = g.get_mst_kruskal();
    // the A-D, A-C and B-D edges; the weight-3 B-C edge is redundant
    assert_eq!(mst, vec![(1, 4, 1), (1, 3, 2), (2, 4, 2)]);
    assert_eq!(total(&mst), 5);
}

#[test]
fn prim_on_four_vertex_example() {
    let g = four_vertex();
    let mst = g.get_mst_prim(Some(1));
    assert_eq!(mst.len(), 3);
    assert_eq!(total(&mst), 5);
}

#[test]
fn kruskal_and_prim_agree_on_total_weight() {
    let g = four_vertex();
    assert_eq!(total(&g.get_mst_kruskal()), total(&g.get_mst_prim(None)));
    let mut g2 = Graph::new();
    g2.add_edge(1, 2, 7);
    g2.add_edge(2, 3, 1);
    g2.add_edge(3, 4, 5);
    g2.add_edge(4, 1, 2);
    g2.add_edge(1, 3, 3);
    assert_eq!(total(&g2.get_mst_kruskal()), 6);
    assert_eq!(total(&g2.get_mst_prim(Some(3))), 6);
}

#[test]
fn both_count_vertices_minus_one_when_connected() {
    let g = four_vertex();
    assert_eq!(g.get_mst_kruskal().len(), g.size() - 1);
    assert_eq!(g.get_mst_prim(None).len(), g.size() - 1);
}

#[test]
fn spanning_forest_on_disconnected_graph() {
    let mut g = Graph::new();
    g.add_edge(1, 2, 4);
    g.add_edge(3, 4, 4);
    g.add_edge(5, 6, 1);
    g.add_edge(6, 7, 1);
    // one edge short per component
    assert_eq!(g.get_mst_kruskal().len(), 4);
    // Prim only spans the start vertex's component
    assert_eq!(g.get_mst_prim(Some(5)), vec![(5, 6, 1), (6, 7, 1)]);
}

#[test]
fn prim_falls_back_to_first_vertex() {
    let g = four_vertex();
    assert_eq!(total(&g.get_mst_prim(None)), 5);
    // an unknown start vertex falls back to the first vertex
    assert_eq!(total(&g.get_mst_prim(Some(99))), 5);
}

#[test]
fn empty_graph_has_empty_spanning_forest() {
    let g = Graph::new();
    assert_eq!(g.get_mst_kruskal(), Vec::new());
    assert_eq!(g.get_mst_prim(None), Vec::new());
}

#[test]
fn kruskal_reports_edges_in_ascending_weight_order() {
    let g = four_vertex();
    let mst = g.get_mst_kruskal();
    for t in 1..mst.len() {
        assert!(mst[t - 1].2 <= mst[t].2);
    }
}
