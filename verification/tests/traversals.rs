use graph_core::graph::Graph;

// labels: A=1, B=2, C=3, D=4, E=5, F=6, G=7

fn four_vertex() -> Graph {
    let mut g = Graph::new();
    g.add_edge(1, 2, 4);
    g.add_edge(2, 3, 3);
    g.add_edge(2, 4, 2);
    g.add_edge(4, 1, 1);
    g.add_edge(1, 3, 2);
    g.add_edge(2, 4, 2);
    g
}

fn three_islands() -> Graph {
    let mut g = Graph::new();
    g.add_edge(1, 2, 4);
    g.add_edge(3, 4, 4);
    g.add_edge(5, 6, 1);
    g.add_edge(6, 7, 1);
    g
}

fn as_sets(mut comps: Vec<Vec<u64>>) -> Vec<Vec<u64>> {
    for c in comps.iter_mut() {
        c.sort();
    }
    comps.sort();
    comps
}

#[test]
fn one_component_by_bfs() {
    let g = four_vertex();
    let comps = g.get_connected_components();
    assert_eq!(comps, vec![vec![1, 2, 4, 3]]);
}

#[test]
fn three_components_by_bfs() {
    let g = three_islands();
    let comps = g.get_connected_components();
    assert_eq!(comps, vec![vec![1, 2], vec![3, 4], vec![5, 6, 7]]);
}

#[test]
fn one_component_by_dfs() {
    let g = four_vertex();
    let comps = g.get_connected_components_dfs();
    assert_eq!(comps, vec![vec![1, 2, 3, 4]]);
}

#[test]
fn three_components_by_dfs() {
    let g = three_islands();
    let comps = g.get_connected_components_dfs();
    assert_eq!(comps, vec![vec![1, 2], vec![3, 4], vec![5, 6, 7]]);
}

#[test]
fn union_find_matches_traversals() {
    let g1 = four_vertex();
    assert_eq!(
        as_sets(g1.get_connected_components_union_find()),
        as_sets(g1.get_connected_components())
    );
    let g2 = three_islands();
    assert_eq!(
        as_sets(g2.get_connected_components_union_find()),
        as_sets(g2.get_connected_components())
    );
}

#[test]
fn components_ignore_weights() {
    let mut g = Graph::new();
    g.add_edge(1, 2, -5);
    g.add_edge(2, 3, 0);
    g.add_edge(4, 5, 100);
    let comps = g.get_connected_components();
    assert_eq!(as_sets(comps), vec![vec![1, 2, 3], vec![4, 5]]);
}

#[test]
fn empty_graph_has_no_components() {
    let g = Graph::new();
    assert_eq!(g.get_connected_components(), Vec::<Vec<u64>>::new());
    assert_eq!(g.get_connected_components_dfs(), Vec::<Vec<u64>>::new());
    assert_eq!(g.get_connected_components_union_find(), Vec::<Vec<u64>>::new());
}

#[test]
fn isolated_vertex_is_its_own_component() {
    let mut g = Graph::new();
    g.add_vertex(9);
    g.add_edge(1, 2, 1);
    assert_eq!(as_sets(g.get_connected_components()), vec![vec![1, 2], vec![9]]);
}
