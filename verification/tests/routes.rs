use graph_core::graph::Graph;
use graph_core::shortest::{Heuristic, ZeroHeuristic};
use graph_core::PathResult;

// labels: A=1, B=2, C=3, D=4

fn four_vertex() -> Graph {
    let mut g = Graph::new();
    g.add_edge(1, 2, 4);
    g.add_edge(2, 3, 3);
    g.add_edge(2, 4, 2);
    g.add_edge(4, 1, 1);
    g.add_edge(1, 3, 2);
    g.add_edge(2, 4, 2);
    g
}

fn cost_of(r: &PathResult) -> Option<i128> {
    match r {
        PathResult::Found(_, c) => Some(*c),
        _ => None,
    }
}

struct FixedGuess;

impl Heuristic for FixedGuess {
    fn estimate(&self, from_vertex: u64, to_vertex: u64) -> u64 {
        if from_vertex == to_vertex {
            0
        } else {
            1
        }
    }
}

#[test]
fn dijkstra_prefers_the_detour() {
    let g = four_vertex();
    // A to B costs 3 via A-D-B, beating the direct weight-4 edge
    match g.get_shortest_path_dijkstra(1, 2) {
        PathResult::Found(p, c) => {
            assert_eq!(p, vec![1, 4, 2]);
            assert_eq!(c, 3);
        },
        _ => panic!("expected a path"),
    }
}

#[test]
fn bellman_ford_same_example() {
    let g = four_vertex();
    match g.get_shortest_path_bellman_ford(1, 2) {
        PathResult::Found(p, c) => {
            assert_eq!(p, vec![1, 4, 2]);
            assert_eq!(c, 3);
        },
        _ => panic!("expected a path"),
    }
}

#[test]
fn floyd_warshall_same_example() {
    let g = four_vertex();
    assert_eq!(cost_of(&g.get_shortest_path_floyd_warshall(1, 2)), Some(3));
    assert_eq!(cost_of(&g.get_shortest_path_floyd_warshall(3, 4)), Some(3));
}

#[test]
fn astar_with_zero_heuristic_matches_dijkstra() {
    let g = four_vertex();
    for s in 1..5u64 {
        for t in 1..5u64 {
            assert_eq!(
                cost_of(&g.get_shortest_path_astar(s, t, &ZeroHeuristic)),
                cost_of(&g.get_shortest_path_dijkstra(s, t))
            );
        }
    }
}

#[test]
fn astar_heuristic_does_not_change_costs() {
    let g = four_vertex();
    for s in 1..5u64 {
        for t in 1..5u64 {
            assert_eq!(
                cost_of(&g.get_shortest_path_astar(s, t, &FixedGuess)),
                cost_of(&g.get_shortest_path_dijkstra(s, t))
            );
        }
    }
}

#[test]
fn all_pairwise_costs_agree_across_algorithms() {
    let g = four_vertex();
    for s in 1..5u64 {
        for t in 1..5u64 {
            let d = cost_of(&g.get_shortest_path_dijkstra(s, t));
            assert_eq!(d, cost_of(&g.get_shortest_path_bellman_ford(s, t)));
            assert_eq!(d, cost_of(&g.get_shortest_path_floyd_warshall(s, t)));
        }
    }
}

#[test]
fn unreachable_vertices_are_reported() {
    let mut g = Graph::new();
    g.add_edge(1, 2, 4);
    g.add_vertex(9);
    assert!(matches!(g.get_shortest_path_dijkstra(1, 9), PathResult::Unreachable));
    assert!(matches!(g.get_shortest_path_bellman_ford(1, 9), PathResult::Unreachable));
    assert!(matches!(g.get_shortest_path_floyd_warshall(1, 9), PathResult::Unreachable));
    assert!(matches!(
        g.get_shortest_path_astar(1, 9, &ZeroHeuristic),
        PathResult::Unreachable
    ));
}

#[test]
fn missing_vertices_are_reported() {
    let g = four_vertex();
    assert!(matches!(g.get_shortest_path_dijkstra(1, 42), PathResult::NotFound));
    assert!(matches!(g.get_shortest_path_bellman_ford(42, 1), PathResult::NotFound));
    assert!(matches!(g.get_shortest_path_floyd_warshall(42, 43), PathResult::NotFound));
    let empty = Graph::new();
    assert!(matches!(empty.get_shortest_path_dijkstra(1, 2), PathResult::NotFound));
    assert!(matches!(empty.get_shortest_path_bellman_ford(1, 2), PathResult::NotFound));
    assert!(matches!(empty.get_shortest_path_floyd_warshall(1, 2), PathResult::NotFound));
}

#[test]
fn negative_weights_are_rejected_by_dijkstra_and_astar() {
    let mut g = Graph::new();
    g.add_edge(1, 2, -3);
    g.add_edge(2, 3, 1);
    assert!(matches!(g.get_shortest_path_dijkstra(1, 3), PathResult::InvalidPrecondition));
    assert!(matches!(
        g.get_shortest_path_astar(1, 3, &ZeroHeuristic),
        PathResult::InvalidPrecondition
    ));
}

#[test]
fn negative_cycle_is_reported_not_a_path() {
    // an undirected negative edge closes a negative cycle
    let mut g = Graph::new();
    g.add_edge(1, 2, -5);
    g.add_edge(2, 3, 2);
    assert!(matches!(g.get_shortest_path_bellman_ford(1, 3), PathResult::NegativeCycle));
    assert!(matches!(g.get_shortest_path_floyd_warshall(1, 3), PathResult::NegativeCycle));
}

#[test]
fn bellman_ford_handles_negative_weights_without_cycles() {
    // an undirected negative edge always closes a negative cycle, so the
    // negative part has to sit outside the queried component
    let mut g = Graph::new();
    g.add_edge(1, 2, 3);
    g.add_edge(5, 6, -4);
    match g.get_shortest_path_bellman_ford(1, 2) {
        PathResult::Found(p, c) => {
            assert_eq!(p, vec![1, 2]);
            assert_eq!(c, 3);
        },
        _ => panic!("expected a path"),
    }
}

#[test]
fn start_equals_end_costs_nothing() {
    let g = four_vertex();
    match g.get_shortest_path_dijkstra(3, 3) {
        PathResult::Found(p, c) => {
            assert_eq!(p, vec![3]);
            assert_eq!(c, 0);
        },
        _ => panic!("expected a path"),
    }
}
