//! Weighted undirected graph algorithms: a single adjacency-list graph store
//! with connectivity discovery (breadth-first, depth-first, disjoint-set),
//! minimum-spanning-tree construction (Kruskal, Prim) and shortest-path
//! queries (Dijkstra, Bellman-Ford, Floyd-Warshall, A*), each with a proved
//! contract over a mathematical model of the graph.

pub mod connectivity;
pub mod counting;
pub mod dsu;
pub mod graph;
pub mod heap;
pub mod laws;
pub mod mst;
pub mod paths;
pub mod prio;
pub mod shortest;

use vstd::prelude::*;

verus! {

/// Outcome of a shortest-path query.
///
/// A missing path always comes with one of the sentinel variants, so a
/// "no path but finite cost" answer cannot be represented at all.
pub enum PathResult {
    /// Both endpoints exist and a cheapest route was found: the vertices in
    /// order from start to end, and the total cost along it.
    Found(Vec<u64>, i128),
    /// Start or end vertex is not in the graph.
    NotFound,
    /// Both endpoints exist but no route joins them (cost would be infinite).
    Unreachable,
    /// A negative cycle makes "cheapest route" meaningless for this query.
    NegativeCycle,
    /// The algorithm's weight precondition is violated (a negative edge
    /// weight handed to Dijkstra or A*).
    InvalidPrecondition,
}

} // verus!
