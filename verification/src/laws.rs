//! Cross-algorithm laws.  Each proof function here states a relationship
//! between the contracts of two or more library operations and proves it
//! from those contracts alone.

use crate::counting::{count_trues, lemma_count_trues_full, lemma_count_trues_set};
use crate::graph::{GraphModel, adj_edge, has_label, lbl_idx, model_wf};
use crate::mst::{rep_row, reach_row};
use crate::paths::{
    connects, d_le, feasible, is_walk, lemma_feasible_lower_bound, lemma_walk_concat, walk_cost,
};
use crate::shortest::{
    bf_detects, bf_iter, bf_query_post, fw_query_post, nonneg_query_post, optimal_found,
};
use crate::PathResult;
use vstd::prelude::*;

verus! {

/// The weight by which two vertices are joined does not depend on the
/// direction the edge is read in: every stored half-edge has its mirror
/// with the same weight, so `get_edge_weight` answers the same for
/// `(u, v)` and `(v, u)`.
pub proof fn lemma_edge_weight_symmetric(m: GraphModel, u: u64, v: u64)
    requires
        model_wf(m),
    ensures
        forall|w: i64|
            #[trigger] adj_edge(m, lbl_idx(m, u), lbl_idx(m, v), w) <==> adj_edge(
                m,
                lbl_idx(m, v),
                lbl_idx(m, u),
                w,
            ),
{
}

/// Two cheapest-path answers for the same query cost the same: the
/// `Found` contract pins the cost as the minimum over all walks, and a
/// minimum is unique.  This is the cost agreement between Dijkstra and
/// Bellman-Ford, between Floyd-Warshall and Dijkstra, and between A* and
/// Dijkstra.
pub proof fn lemma_cheapest_cost_unique(
    m: GraphModel,
    s: int,
    t: int,
    p1: Seq<u64>,
    c1: int,
    p2: Seq<u64>,
    c2: int,
)
    requires
        optimal_found(m, s, t, p1, c1),
        optimal_found(m, s, t, p2, c2),
    ensures
        c1 == c2,
{
    let q1 = choose|q: Seq<usize>|
        #[trigger] is_walk(m, q) && q.first() as int == s && q.last() as int == t && walk_cost(
            m,
            q,
        ) == c1 && p1 == q.map_values(|i: usize| m.labels[i as int]);
    let q2 = choose|q: Seq<usize>|
        #[trigger] is_walk(m, q) && q.first() as int == s && q.last() as int == t && walk_cost(
            m,
            q,
        ) == c2 && p2 == q.map_values(|i: usize| m.labels[i as int]);
    assert(walk_cost(m, q1) >= c2);
    assert(walk_cost(m, q2) >= c1);
}

/// On a graph without negative edge weights, Dijkstra and Bellman-Ford
/// answer alike: one finds a path exactly when the other does, and then
/// at the same cost.  (Without negative edges neither can report a
/// negative cycle.)
pub proof fn lemma_dijkstra_bellman_ford_agree(
    m: GraphModel,
    a: u64,
    b: u64,
    r1: PathResult,
    r2: PathResult,
)
    requires
        model_wf(m),
        has_label(m, a),
        has_label(m, b),
        crate::paths::no_neg_edge(m),
        m.labels.len() <= usize::MAX,
        nonneg_query_post(m, a, b, r1),
        bf_query_post(m, a, b, r2),
    ensures
        (r1 is Found) <==> (r2 is Found),
        (r1 is Unreachable) <==> (r2 is Unreachable),
        match (r1, r2) {
            (PathResult::Found(p1, c1), PathResult::Found(p2, c2)) => c1 == c2,
            _ => true,
        },
{
    let s = lbl_idx(m, a);
    let t = lbl_idx(m, b);
    assert(0 <= s < m.labels.len());
    crate::shortest::lemma_nonneg_no_cycle_signal(m, s);
    match (r1, r2) {
        (PathResult::Found(p1, c1), PathResult::Found(p2, c2)) => {
            lemma_cheapest_cost_unique(m, s, t, p1@, c1 as int, p2@, c2 as int);
        },
        _ => {},
    }
}

/// On a graph without negative edge weights, Floyd-Warshall and
/// Dijkstra answer alike between any two vertices: same reachability
/// answer, same cost.
pub proof fn lemma_floyd_warshall_dijkstra_agree(
    m: GraphModel,
    a: u64,
    b: u64,
    r1: PathResult,
    r2: PathResult,
)
    requires
        model_wf(m),
        has_label(m, a),
        has_label(m, b),
        crate::paths::no_neg_edge(m),
        m.labels.len() <= usize::MAX,
        fw_query_post(m, a, b, r1),
        nonneg_query_post(m, a, b, r2),
    ensures
        (r1 is Found) <==> (r2 is Found),
        (r1 is Unreachable) <==> (r2 is Unreachable),
        match (r1, r2) {
            (PathResult::Found(p1, c1), PathResult::Found(p2, c2)) => c1 == c2,
            _ => true,
        },
{
    let s = lbl_idx(m, a);
    let t = lbl_idx(m, b);
    assert(0 <= s < m.labels.len());
    crate::shortest::lemma_nonneg_no_cycle_signal(m, s);
    if r1 is NegativeCycle {
        if crate::shortest::has_negative_closed_walk(m) {
            let p = choose|p: Seq<usize>|
                #[trigger] is_walk(m, p) && p.first() == p.last() && walk_cost(m, p) < 0;
            crate::paths::lemma_walk_cost_nonneg(m, p);
        }
        assert(false);
    }
    match (r1, r2) {
        (PathResult::Found(p1, c1), PathResult::Found(p2, c2)) => {
            lemma_cheapest_cost_unique(m, s, t, p1@, c1 as int, p2@, c2 as int);
        },
        _ => {},
    }
}

/// A* under the all-zero estimate and Dijkstra meet the same contract, so
/// their answers agree: same reachability answer, same cost.  (In this
/// library Dijkstra literally is the A* search with the zero estimate.)
pub proof fn lemma_astar_zero_is_dijkstra(
    m: GraphModel,
    a: u64,
    b: u64,
    r1: PathResult,
    r2: PathResult,
)
    requires
        model_wf(m),
        has_label(m, a),
        has_label(m, b),
        crate::paths::no_neg_edge(m),
        m.labels.len() <= usize::MAX,
        nonneg_query_post(m, a, b, r1),
        nonneg_query_post(m, a, b, r2),
    ensures
        (r1 is Found) <==> (r2 is Found),
        (r1 is Unreachable) <==> (r2 is Unreachable),
        match (r1, r2) {
            (PathResult::Found(p1, c1), PathResult::Found(p2, c2)) => c1 == c2,
            _ => true,
        },
{
    let s = lbl_idx(m, a);
    let t = lbl_idx(m, b);
    assert(0 <= s < m.labels.len());
    crate::shortest::lemma_nonneg_no_cycle_signal(m, s);
    match (r1, r2) {
        (PathResult::Found(p1, c1), PathResult::Found(p2, c2)) => {
            lemma_cheapest_cost_unique(m, s, t, p1@, c1 as int, p2@, c2 as int);
        },
        _ => {},
    }
}

/// Walking a closed negative-cost loop `j` times after reaching it makes
/// the route cheaper each round.
proof fn lemma_pump_cycle(m: GraphModel, p: Seq<usize>, cyc: Seq<usize>, j: nat)
    requires
        model_wf(m),
        is_walk(m, p),
        is_walk(m, cyc),
        cyc.first() == cyc.last(),
        p.last() == cyc.first(),
    ensures
        exists|q: Seq<usize>|
            #[trigger] is_walk(m, q) && q.first() == p.first() && q.last() == p.last()
                && walk_cost(m, q) == walk_cost(m, p) + j * walk_cost(m, cyc),
    decreases j,
{
    if j == 0 {
        assert(is_walk(m, p) && p.first() == p.first() && p.last() == p.last() && walk_cost(m, p)
            == walk_cost(m, p) + 0 * walk_cost(m, cyc));
    } else {
        lemma_pump_cycle(m, p, cyc, (j - 1) as nat);
        let q = choose|q: Seq<usize>|
            #[trigger] is_walk(m, q) && q.first() == p.first() && q.last() == p.last()
                && walk_cost(m, q) == walk_cost(m, p) + (j - 1) * walk_cost(m, cyc);
        lemma_walk_concat(m, q, cyc);
        let q2 = q + cyc.drop_first();
        assert(is_walk(m, q2) && q2.first() == p.first() && q2.last() == cyc.last());
        assert(walk_cost(m, q2) == walk_cost(m, p) + (j - 1) * walk_cost(m, cyc) + walk_cost(
            m,
            cyc,
        ));
        assert((j - 1) * walk_cost(m, cyc) + walk_cost(m, cyc) == j * walk_cost(m, cyc))
            by (nonlinear_arith);
    }
}

/// A negative cycle that the source can reach forces the Bellman-Ford
/// signal: the query must report `NegativeCycle` rather than a finite
/// path.
pub proof fn lemma_negative_cycle_reported(
    m: GraphModel,
    a: u64,
    b: u64,
    cyc: Seq<usize>,
    r: PathResult,
)
    requires
        model_wf(m),
        has_label(m, a),
        has_label(m, b),
        is_walk(m, cyc),
        cyc.first() == cyc.last(),
        walk_cost(m, cyc) < 0,
        connects(m, lbl_idx(m, a), cyc.first() as int),
        bf_query_post(m, a, b, r),
    ensures
        r is NegativeCycle,
{
    let s = lbl_idx(m, a);
    let n = m.labels.len();
    assert(0 <= s < n);
    if !bf_detects(m, s) {
        let ds = bf_iter(m, s, (n - 1) as nat);
        crate::shortest::lemma_bf_fix_feasible(m, s);
        assert(feasible(m, s, ds));
        let p = choose|p: Seq<usize>|
            #[trigger] is_walk(m, p) && p.first() as int == s && p.last() as int
                == cyc.first() as int;
        lemma_feasible_lower_bound(m, s, ds, p);
        let x = p.last() as int;
        assert(d_le(ds[x], Option::Some(walk_cost(m, p))));
        let cx = ds[x]->Some_0;
        let cp = walk_cost(m, p);
        let cc = walk_cost(m, cyc);
        let j = (cp - cx + 1) as nat;
        assert(cp - cx + 1 >= 1);
        lemma_pump_cycle(m, p, cyc, j);
        let q = choose|q: Seq<usize>|
            #[trigger] is_walk(m, q) && q.first() == p.first() && q.last() == p.last()
                && walk_cost(m, q) == walk_cost(m, p) + j * walk_cost(m, cyc);
        lemma_feasible_lower_bound(m, s, ds, q);
        assert(d_le(ds[x], Option::Some(cp + j * cc)));
        assert(j * cc <= j * (-1)) by (nonlinear_arith)
            requires
                cc <= -1,
                j >= 0,
        ;
        assert(cp + j * cc <= cp - (cp - cx + 1));
        assert(cx <= cx - 1);
        assert(false);
    }
}

/// A negative-cycle report is never spurious: whenever the Bellman-Ford
/// query answers `NegativeCycle`, the graph really holds a closed walk of
/// negative cost that the start vertex reaches.
pub proof fn lemma_cycle_report_sound(m: GraphModel, a: u64, b: u64, r: PathResult)
    requires
        model_wf(m),
        has_label(m, a),
        has_label(m, b),
        m.labels.len() <= usize::MAX,
        bf_query_post(m, a, b, r),
        r is NegativeCycle,
    ensures
        exists|cyc: Seq<usize>|
            #[trigger] is_walk(m, cyc) && cyc.first() == cyc.last() && walk_cost(m, cyc) < 0
                && connects(m, lbl_idx(m, a), cyc.first() as int),
{
    let s = lbl_idx(m, a);
    assert(0 <= s < m.labels.len());
    assert(bf_detects(m, s));
    crate::shortest::lemma_cycle_signal_sound(m, s);
}

/// On a connected graph every vertex reaches every other, so Prim's
/// vertex count is the whole graph and Kruskal sees a single class: both
/// spanning-tree builders return exactly `|V| - 1` edges.
pub proof fn lemma_connected_spanning_counts(m: GraphModel, s: int)
    requires
        model_wf(m),
        m.labels.len() > 0,
        0 <= s < m.labels.len(),
        forall|x: int, y: int|
            0 <= x < m.labels.len() && 0 <= y < m.labels.len() ==> connects(m, x, y),
    ensures
        count_trues(reach_row(m, s)) == m.labels.len(),
        count_trues(rep_row(m)) == 1,
{
    let n = m.labels.len() as int;
    assert forall|t: int| 0 <= t < reach_row(m, s).len() implies reach_row(m, s)[t] by {
        assert(connects(m, s, t));
    }
    lemma_count_trues_full(reach_row(m, s));
    let unit = Seq::new(n as nat, |t: int| false).update(0, true);
    assert(rep_row(m) =~= unit) by {
        assert forall|t: int| 0 <= t < n implies rep_row(m)[t] == unit[t] by {
            if t == 0 {
                assert(crate::mst::is_class_rep(m, 0));
            } else {
                assert(connects(m, 0, t));
                assert(!crate::mst::is_class_rep(m, t));
            }
        }
    }
    crate::counting::lemma_count_trues_agree(rep_row(m), unit);
    crate::counting::lemma_count_trues_none(n as nat);
    lemma_count_trues_set(Seq::new(n as nat, |t: int| false), 0);
}


} // verus!
