//! Walks, walk costs and connectivity over the graph model, together with
//! the lemmas the algorithm contracts rest on: walks extend and concatenate,
//! they can be reversed in an undirected graph, a vertex set that is closed
//! under edges traps every walk, and a feasible distance labelling bounds
//! the cost of every walk from below.

use crate::graph::{GraphModel, adj_edge, has_edge, model_wf, nodup_targets};
use vstd::prelude::*;

verus! {

/// A walk: a nonempty sequence of vertex positions in which consecutive
/// positions are joined by an edge.  Vertices may repeat.
pub open spec fn is_walk(m: GraphModel, p: Seq<usize>) -> bool {
    &&& p.len() >= 1
    &&& forall|t: int| 0 <= t < p.len() ==> (#[trigger] p[t]) < m.labels.len()
    &&& forall|t: int| 0 <= t < p.len() - 1 ==> has_edge(m, (#[trigger] p[t]) as int, p[t + 1] as int)
}

/// The weight of the edge between `i` and `j` (unique in a well-formed
/// graph when the edge exists).
pub open spec fn edge_wt(m: GraphModel, i: int, j: int) -> i64 {
    choose|w: i64| adj_edge(m, i, j, w)
}

/// Total weight along a walk.
pub open spec fn walk_cost(m: GraphModel, p: Seq<usize>) -> int
    decreases p.len(),
{
    if p.len() <= 1 {
        0
    } else {
        walk_cost(m, p.drop_last()) + edge_wt(m, p[p.len() - 2] as int, p[p.len() - 1] as int)
    }
}

/// Some walk joins `s` to `t`.
pub open spec fn connects(m: GraphModel, s: int, t: int) -> bool {
    exists|p: Seq<usize>|
        #[trigger] is_walk(m, p) && p.first() as int == s && p.last() as int == t
}

/// In a well-formed graph the weight of a present edge is unique.
pub proof fn lemma_edge_wt_unique(m: GraphModel, i: int, j: int, w: i64)
    requires
        model_wf(m),
        adj_edge(m, i, j, w),
    ensures
        edge_wt(m, i, j) == w,
{
    let w2 = edge_wt(m, i, j);
    assert(adj_edge(m, i, j, w2));
    let k1 = choose|k: int|
        0 <= k < m.adj[i].len() && (#[trigger] m.adj[i][k]).0 as int == j && m.adj[i][k].1 == w;
    let k2 = choose|k: int|
        0 <= k < m.adj[i].len() && (#[trigger] m.adj[i][k]).0 as int == j && m.adj[i][k].1 == w2;
    assert(nodup_targets(m.adj[i]));
    assert(k1 == k2);
}

/// Appending a neighbor of the last vertex extends a walk, and the cost
/// grows by that edge's weight.
pub proof fn lemma_walk_extend(m: GraphModel, p: Seq<usize>, v: usize, w: i64)
    requires
        model_wf(m),
        is_walk(m, p),
        adj_edge(m, p.last() as int, v as int, w),
    ensures
        is_walk(m, p.push(v)),
        p.push(v).first() == p.first(),
        p.push(v).last() == v,
        walk_cost(m, p.push(v)) == walk_cost(m, p) + w,
{
    let p2 = p.push(v);
    assert(has_edge(m, p.last() as int, v as int));
    assert forall|t: int| 0 <= t < p2.len() - 1 implies has_edge(
        m,
        (#[trigger] p2[t]) as int,
        p2[t + 1] as int,
    ) by {
        if t < p.len() - 1 {
            assert(p2[t] == p[t] && p2[t + 1] == p[t + 1]);
            assert(has_edge(m, p[t] as int, p[t + 1] as int));
        } else {
            assert(p2[t] == p.last() && p2[t + 1] == v);
        }
    }
    assert(p2.drop_last() =~= p);
    lemma_edge_wt_unique(m, p.last() as int, v as int, w);
    assert(walk_cost(m, p2) == walk_cost(m, p) + edge_wt(m, p[p.len() - 1] as int, v as int));
}

/// Two walks that meet end-to-start concatenate into one walk whose cost is
/// the sum of the two costs.
pub proof fn lemma_walk_concat(m: GraphModel, p: Seq<usize>, q: Seq<usize>)
    requires
        model_wf(m),
        is_walk(m, p),
        is_walk(m, q),
        p.last() == q.first(),
    ensures
        is_walk(m, p + q.drop_first()),
        (p + q.drop_first()).first() == p.first(),
        (p + q.drop_first()).last() == q.last(),
        walk_cost(m, p + q.drop_first()) == walk_cost(m, p) + walk_cost(m, q),
    decreases q.len(),
{
    if q.len() == 1 {
        assert(p + q.drop_first() =~= p);
    } else {
        let q0 = q.drop_last();
        let v = q.last();
        assert(is_walk(m, q0)) by {
            assert forall|t: int| 0 <= t < q0.len() - 1 implies has_edge(
                m,
                (#[trigger] q0[t]) as int,
                q0[t + 1] as int,
            ) by {
                assert(q0[t] == q[t] && q0[t + 1] == q[t + 1]);
                assert(has_edge(m, q[t] as int, q[t + 1] as int));
            }
        }
        assert(q0.first() == q.first());
        lemma_walk_concat(m, p, q0);
        let c = p + q0.drop_first();
        assert(has_edge(m, q[q.len() - 2] as int, q.last() as int));
        let w = choose|w: i64| #[trigger] adj_edge(m, q[q.len() - 2] as int, q.last() as int, w);
        assert(c.last() == q0.last());
        lemma_walk_extend(m, c, v, w);
        assert(c.push(v) =~= p + q.drop_first());
        assert(q.drop_last() == q0);
        lemma_edge_wt_unique(m, q[q.len() - 2] as int, q.last() as int, w);
        assert(walk_cost(m, q) == walk_cost(m, q0) + w);
    }
}

/// A one-vertex walk.
pub proof fn lemma_walk_single(m: GraphModel, v: usize)
    requires
        (v as int) < m.labels.len(),
    ensures
        is_walk(m, seq![v]),
        walk_cost(m, seq![v]) == 0,
        seq![v].first() == v,
        seq![v].last() == v,
        connects(m, v as int, v as int),
{
    let p = seq![v];
    assert(p.len() == 1 && p[0] == v);
    assert(is_walk(m, p));
}

/// In a well-formed (undirected) graph, connectivity is symmetric: every
/// walk can be reversed.
pub proof fn lemma_walk_reverse(m: GraphModel, p: Seq<usize>)
    requires
        model_wf(m),
        is_walk(m, p),
    ensures
        connects(m, p.last() as int, p.first() as int),
    decreases p.len(),
{
    if p.len() == 1 {
        lemma_walk_single(m, p[0]);
    } else {
        let p0 = p.drop_last();
        let v = p.last();
        assert(is_walk(m, p0)) by {
            assert forall|t: int| 0 <= t < p0.len() - 1 implies has_edge(
                m,
                (#[trigger] p0[t]) as int,
                p0[t + 1] as int,
            ) by {
                assert(p0[t] == p[t] && p0[t + 1] == p[t + 1]);
                assert(has_edge(m, p[t] as int, p[t + 1] as int));
            }
        }
        lemma_walk_reverse(m, p0);
        let r = choose|r: Seq<usize>|
            #[trigger] is_walk(m, r) && r.first() as int == p0.last() as int && r.last() as int
                == p0.first() as int;
        assert(has_edge(m, p[p.len() - 2] as int, v as int));
        let w = choose|w: i64| #[trigger] adj_edge(m, p[p.len() - 2] as int, v as int, w);
        assert(adj_edge(m, v as int, p[p.len() - 2] as int, w));
        let hop = seq![v, p[p.len() - 2]];
        assert(is_walk(m, hop)) by {
            assert(hop[0] == v && hop[1] == p[p.len() - 2]);
            assert(has_edge(m, hop[0] as int, hop[1] as int));
            assert forall|t: int| 0 <= t < hop.len() - 1 implies has_edge(
                m,
                (#[trigger] hop[t]) as int,
                hop[t + 1] as int,
            ) by {
                assert(t == 0);
            }
        }
        assert(hop.last() == p0.last());
        assert(hop.last() == r.first());
        lemma_walk_concat(m, hop, r);
        let full = hop + r.drop_first();
        assert(is_walk(m, full) && full.first() as int == v as int && full.last() as int
            == p.first() as int);
        assert(connects(m, p.last() as int, p.first() as int));
    }
}

/// Connectivity is symmetric in an undirected graph.
pub proof fn lemma_connects_sym(m: GraphModel, a: int, b: int)
    requires
        model_wf(m),
        connects(m, a, b),
    ensures
        connects(m, b, a),
{
    let p = choose|p: Seq<usize>|
        #[trigger] is_walk(m, p) && p.first() as int == a && p.last() as int == b;
    lemma_walk_reverse(m, p);
}

/// Connectivity is transitive.
pub proof fn lemma_connects_trans(m: GraphModel, a: int, b: int, c: int)
    requires
        model_wf(m),
        connects(m, a, b),
        connects(m, b, c),
    ensures
        connects(m, a, c),
{
    let p = choose|p: Seq<usize>|
        #[trigger] is_walk(m, p) && p.first() as int == a && p.last() as int == b;
    let q = choose|q: Seq<usize>|
        #[trigger] is_walk(m, q) && q.first() as int == b && q.last() as int == c;
    lemma_walk_concat(m, p, q);
    assert(is_walk(m, p + q.drop_first()));
}

/// A vertex set (given as one flag per position) that contains a walk's
/// start and is closed under edges contains the walk's end.
pub proof fn lemma_walk_stays(m: GraphModel, vs: Seq<bool>, p: Seq<usize>)
    requires
        model_wf(m),
        vs.len() == m.labels.len(),
        is_walk(m, p),
        vs[p.first() as int],
        forall|x: int, y: int|
            0 <= x < vs.len() && 0 <= y < vs.len() && vs[x] && #[trigger] has_edge(m, x, y)
                ==> vs[y],
    ensures
        vs[p.last() as int],
    decreases p.len(),
{
    if p.len() > 1 {
        let p0 = p.drop_last();
        assert(is_walk(m, p0)) by {
            assert forall|t: int| 0 <= t < p0.len() - 1 implies has_edge(
                m,
                (#[trigger] p0[t]) as int,
                p0[t + 1] as int,
            ) by {
                assert(p0[t] == p[t] && p0[t + 1] == p[t + 1]);
                assert(has_edge(m, p[t] as int, p[t + 1] as int));
            }
        }
        lemma_walk_stays(m, vs, p0);
        assert(has_edge(m, p[p.len() - 2] as int, p[p.len() - 1] as int));
    }
}

/// No edge of the graph has a negative weight.
pub open spec fn no_neg_edge(m: GraphModel) -> bool {
    forall|x: int, y: int, w: i64| #[trigger] adj_edge(m, x, y, w) ==> w >= 0
}

/// With no negative edge, no walk has a negative cost.
pub proof fn lemma_walk_cost_nonneg(m: GraphModel, p: Seq<usize>)
    requires
        model_wf(m),
        no_neg_edge(m),
        is_walk(m, p),
    ensures
        walk_cost(m, p) >= 0,
    decreases p.len(),
{
    if p.len() > 1 {
        let p0 = p.drop_last();
        assert(is_walk(m, p0)) by {
            assert forall|t: int| 0 <= t < p0.len() - 1 implies has_edge(
                m,
                (#[trigger] p0[t]) as int,
                p0[t + 1] as int,
            ) by {
                assert(p0[t] == p[t] && p0[t + 1] == p[t + 1]);
                assert(has_edge(m, p[t] as int, p[t + 1] as int));
            }
        }
        lemma_walk_cost_nonneg(m, p0);
        let x = p[p.len() - 2] as int;
        let y = p.last() as int;
        assert(has_edge(m, x, y));
        let w = choose|w: i64| #[trigger] adj_edge(m, x, y, w);
        lemma_edge_wt_unique(m, x, y, w);
        assert(w >= 0);
    }
}

/// Distances with infinity: `None` stands for "unreachable so far".
pub open spec fn d_le(a: Option<int>, b: Option<int>) -> bool {
    match b {
        Option::None => true,
        Option::Some(bv) => match a {
            Option::None => false,
            Option::Some(av) => av <= bv,
        },
    }
}

/// Adding an edge weight to a distance; infinity absorbs.
pub open spec fn d_add(a: Option<int>, w: int) -> Option<int> {
    match a {
        Option::None => Option::None,
        Option::Some(av) => Option::Some(av + w),
    }
}

/// The smaller of two distances.
pub open spec fn d_min(a: Option<int>, b: Option<int>) -> Option<int> {
    if d_le(a, b) {
        a
    } else {
        b
    }
}

/// A feasible distance labelling from source `s`: the source is at most
/// zero and no edge can improve any label.
pub open spec fn feasible(m: GraphModel, s: int, ds: Seq<Option<int>>) -> bool {
    &&& ds.len() == m.labels.len()
    &&& 0 <= s < ds.len()
    &&& d_le(ds[s], Option::Some(0))
    &&& forall|x: int, y: int, w: i64|
        #[trigger] adj_edge(m, x, y, w) ==> d_le(ds[y], d_add(ds[x], w as int))
}

/// The telescoping bound: a feasible labelling is a lower bound on the cost
/// of every walk from the source.
pub proof fn lemma_feasible_lower_bound(m: GraphModel, s: int, ds: Seq<Option<int>>, p: Seq<usize>)
    requires
        model_wf(m),
        feasible(m, s, ds),
        is_walk(m, p),
        p.first() as int == s,
    ensures
        d_le(ds[p.last() as int], Option::Some(walk_cost(m, p))),
    decreases p.len(),
{
    if p.len() == 1 {
        assert(walk_cost(m, p) == 0);
    } else {
        let p0 = p.drop_last();
        assert(is_walk(m, p0)) by {
            assert forall|t: int| 0 <= t < p0.len() - 1 implies has_edge(
                m,
                (#[trigger] p0[t]) as int,
                p0[t + 1] as int,
            ) by {
                assert(p0[t] == p[t] && p0[t + 1] == p[t + 1]);
                assert(has_edge(m, p[t] as int, p[t + 1] as int));
            }
        }
        lemma_feasible_lower_bound(m, s, ds, p0);
        let x = p[p.len() - 2] as int;
        let y = p.last() as int;
        assert(has_edge(m, x, y));
        let w = choose|w: i64| #[trigger] adj_edge(m, x, y, w);
        lemma_edge_wt_unique(m, x, y, w);
        assert(d_le(ds[y], d_add(ds[x], w as int)));
        assert(walk_cost(m, p) == walk_cost(m, p0) + w);
        assert(p0.last() == p[p.len() - 2]);
    }
}

/// Every edge weight lies within the signed 64-bit range, so a walk's cost
/// is bounded by its edge count times that range.
pub proof fn lemma_walk_cost_bound(m: GraphModel, p: Seq<usize>)
    requires
        model_wf(m),
        is_walk(m, p),
    ensures
        -(p.len() - 1) * 0x8000_0000_0000_0000 <= walk_cost(m, p),
        walk_cost(m, p) <= (p.len() - 1) * 0x8000_0000_0000_0000,
    decreases p.len(),
{
    if p.len() > 1 {
        let p0 = p.drop_last();
        assert(is_walk(m, p0)) by {
            assert forall|t: int| 0 <= t < p0.len() - 1 implies has_edge(
                m,
                (#[trigger] p0[t]) as int,
                p0[t + 1] as int,
            ) by {
                assert(p0[t] == p[t] && p0[t + 1] == p[t + 1]);
                assert(has_edge(m, p[t] as int, p[t + 1] as int));
            }
        }
        lemma_walk_cost_bound(m, p0);
        let x = p[p.len() - 2] as int;
        let y = p.last() as int;
        assert(has_edge(m, x, y));
        let w = edge_wt(m, x, y);
        assert(-0x8000_0000_0000_0000 <= w <= 0x7fff_ffff_ffff_ffff);
        assert(walk_cost(m, p) == walk_cost(m, p0) + w);
        assert(p0.len() == p.len() - 1);
        assert((p.len() - 1) * 0x8000_0000_0000_0000 == (p.len() - 2) * 0x8000_0000_0000_0000
            + 0x8000_0000_0000_0000);
    }
}

/// A contiguous piece of a walk is a walk.
pub proof fn lemma_subwalk(m: GraphModel, p: Seq<usize>, a: int, b: int)
    requires
        is_walk(m, p),
        0 <= a < b <= p.len(),
    ensures
        is_walk(m, p.subrange(a, b)),
        p.subrange(a, b).first() == p[a],
        p.subrange(a, b).last() == p[b - 1],
        p.subrange(a, b).len() == b - a,
{
    let q = p.subrange(a, b);
    assert forall|t: int| 0 <= t < q.len() - 1 implies has_edge(
        m,
        (#[trigger] q[t]) as int,
        q[t + 1] as int,
    ) by {
        assert(q[t] == p[a + t] && q[t + 1] == p[a + t + 1]);
        assert(has_edge(m, p[a + t] as int, p[a + t + 1] as int));
    }
}

/// A walk over more vertices than the graph has repeats one.
pub proof fn lemma_walk_repeats(p: Seq<usize>, n: int)
    requires
        n >= 0,
        p.len() > n,
        forall|t: int| 0 <= t < p.len() ==> ((#[trigger] p[t]) as int) < n,
    ensures
        exists|i: int, j: int| 0 <= i < j < p.len() && #[trigger] p[i] == #[trigger] p[j],
{
    if !(exists|i: int, j: int| 0 <= i < j < p.len() && #[trigger] p[i] == #[trigger] p[j]) {
        let pi = p.map_values(|x: usize| x as int);
        assert(pi.no_duplicates()) by {
            assert forall|i: int, j: int|
                0 <= i < pi.len() && 0 <= j < pi.len() && i != j implies pi[i] != pi[j] by {
                if i < j {
                    assert(!(p[i] == p[j]));
                } else {
                    assert(!(p[j] == p[i]));
                }
            }
        }
        pi.unique_seq_to_set();
        assert(pi.to_set().subset_of(vstd::set_lib::set_int_range(0, n))) by {
            assert forall|e: int| pi.to_set().contains(e)
                implies vstd::set_lib::set_int_range(0, n).contains(e) by {
                assert(pi.contains(e));
                let t = choose|t: int| 0 <= t < pi.len() && pi[t] == e;
                assert((p[t] as int) < n);
            }
        }
        vstd::set_lib::lemma_int_range(0, n);
        vstd::set_lib::lemma_len_subset(pi.to_set(), vstd::set_lib::set_int_range(0, n));
        assert(false);
    }
}

/// Cutting the loop between two visits of the same vertex out of a walk:
/// what remains is a walk with the same endpoints whose cost drops by the
/// loop's cost.
#[verifier::rlimit(100)]
pub proof fn lemma_cut_loop(m: GraphModel, p: Seq<usize>, i: int, j: int)
    requires
        model_wf(m),
        is_walk(m, p),
        0 <= i < j < p.len(),
        p[i] == p[j],
    ensures
        ({
            let q = p.subrange(0, i + 1) + p.subrange(j, p.len() as int).drop_first();
            let cyc = p.subrange(i, j + 1);
            &&& is_walk(m, q)
            &&& q.first() == p.first()
            &&& q.last() == p.last()
            &&& q.len() == p.len() - (j - i)
            &&& is_walk(m, cyc)
            &&& cyc.first() == cyc.last()
            &&& cyc.first() == p[i]
            &&& walk_cost(m, q) == walk_cost(m, p) - walk_cost(m, cyc)
        }),
{
    let seg1 = p.subrange(0, i + 1);
    let cyc = p.subrange(i, j + 1);
    let seg2 = p.subrange(j, p.len() as int);
    lemma_subwalk(m, p, 0, i + 1);
    lemma_subwalk(m, p, i, j + 1);
    lemma_subwalk(m, p, j, p.len() as int);
    lemma_walk_concat(m, seg1, cyc);
    assert(seg1 + cyc.drop_first() =~= p.subrange(0, j + 1));
    lemma_subwalk(m, p, 0, j + 1);
    lemma_walk_concat(m, p.subrange(0, j + 1), seg2);
    assert(p.subrange(0, j + 1) + seg2.drop_first() =~= p);
    assert(walk_cost(m, p) == walk_cost(m, seg1) + walk_cost(m, cyc) + walk_cost(m, seg2));
    lemma_walk_concat(m, seg1, seg2);
}

/// With no negative edge, any walk can be replaced by one between the
/// same endpoints that is no costlier and visits at most `|V|` vertices:
/// repeated vertices bound a closed loop of non-negative cost that can be
/// cut out.
pub proof fn lemma_walk_shorten(m: GraphModel, p: Seq<usize>)
    requires
        model_wf(m),
        no_neg_edge(m),
        is_walk(m, p),
    ensures
        exists|q: Seq<usize>|
            #[trigger] is_walk(m, q) && q.first() == p.first() && q.last() == p.last()
                && walk_cost(m, q) <= walk_cost(m, p) && q.len() <= m.labels.len(),
    decreases p.len(),
{
    let n = m.labels.len() as int;
    if p.len() <= n {
        assert(is_walk(m, p) && p.first() == p.first() && p.last() == p.last() && walk_cost(m, p)
            <= walk_cost(m, p) && p.len() <= n);
    } else {
        lemma_walk_repeats(p, n);
        let (i, j) = choose|i: int, j: int|
            0 <= i < j < p.len() && #[trigger] p[i] == #[trigger] p[j];
        lemma_cut_loop(m, p, i, j);
        let q0 = p.subrange(0, i + 1) + p.subrange(j, p.len() as int).drop_first();
        let cyc = p.subrange(i, j + 1);
        lemma_walk_cost_nonneg(m, cyc);
        lemma_walk_shorten(m, q0);
        let q = choose|q: Seq<usize>|
            #[trigger] is_walk(m, q) && q.first() == q0.first() && q.last() == q0.last()
                && walk_cost(m, q) <= walk_cost(m, q0) && q.len() <= m.labels.len();
        assert(is_walk(m, q) && q.first() == p.first() && q.last() == p.last() && walk_cost(m, q)
            <= walk_cost(m, p) && q.len() <= n);
    }
}

} // verus!
