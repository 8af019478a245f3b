//! Single-source and all-pairs shortest paths: Dijkstra, Bellman-Ford,
//! Floyd-Warshall and A*.  All four are verified against the same
//! mathematical yardstick: a reported path is a real walk whose cost no
//! other walk between the endpoints undercuts.  The Bellman-Ford recurrence
//! `bf_iter` below is the specification backbone: round `k` holds, for each
//! vertex, the least cost of any walk from the source with at most `k`
//! edges.

use crate::graph::{Graph, GraphModel, adj_edge, edge_done, has_edge, has_label, lbl_idx, model_wf};
use crate::paths::{
    connects, d_add, d_le, d_min, edge_wt, feasible, is_walk, lemma_edge_wt_unique,
    lemma_feasible_lower_bound, lemma_walk_concat, lemma_walk_cost_bound, lemma_walk_extend,
    lemma_walk_single, walk_cost,
};

use crate::PathResult;
use crate::prio::{MinQueue, QueueEntry};
use vstd::prelude::*;

verus! {

/// Folding one adjacency list into a tentative distance: the least of the
/// starting value and, for each entry, the neighbor's previous distance
/// plus the edge weight.
pub open spec fn relax_fold(
    prev: Seq<Option<int>>,
    l: Seq<(usize, i64)>,
    init: Option<int>,
) -> Option<int>
    decreases l.len(),
{
    if l.len() == 0 {
        init
    } else {
        d_min(
            relax_fold(prev, l.drop_last(), init),
            d_add(prev[l.last().0 as int], l.last().1 as int),
        )
    }
}

/// One Bellman-Ford round for a single vertex.
pub open spec fn bf_step(m: GraphModel, prev: Seq<Option<int>>, v: int) -> Option<int> {
    relax_fold(prev, m.adj[v], prev[v])
}

/// One Bellman-Ford round over every vertex, computed from a snapshot of
/// the previous round.
pub open spec fn bf_round(m: GraphModel, prev: Seq<Option<int>>) -> Seq<Option<int>> {
    Seq::new(prev.len(), |v: int| bf_step(m, prev, v))
}

/// Distances before the first round: zero at the source, unreached
/// elsewhere.
pub open spec fn bf_init(m: GraphModel, s: int) -> Seq<Option<int>> {
    Seq::new(m.labels.len(), |v: int| if v == s { Option::Some(0int) } else { Option::None })
}

/// Distances after `k` Bellman-Ford rounds from source `s`.
pub open spec fn bf_iter(m: GraphModel, s: int, k: nat) -> Seq<Option<int>>
    decreases k,
{
    if k == 0 {
        bf_init(m, s)
    } else {
        bf_round(m, bf_iter(m, s, (k - 1) as nat))
    }
}

/// Bellman-Ford's negative-cycle signal: one more round after `|V| - 1`
/// still improves some distance.
pub open spec fn bf_detects(m: GraphModel, s: int) -> bool {
    bf_iter(m, s, m.labels.len() as nat) != bf_iter(m, s, (m.labels.len() - 1) as nat)
}

/// What the fold returns: no more than the start, no more than any single
/// relaxation, and nothing else.
proof fn lemma_relax_fold_props(prev: Seq<Option<int>>, l: Seq<(usize, i64)>, init: Option<int>)
    ensures
        d_le(relax_fold(prev, l, init), init),
        forall|k: int|
            0 <= k < l.len() ==> d_le(
                relax_fold(prev, l, init),
                d_add(prev[(#[trigger] l[k]).0 as int], l[k].1 as int),
            ),
        relax_fold(prev, l, init) == init || exists|k: int|
            0 <= k < l.len() && relax_fold(prev, l, init) == d_add(
                prev[(#[trigger] l[k]).0 as int],
                l[k].1 as int,
            ),
    decreases l.len(),
{
    if l.len() > 0 {
        let l0 = l.drop_last();
        lemma_relax_fold_props(prev, l0, init);
        let r = relax_fold(prev, l, init);
        let r0 = relax_fold(prev, l0, init);
        assert forall|k: int|
            0 <= k < l.len() implies d_le(
                r,
                d_add(prev[(#[trigger] l[k]).0 as int], l[k].1 as int),
            ) by {
            if k < l.len() - 1 {
                assert(l0[k] == l[k]);
                assert(d_le(r0, d_add(prev[l0[k].0 as int], l0[k].1 as int)));
            }
        }
        if r0 == init && r == r0 {
        } else if r == r0 {
            let k = choose|k: int|
                0 <= k < l0.len() && r0 == d_add(prev[(#[trigger] l0[k]).0 as int], l0[k].1 as int);
            assert(l[k] == l0[k]);
            assert(r == d_add(prev[(l[k]).0 as int], l[k].1 as int));
        } else {
            assert(r == d_add(prev[(l[l.len() - 1]).0 as int], l[l.len() - 1].1 as int));
        }
    }
}

/// The source's distance never rises above zero.
proof fn lemma_bf_source(m: GraphModel, s: int, k: nat)
    requires
        0 <= s < m.labels.len(),
    ensures
        bf_iter(m, s, k).len() == m.labels.len(),
        d_le(bf_iter(m, s, k)[s], Option::Some(0)),
    decreases k,
{
    if k > 0 {
        lemma_bf_source(m, s, (k - 1) as nat);
        lemma_relax_fold_props(bf_iter(m, s, (k - 1) as nat), m.adj[s], bf_iter(m, s, (k - 1) as nat)[s]);
    }
}

/// Every round keeps one distance slot per vertex.
proof fn lemma_bf_len(m: GraphModel, s: int, k: nat)
    ensures
        bf_iter(m, s, k).len() == m.labels.len(),
    decreases k,
{
    if k > 0 {
        lemma_bf_len(m, s, (k - 1) as nat);
    }
}

/// Round `k` undercuts every walk from the source with at most `k` edges.
proof fn lemma_bf_le_walk(m: GraphModel, s: int, k: nat, p: Seq<usize>)
    requires
        model_wf(m),
        0 <= s < m.labels.len(),
        is_walk(m, p),
        p.first() as int == s,
        p.len() <= k + 1,
    ensures
        d_le(bf_iter(m, s, k)[p.last() as int], Option::Some(walk_cost(m, p))),
    decreases k,
{
    lemma_bf_len(m, s, k);
    if p.len() == 1 {
        lemma_bf_source(m, s, k);
        assert(walk_cost(m, p) == 0);
    } else {
        let k0 = (k - 1) as nat;
        let prev = bf_iter(m, s, k0);
        lemma_bf_len(m, s, k0);
        let p0 = p.drop_last();
        assert(is_walk(m, p0)) by {
            assert forall|t: int| 0 <= t < p0.len() - 1 implies has_edge(
                m,
                (#[trigger] p0[t]) as int,
                p0[t + 1] as int,
            ) by {
                assert(p0[t] == p[t] && p0[t + 1] == p[t + 1]);
                assert(has_edge(m, p[t] as int, p[t + 1] as int));
            }
        }
        lemma_bf_le_walk(m, s, k0, p0);
        let x = p[p.len() - 2] as int;
        let v = p.last() as int;
        assert(has_edge(m, x, v));
        let w = choose|w: i64| #[trigger] adj_edge(m, x, v, w);
        lemma_edge_wt_unique(m, x, v, w);
        assert(adj_edge(m, v, x, w));
        let ke = choose|ke: int|
            0 <= ke < m.adj[v].len() && (#[trigger] m.adj[v][ke]).0 as int == x && m.adj[v][ke].1
                == w;
        lemma_relax_fold_props(prev, m.adj[v], prev[v]);
        assert(d_le(bf_iter(m, s, k)[v], d_add(prev[x], w as int)));
        assert(d_le(prev[x], Option::Some(walk_cost(m, p0))));
        assert(walk_cost(m, p) == walk_cost(m, p0) + w);
        assert(p0.last() as int == x);
    }
}

/// Every finite distance of round `k` is the cost of a real walk from the
/// source with fewer than `k + 2` vertices.
proof fn lemma_bf_achievable(m: GraphModel, s: int, k: nat, v: int, c: int)
    requires
        model_wf(m),
        m.labels.len() <= usize::MAX,
        0 <= s < m.labels.len(),
        0 <= v < m.labels.len(),
        bf_iter(m, s, k)[v] == Option::Some(c),
    ensures
        exists|p: Seq<usize>|
            #[trigger] is_walk(m, p) && p.first() as int == s && p.last() as int == v
                && walk_cost(m, p) == c && p.len() <= k + 1,
    decreases k,
{
    lemma_bf_len(m, s, k);
    if k == 0 {
        assert(v == s && c == 0);
        lemma_walk_single(m, s as usize);
        let p = seq![s as usize];
        assert(is_walk(m, p) && p.first() as int == s && p.last() as int == s && walk_cost(m, p)
            == 0 && p.len() <= 1);
    } else {
        let k0 = (k - 1) as nat;
        let prev = bf_iter(m, s, k0);
        lemma_bf_len(m, s, k0);
        lemma_relax_fold_props(prev, m.adj[v], prev[v]);
        let r = bf_iter(m, s, k)[v];
        assert(r == relax_fold(prev, m.adj[v], prev[v]));
        if r == prev[v] {
            lemma_bf_achievable(m, s, k0, v, c);
            let p = choose|p: Seq<usize>|
                #[trigger] is_walk(m, p) && p.first() as int == s && p.last() as int == v
                    && walk_cost(m, p) == c && p.len() <= k0 + 1;
            assert(is_walk(m, p) && p.len() <= k + 1);
        } else {
            let ke = choose|ke: int|
                0 <= ke < m.adj[v].len() && r == d_add(
                    prev[(#[trigger] m.adj[v][ke]).0 as int],
                    m.adj[v][ke].1 as int,
                );
            let u = m.adj[v][ke].0;
            let w = m.adj[v][ke].1;
            assert(u < m.labels.len()) by {
                assert(crate::graph::targets_below(m.adj[v], m.labels.len() as int));
            }
            let cu = c - w;
            assert(prev[u as int] == Option::Some(cu));
            lemma_bf_achievable(m, s, k0, u as int, cu);
            let p = choose|p: Seq<usize>|
                #[trigger] is_walk(m, p) && p.first() as int == s && p.last() as int == u as int
                    && walk_cost(m, p) == cu && p.len() <= k0 + 1;
            assert(adj_edge(m, v, u as int, w)) by {
                assert((#[trigger] m.adj[v][ke]).0 as int == u as int && m.adj[v][ke].1 == w);
            }
            assert(adj_edge(m, u as int, v, w));
            lemma_walk_extend(m, p, v as usize, w);
            let p2 = p.push(v as usize);
            assert(is_walk(m, p2) && p2.first() as int == s && p2.last() as int == v
                && walk_cost(m, p2) == c && p2.len() <= k + 1);
        }
    }
}

/// Once a round changes nothing, every later round returns the same
/// distances.
proof fn lemma_bf_fixpoint(m: GraphModel, s: int, k0: nat, k: nat)
    requires
        bf_iter(m, s, k0 + 1) == bf_iter(m, s, k0),
        k >= k0,
    ensures
        bf_iter(m, s, k) == bf_iter(m, s, k0),
    decreases k,
{
    if k > k0 {
        lemma_bf_fixpoint(m, s, k0, (k - 1) as nat);
        assert(bf_iter(m, s, k) == bf_round(m, bf_iter(m, s, (k - 1) as nat)));
        assert(bf_iter(m, s, k0 + 1) == bf_round(m, bf_iter(m, s, k0)));
    }
}

/// At a fixpoint the distances are a feasible labelling, so they bound
/// every walk from the source from below.
proof fn lemma_bf_feasible(m: GraphModel, s: int, k: nat)
    requires
        model_wf(m),
        0 <= s < m.labels.len(),
        bf_iter(m, s, k + 1) == bf_iter(m, s, k),
    ensures
        feasible(m, s, bf_iter(m, s, k)),
{
    let ds = bf_iter(m, s, k);
    lemma_bf_len(m, s, k);
    lemma_bf_source(m, s, k);
    assert forall|x: int, y: int, w: i64| #[trigger] adj_edge(m, x, y, w) implies d_le(
        ds[y],
        d_add(ds[x], w as int),
    ) by {
        assert(adj_edge(m, y, x, w));
        let ke = choose|ke: int|
            0 <= ke < m.adj[y].len() && (#[trigger] m.adj[y][ke]).0 as int == x && m.adj[y][ke].1
                == w;
        lemma_relax_fold_props(ds, m.adj[y], ds[y]);
        assert(bf_iter(m, s, k + 1)[y] == relax_fold(ds, m.adj[y], ds[y]));
        assert(d_le(relax_fold(ds, m.adj[y], ds[y]), d_add(ds[x], w as int)));
    }
}

/// Without the negative-cycle signal, the round-`|V| - 1` distances are
/// a feasible labelling (nothing can improve them), so they bound every
/// walk from the source from below.
pub proof fn lemma_bf_fix_feasible(m: GraphModel, s: int)
    requires
        model_wf(m),
        0 <= s < m.labels.len(),
        !bf_detects(m, s),
    ensures
        feasible(m, s, bf_iter(m, s, (m.labels.len() - 1) as nat)),
{
    let n = m.labels.len();
    assert(bf_iter(m, s, ((n - 1) + 1) as nat) == bf_iter(m, s, (n - 1) as nat));
    lemma_bf_feasible(m, s, (n - 1) as nat);
}

/// Without negative edges no round after `|V| - 1` can improve anything:
/// every walk shortens to one with at most `|V| - 1` edges at no extra
/// cost, so the recurrence is already at its fixpoint and the
/// negative-cycle signal cannot fire.
pub proof fn lemma_nonneg_no_cycle_signal(m: GraphModel, s: int)
    requires
        model_wf(m),
        crate::paths::no_neg_edge(m),
        0 <= s < m.labels.len(),
        m.labels.len() <= usize::MAX,
    ensures
        !bf_detects(m, s),
{
    let n = m.labels.len();
    let k1 = (n - 1) as nat;
    let kn = n as nat;
    lemma_bf_len(m, s, kn);
    lemma_bf_len(m, s, k1);
    assert forall|v: int| 0 <= v < n implies bf_iter(m, s, kn)[v] == bf_iter(m, s, k1)[v] by {
        let dn = bf_iter(m, s, kn)[v];
        let d1 = bf_iter(m, s, k1)[v];
        assert(d_le(dn, d1)) by {
            match d1 {
                Option::Some(c) => {
                    lemma_bf_achievable(m, s, k1, v, c);
                    let p = choose|p: Seq<usize>|
                        #[trigger] is_walk(m, p) && p.first() as int == s && p.last() as int == v
                            && walk_cost(m, p) == c && p.len() <= k1 + 1;
                    lemma_bf_le_walk(m, s, kn, p);
                },
                Option::None => {},
            }
        }
        assert(d_le(d1, dn)) by {
            match dn {
                Option::Some(c) => {
                    lemma_bf_achievable(m, s, kn, v, c);
                    let p = choose|p: Seq<usize>|
                        #[trigger] is_walk(m, p) && p.first() as int == s && p.last() as int == v
                            && walk_cost(m, p) == c && p.len() <= kn + 1;
                    crate::paths::lemma_walk_shorten(m, p);
                    let q = choose|q: Seq<usize>|
                        #[trigger] is_walk(m, q) && q.first() == p.first() && q.last() == p.last()
                            && walk_cost(m, q) <= walk_cost(m, p) && q.len() <= m.labels.len();
                    lemma_bf_le_walk(m, s, k1, q);
                    assert(d_le(d1, Option::Some(walk_cost(m, q))));
                },
                Option::None => {},
            }
        }
        match (dn, d1) {
            (Option::Some(a), Option::Some(b)) => {
                assert(a == b);
            },
            _ => {},
        }
    }
    assert(bf_iter(m, s, kn) =~= bf_iter(m, s, k1));
}

/// The negative-cycle signal is sound: when a round after `|V| - 1` still
/// improves a distance, the improving walk is too long to be simple, and
/// the loop it closes must cost less than nothing -- a negative cycle the
/// source reaches.
#[verifier::rlimit(100)]
pub proof fn lemma_cycle_signal_sound(m: GraphModel, s: int)
    requires
        model_wf(m),
        0 <= s < m.labels.len(),
        m.labels.len() <= usize::MAX,
        bf_detects(m, s),
    ensures
        exists|cyc: Seq<usize>|
            #[trigger] is_walk(m, cyc) && cyc.first() == cyc.last() && walk_cost(m, cyc) < 0
                && connects(m, s, cyc.first() as int),
{
    let n = m.labels.len();
    let k1 = (n - 1) as nat;
    let kn = n as nat;
    lemma_bf_len(m, s, kn);
    lemma_bf_len(m, s, k1);
    let v = choose|v: int| 0 <= v < n && bf_iter(m, s, kn)[v] != bf_iter(m, s, k1)[v];
    assert(0 <= v < n && bf_iter(m, s, kn)[v] != bf_iter(m, s, k1)[v]) by {
        if forall|v2: int|
            0 <= v2 < n ==> bf_iter(m, s, kn)[v2] == #[trigger] bf_iter(m, s, k1)[v2] {
            assert(bf_iter(m, s, kn) =~= bf_iter(m, s, k1));
            assert(false);
        }
    }
    let dn = bf_iter(m, s, kn)[v];
    let d1 = bf_iter(m, s, k1)[v];
    assert(d_le(dn, d1)) by {
        match d1 {
            Option::Some(c) => {
                lemma_bf_achievable(m, s, k1, v, c);
                let p = choose|p: Seq<usize>|
                    #[trigger] is_walk(m, p) && p.first() as int == s && p.last() as int == v
                        && walk_cost(m, p) == c && p.len() <= k1 + 1;
                lemma_bf_le_walk(m, s, kn, p);
            },
            Option::None => {},
        }
    }
    let c = dn->Some_0;
    assert(dn == Option::<int>::Some(c));
    lemma_bf_achievable(m, s, kn, v, c);
    let p = choose|p: Seq<usize>|
        #[trigger] is_walk(m, p) && p.first() as int == s && p.last() as int == v && walk_cost(
            m,
            p,
        ) == c && p.len() <= kn + 1;
    if p.len() <= n {
        lemma_bf_le_walk(m, s, k1, p);
        assert(false);
    }
    assert(p.len() == n + 1);
    crate::paths::lemma_walk_repeats(p, n as int);
    let (i, j) = choose|i: int, j: int| 0 <= i < j < p.len() && #[trigger] p[i] == #[trigger] p[j];
    crate::paths::lemma_cut_loop(m, p, i, j);
    let q = p.subrange(0, i + 1) + p.subrange(j, p.len() as int).drop_first();
    let cyc = p.subrange(i, j + 1);
    assert(q.len() <= n);
    lemma_bf_le_walk(m, s, k1, q);
    assert(d_le(d1, Option::Some(walk_cost(m, q))));
    assert(walk_cost(m, cyc) < 0) by {
        if walk_cost(m, cyc) >= 0 {
            assert(walk_cost(m, q) <= c);
            assert(d_le(d1, Option::Some(c)));
            match (dn, d1) {
                (Option::Some(a), Option::Some(b)) => {
                    assert(a == b);
                },
                _ => {},
            }
            assert(false);
        }
    }
    assert(cyc.first() == cyc.last());
    crate::paths::lemma_subwalk(m, p, 0, i + 1);
    assert(is_walk(m, p.subrange(0, i + 1)) && p.subrange(0, i + 1).first() as int == s
        && p.subrange(0, i + 1).last() == cyc.first());
    assert(connects(m, s, cyc.first() as int));
}

/// A distance as the specification sees it.
pub open spec fn abs_d(d: Option<i128>) -> Option<int> {
    match d {
        Option::Some(x) => Option::Some(x as int),
        Option::None => Option::None,
    }
}

/// A distance row as the specification sees it.
pub open spec fn abs_dists(ds: Seq<Option<i128>>) -> Seq<Option<int>> {
    Seq::new(ds.len(), |v: int| abs_d(ds[v]))
}

/// One tentative distance together with its witness walk.
pub open spec fn wit_at(
    m: GraphModel,
    s: int,
    d: Option<i128>,
    po: Option<Vec<usize>>,
    v: int,
    maxlen: int,
) -> bool {
    match po {
        Option::Some(p) => match d {
            Option::Some(c) => is_walk(m, p@) && p@.first() as int == s && p@.last() as int == v
                && walk_cost(m, p@) == c as int && p@.len() <= maxlen,
            Option::None => false,
        },
        Option::None => d is None,
    }
}

/// Every tentative distance is the cost of a recorded walk from the source
/// of at most `maxlen` vertices.
pub open spec fn witness_ok(
    m: GraphModel,
    s: int,
    ds: Seq<Option<i128>>,
    ps: Seq<Option<Vec<usize>>>,
    maxlen: int,
) -> bool {
    &&& ds.len() == m.labels.len()
    &&& ps.len() == m.labels.len()
    &&& forall|v: int| 0 <= v < ds.len() ==> wit_at(m, s, ds[v], #[trigger] ps[v], v, maxlen)
}

/// A witnessed distance is bounded by the walk-cost bound, so sums with one
/// more edge weight stay inside `i128`.
proof fn lemma_wit_bound(m: GraphModel, s: int, d: Option<i128>, po: Option<Vec<usize>>, v: int, maxlen: int)
    requires
        model_wf(m),
        wit_at(m, s, d, po, v, maxlen),
        d is Some,
        1 <= maxlen,
    ensures
        -(maxlen - 1) * 0x8000_0000_0000_0000 <= (d->Some_0 as int)
            <= (maxlen - 1) * 0x8000_0000_0000_0000,
{
    let p = po->Some_0;
    lemma_walk_cost_bound(m, p@);
    assert(p@.len() - 1 <= maxlen - 1);
    assert((p@.len() - 1) * 0x8000_0000_0000_0000 <= (maxlen - 1) * 0x8000_0000_0000_0000)
        by (nonlinear_arith)
        requires 0 <= p@.len() - 1 <= maxlen - 1,
    ;
    assert(-(maxlen - 1) * 0x8000_0000_0000_0000 <= -(p@.len() - 1) * 0x8000_0000_0000_0000)
        by (nonlinear_arith)
        requires 0 <= p@.len() - 1 <= maxlen - 1,
    ;
}

/// Copies a walk.
fn copy_walk(p: &Vec<usize>) -> (r: Vec<usize>)
    ensures
        r@ == p@,
{
    let n = p.len();
    let mut r: Vec<usize> = Vec::new();
    let mut i: usize = 0;
    while i < n
        invariant
            n == p@.len(),
            i <= n,
            r@ == p@.subrange(0, i as int),
        decreases n - i,
    {
        r.push(p[i]);
        proof {
            assert(r@ =~= p@.subrange(0, i as int + 1));
        }
        i = i + 1;
    }
    proof {
        assert(p@.subrange(0, n as int) =~= p@);
    }
    r
}

/// Whether two stored distances are the same.
fn same_dist(a: &Option<i128>, b: &Option<i128>) -> (r: bool)
    ensures
        r == (abs_d(*a) == abs_d(*b)),
{
    match (a, b) {
        (Option::Some(x), Option::Some(y)) => *x == *y,
        (Option::None, Option::None) => true,
        _ => false,
    }
}

/// One executable Bellman-Ford round: relaxes every adjacency entry against
/// a snapshot of the previous distances and records the improved witness
/// walks.  Reports whether any distance changed.
fn bf_round_exec(
    g: &Graph,
    dist: &Vec<Option<i128>>,
    path: &Vec<Option<Vec<usize>>>,
    Ghost(s): Ghost<int>,
    Ghost(maxlen): Ghost<int>,
) -> (out: (Vec<Option<i128>>, Vec<Option<Vec<usize>>>, bool))
    requires
        g.wf(),
        0 <= s < g@.labels.len(),
        witness_ok(g@, s, dist@, path@, maxlen),
        1 <= maxlen <= g@.labels.len(),
    ensures
        abs_dists(out.0@) == bf_round(g@, abs_dists(dist@)),
        witness_ok(g@, s, out.0@, out.1@, maxlen + 1),
        out.2 == (abs_dists(out.0@) != abs_dists(dist@)),
{
    let ghost m = g@;
    let ghost prev = abs_dists(dist@);
    let n = g.size();
    let mut nd: Vec<Option<i128>> = Vec::new();
    let mut np: Vec<Option<Vec<usize>>> = Vec::new();
    let mut changed = false;
    let mut v: usize = 0;
    while v < n
        invariant
            g.wf(),
            m == g@,
            prev == abs_dists(dist@),
            n == m.labels.len(),
            0 <= s < n,
            witness_ok(m, s, dist@, path@, maxlen),
            1 <= maxlen <= n,
            v <= n,
            nd@.len() == v,
            np@.len() == v,
            forall|t: int| 0 <= t < v ==> abs_d(#[trigger] nd@[t]) == bf_step(m, prev, t),
            forall|t: int| 0 <= t < v ==> wit_at(m, s, nd@[t], #[trigger] np@[t], t, maxlen + 1),
            changed == exists|t: int| 0 <= t < v && abs_d(#[trigger] nd@[t]) != prev[t],
        decreases n - v,
    {
        let lst = g.adj_at(v);
        let nl = lst.len();
        let mut acc: Option<i128> = dist[v];
        let mut accp: Option<Vec<usize>> = match &path[v] {
            Option::Some(p) => Option::Some(copy_walk(p)),
            Option::None => Option::None,
        };
        let mut k: usize = 0;
        proof {
            assert(m.adj[v as int].subrange(0, 0) =~= Seq::<(usize, i64)>::empty());
        }
        while k < nl
            invariant
                g.wf(),
                m == g@,
                prev == abs_dists(dist@),
                n == m.labels.len(),
                0 <= s < n,
                witness_ok(m, s, dist@, path@, maxlen),
                1 <= maxlen <= n,
                v < n,
                lst@ == m.adj[v as int],
                nl == lst@.len(),
                k <= nl,
                abs_d(acc) == relax_fold(prev, m.adj[v as int].subrange(0, k as int), prev[v as int]),
                wit_at(m, s, acc, accp, v as int, maxlen + 1),
            decreases nl - k,
        {
            let (u, w) = lst[k];
            proof {
                assert(crate::graph::targets_below(m.adj[v as int], n as int));
                assert(m.adj[v as int][k as int].0 < n);
                assert(m.adj[v as int].subrange(0, k as int + 1).drop_last()
                    =~= m.adj[v as int].subrange(0, k as int));
                assert(m.adj[v as int].subrange(0, k as int + 1).last() == m.adj[v as int][k as int]);
            }
            match dist[u] {
                Option::Some(du) => {
                    proof {
                        assert(wit_at(m, s, dist@[u as int], path@[u as int], u as int, maxlen));
                        lemma_wit_bound(m, s, dist@[u as int], path@[u as int], u as int, maxlen);
                        assert((maxlen - 1) * 0x8000_0000_0000_0000 + 0x8000_0000_0000_0000
                            <= 0xffff_ffff_ffff_ffff * 0x8000_0000_0000_0000);
                    }
                    let cand: i128 = du + (w as i128);
                    let better = match acc {
                        Option::Some(a) => cand < a,
                        Option::None => true,
                    };
                    if better {
                        acc = Some(cand);
                        let pu = match &path[u] {
                            Option::Some(p) => copy_walk(p),
                            Option::None => {
                                proof {
                                    assert(false);
                                }
                                Vec::new()
                            },
                        };
                        let mut p2 = pu;
                        p2.push(v);
                        proof {
                            let ghost pw = path@[u as int]->Some_0;
                            assert(p2@ == pw@.push(v));
                            assert(adj_edge(m, v as int, u as int, w)) by {
                                assert((#[trigger] m.adj[v as int][k as int]).0 as int == u as int
                                    && m.adj[v as int][k as int].1 == w);
                            }
                            assert(adj_edge(m, u as int, v as int, w));
                            assert(pw@.last() as int == u as int);
                            lemma_walk_extend(m, pw@, v, w);
                        }
                        accp = Some(p2);
                    }
                    proof {
                        assert(abs_d(acc) == d_min(
                            relax_fold(prev, m.adj[v as int].subrange(0, k as int), prev[v as int]),
                            d_add(prev[u as int], w as int),
                        ));
                    }
                },
                Option::None => {
                    proof {
                        assert(abs_d(dist@[u as int]) == Option::<int>::None);
                        assert(d_add(prev[u as int], w as int) == Option::<int>::None);
                    }
                },
            }
            k = k + 1;
        }
        proof {
            assert(m.adj[v as int].subrange(0, nl as int) =~= m.adj[v as int]);
            assert(abs_d(acc) == bf_step(m, prev, v as int));
        }
        let differs = !same_dist(&acc, &dist[v]);
        let ghost was = changed;
        let ghost nd_old = nd@;
        if differs {
            changed = true;
        }
        nd.push(acc);
        np.push(accp);
        v = v + 1;
        proof {
            let vi = v as int;
            assert(forall|t: int| 0 <= t < vi - 1 ==> nd@[t] == nd_old[t]);
            assert(nd@[vi - 1] == acc);
            assert(prev[vi - 1] == abs_d(dist@[vi - 1]));
            if was {
                let t = choose|t: int| 0 <= t < vi - 1 && abs_d(#[trigger] nd_old[t]) != prev[t];
                assert(abs_d(nd@[t]) != prev[t]);
            } else if differs {
                assert(abs_d(#[trigger] nd@[vi - 1]) != prev[vi - 1]);
            } else {
                assert forall|t: int| 0 <= t < vi implies abs_d(#[trigger] nd@[t]) == prev[t] by {
                    if t < vi - 1 {
                        assert(abs_d(nd_old[t]) == prev[t]);
                    }
                }
            }
        }
    }
    proof {
        assert(abs_dists(nd@) =~= bf_round(m, prev));
        if changed {
            let t = choose|t: int| 0 <= t < n && abs_d(#[trigger] nd@[t]) != prev[t];
            assert(abs_dists(nd@)[t] != prev[t]);
            assert(abs_dists(nd@) != abs_dists(dist@));
        } else {
            assert(abs_dists(nd@) =~= abs_dists(dist@));
        }
    }
    (nd, np, changed)
}

/// Runs `|V| - 1` Bellman-Ford rounds (stopping early at a fixpoint) and
/// one further round: the distances of round `|V| - 1`, their witness
/// walks, and whether a further round would still improve something.
fn bf_engine(g: &Graph, sv: usize) -> (out: (Vec<Option<i128>>, Vec<Option<Vec<usize>>>, bool))
    requires
        g.wf(),
        (sv as int) < g@.labels.len(),
    ensures
        abs_dists(out.0@) == bf_iter(g@, sv as int, (g@.labels.len() - 1) as nat),
        witness_ok(g@, sv as int, out.0@, out.1@, g@.labels.len() as int),
        out.2 == bf_detects(g@, sv as int),
{
    let ghost m = g@;
    let ghost s = sv as int;
    let n = g.size();
    let mut dist: Vec<Option<i128>> = Vec::new();
    let mut path: Vec<Option<Vec<usize>>> = Vec::new();
    let mut v: usize = 0;
    while v < n
        invariant
            g.wf(),
            m == g@,
            s == sv as int,
            0 <= s < n,
            n == m.labels.len(),
            v <= n,
            dist@.len() == v,
            path@.len() == v,
            forall|t: int| 0 <= t < v ==> abs_d(#[trigger] dist@[t]) == bf_init(m, s)[t],
            forall|t: int| 0 <= t < v ==> wit_at(m, s, dist@[t], #[trigger] path@[t], t, 1),
        decreases n - v,
    {
        if v == sv {
            dist.push(Some(0));
            let mut p0: Vec<usize> = Vec::new();
            p0.push(sv);
            proof {
                lemma_walk_single(m, sv);
                assert(p0@ =~= seq![sv]);
            }
            path.push(Some(p0));
        } else {
            dist.push(None);
            path.push(None);
        }
        v = v + 1;
    }
    proof {
        assert(abs_dists(dist@) =~= bf_init(m, s));
        assert(bf_iter(m, s, 0) == bf_init(m, s));
    }
    let mut rounds: usize = 0;
    let mut stable = false;
    while !stable && rounds < n - 1
        invariant
            g.wf(),
            m == g@,
            s == sv as int,
            0 <= s < n,
            n == m.labels.len(),
            rounds <= n - 1,
            abs_dists(dist@) == bf_iter(m, s, rounds as nat),
            witness_ok(m, s, dist@, path@, rounds as int + 1),
            stable ==> bf_iter(m, s, rounds as nat + 1) == bf_iter(m, s, rounds as nat),
        decreases n - rounds + if stable { 0int } else { 1int },
    {
        let (nd, np, changed) = bf_round_exec(g, &dist, &path, Ghost(s), Ghost(rounds as int + 1));
        proof {
            assert(bf_iter(m, s, rounds as nat + 1) == bf_round(m, bf_iter(m, s, rounds as nat)));
        }
        if changed {
            dist = nd;
            path = np;
            rounds = rounds + 1;
        } else {
            proof {
                assert(abs_dists(nd@) == abs_dists(dist@));
            }
            stable = true;
        }
    }
    let ghost kfin = rounds as nat;
    proof {
        if stable {
            lemma_bf_fixpoint(m, s, kfin, (n - 1) as nat);
            lemma_bf_fixpoint(m, s, kfin, n as nat);
            assert(abs_dists(dist@) == bf_iter(m, s, (n - 1) as nat));
            assert(!bf_detects(m, s));
        } else {
            assert(rounds == n - 1);
        }
    }
    let neg = if stable {
        false
    } else {
        let (_nd2, _np2, changed2) = bf_round_exec(g, &dist, &path, Ghost(s), Ghost(n as int));
        proof {
            assert(bf_iter(m, s, n as nat) == bf_round(m, bf_iter(m, s, (n - 1) as nat)));
            assert(abs_dists(_nd2@) == bf_iter(m, s, n as nat));
            if changed2 {
                assert(bf_detects(m, s));
            } else {
                assert(bf_iter(m, s, n as nat) == bf_iter(m, s, (n - 1) as nat));
            }
        }
        changed2
    };
    proof {
        assert(witness_ok(m, s, dist@, path@, n as int)) by {
            assert forall|t: int| 0 <= t < dist@.len() implies wit_at(
                m,
                s,
                dist@[t],
                #[trigger] path@[t],
                t,
                n as int,
            ) by {
                assert(wit_at(m, s, dist@[t], path@[t], t, rounds as int + 1));
            }
        }
    }
    (dist, path, neg)
}

/// Checks that no edge can still improve the given distances (the
/// certificate that makes them provably optimal).
fn check_feasible(
    g: &Graph,
    dist: &Vec<Option<i128>>,
    Ghost(s): Ghost<int>,
    Ghost(ps): Ghost<Seq<Option<Vec<usize>>>>,
) -> (r: bool)
    requires
        g.wf(),
        0 <= s < g@.labels.len(),
        witness_ok(g@, s, dist@, ps, g@.labels.len() as int + 1),
    ensures
        r == (forall|x: int, y: int, w: i64|
            #[trigger] adj_edge(g@, x, y, w) ==> d_le(
                abs_d(dist@[y]),
                d_add(abs_d(dist@[x]), w as int),
            )),
{
    let ghost m = g@;
    let n = g.size();
    let mut i: usize = 0;
    while i < n
        invariant
            g.wf(),
            m == g@,
            n == m.labels.len(),
            0 <= s < n,
            witness_ok(m, s, dist@, ps, n as int + 1),
            i <= n,
            forall|x: int, y: int, w: i64|
                #[trigger] adj_edge(m, x, y, w) && edge_done(m, i as int, 0, x, y, w) ==> d_le(
                    abs_d(dist@[y]),
                    d_add(abs_d(dist@[x]), w as int),
                ),
        decreases n - i,
    {
        match dist[i] {
            Option::None => {
                proof {
                    assert forall|x: int, y: int, w: i64|
                        #[trigger] adj_edge(m, x, y, w) && edge_done(m, i as int + 1, 0, x, y, w)
                            implies d_le(abs_d(dist@[y]), d_add(abs_d(dist@[x]), w as int)) by {
                        if !edge_done(m, i as int, 0, x, y, w) {
                            assert(x == i as int);
                            assert(d_add(abs_d(dist@[x]), w as int) is None);
                        }
                    }
                }
            },
            Option::Some(di) => {
                let lst = g.adj_at(i);
                let nl = lst.len();
                let mut k: usize = 0;
                while k < nl
                    invariant
                        g.wf(),
                        m == g@,
                        n == m.labels.len(),
                        0 <= s < n,
                        witness_ok(m, s, dist@, ps, n as int + 1),
                        i < n,
                        lst@ == m.adj[i as int],
                        nl == lst@.len(),
                        k <= nl,
                        dist@[i as int] == Option::Some(di),
                        forall|x: int, y: int, w: i64|
                            #[trigger] adj_edge(m, x, y, w) && edge_done(m, i as int, k as int, x, y, w)
                                ==> d_le(abs_d(dist@[y]), d_add(abs_d(dist@[x]), w as int)),
                    decreases nl - k,
                {
                    let (j, w) = lst[k];
                    proof {
                        assert(crate::graph::targets_below(m.adj[i as int], n as int));
                        assert(m.adj[i as int][k as int].0 < n);
                        assert(wit_at(m, s, dist@[i as int], ps[i as int], i as int, n as int + 1));
                        lemma_wit_bound(m, s, dist@[i as int], ps[i as int], i as int, n as int + 1);
                        assert(n * 0x8000_0000_0000_0000
                            <= 0xffff_ffff_ffff_ffff * 0x8000_0000_0000_0000);
                    }
                    let cand: i128 = di + (w as i128);
                    let ok = match dist[j] {
                        Option::Some(dj) => dj <= cand,
                        Option::None => false,
                    };
                    if !ok {
                        proof {
                            assert(adj_edge(m, i as int, j as int, w)) by {
                                assert((#[trigger] m.adj[i as int][k as int]).0 as int == j as int
                                    && m.adj[i as int][k as int].1 == w);
                            }
                            assert(!d_le(abs_d(dist@[j as int]), d_add(abs_d(dist@[i as int]), w as int)));
                        }
                        return false;
                    }
                    proof {
                        assert forall|x: int, y: int, w2: i64|
                            #[trigger] adj_edge(m, x, y, w2) && edge_done(m, i as int, k as int + 1, x, y, w2)
                                implies d_le(abs_d(dist@[y]), d_add(abs_d(dist@[x]), w2 as int)) by {
                            if !edge_done(m, i as int, k as int, x, y, w2) {
                                assert(x == i as int);
                                let ke = choose|ke: int|
                                    0 <= ke < k as int + 1 && (#[trigger] m.adj[x][ke]).0 as int == y
                                        && m.adj[x][ke].1 == w2;
                                assert(ke == k as int) by {
                                    if ke < k as int {
                                        assert(edge_done(m, i as int, k as int, x, y, w2));
                                    }
                                }
                                assert(y == j as int && w2 == w);
                            }
                        }
                    }
                    k = k + 1;
                }
                proof {
                    assert forall|x: int, y: int, w: i64|
                        #[trigger] adj_edge(m, x, y, w) && edge_done(m, i as int + 1, 0, x, y, w)
                            implies d_le(abs_d(dist@[y]), d_add(abs_d(dist@[x]), w as int)) by {
                        if !edge_done(m, i as int, nl as int, x, y, w) {
                            assert(x == i as int);
                            let ke = choose|ke: int|
                                0 <= ke < m.adj[x].len() && (#[trigger] m.adj[x][ke]).0 as int == y
                                    && m.adj[x][ke].1 == w;
                            assert(edge_done(m, i as int, nl as int, x, y, w));
                        }
                    }
                }
            },
        }
        i = i + 1;
    }
    proof {
        assert forall|x: int, y: int, w: i64| #[trigger] adj_edge(m, x, y, w) implies d_le(
            abs_d(dist@[y]),
            d_add(abs_d(dist@[x]), w as int),
        ) by {
            assert(edge_done(m, n as int, 0, x, y, w));
        }
    }
    true
}

/// A witness bound only grows weaker.
proof fn lemma_witness_widen(
    m: GraphModel,
    s: int,
    ds: Seq<Option<i128>>,
    ps: Seq<Option<Vec<usize>>>,
    a: int,
    b: int,
)
    requires
        witness_ok(m, s, ds, ps, a),
        a <= b,
    ensures
        witness_ok(m, s, ds, ps, b),
{
    assert forall|v: int| 0 <= v < ds.len() implies wit_at(m, s, ds[v], #[trigger] ps[v], v, b) by {
        assert(wit_at(m, s, ds[v], ps[v], v, a));
    }
}

/// The `Found` answer is right: the reported path is a real walk between
/// the endpoints with the reported cost, and no walk between them costs
/// less.
pub open spec fn optimal_found(m: GraphModel, s: int, t: int, p: Seq<u64>, c: int) -> bool {
    &&& exists|q: Seq<usize>|
        #[trigger] is_walk(m, q) && q.first() as int == s && q.last() as int == t && walk_cost(
            m,
            q,
        ) == c && p == q.map_values(|i: usize| m.labels[i as int])
    &&& forall|q: Seq<usize>|
        #[trigger] is_walk(m, q) && q.first() as int == s && q.last() as int == t ==> walk_cost(
            m,
            q,
        ) >= c
}

/// Contract of the Bellman-Ford query: missing endpoints are rejected, the
/// negative-cycle signal is exactly the recurrence's signal, and
/// otherwise a cheapest path is returned exactly when the endpoints are
/// connected.
pub open spec fn bf_query_post(m: GraphModel, a: u64, b: u64, r: PathResult) -> bool {
    if !has_label(m, a) || !has_label(m, b) {
        r is NotFound
    } else {
        let s = lbl_idx(m, a);
        let t = lbl_idx(m, b);
        &&& (r is NegativeCycle) <==> bf_detects(m, s)
        &&& (r is Found) <==> (!bf_detects(m, s) && connects(m, s, t))
        &&& (r is Unreachable) <==> (!bf_detects(m, s) && !connects(m, s, t))
        &&& match r {
            PathResult::Found(p, c) => optimal_found(m, s, t, p@, c as int),
            _ => true,
        }
    }
}

/// Turns certified-optimal distances into the query answer for target
/// `tv`: the witness walk (as labels) with its cost, or `Unreachable`.
fn conclude(
    g: &Graph,
    sv: usize,
    tv: usize,
    dist: &Vec<Option<i128>>,
    path: &Vec<Option<Vec<usize>>>,
) -> (r: PathResult)
    requires
        g.wf(),
        (sv as int) < g@.labels.len(),
        (tv as int) < g@.labels.len(),
        witness_ok(g@, sv as int, dist@, path@, g@.labels.len() as int + 1),
        feasible(g@, sv as int, abs_dists(dist@)),
    ensures
        (r is Found) <==> connects(g@, sv as int, tv as int),
        (r is Unreachable) <==> !connects(g@, sv as int, tv as int),
        match r {
            PathResult::Found(p, c) => optimal_found(g@, sv as int, tv as int, p@, c as int),
            _ => true,
        },
{
    let ghost m = g@;
    let ghost s = sv as int;
    proof {
        assert(wit_at(m, s, dist@[tv as int], path@[tv as int], tv as int, m.labels.len() as int + 1));
    }
    match &path[tv] {
        Option::Some(p) => {
            let c: i128 = match dist[tv] {
                Option::Some(c) => c,
                Option::None => {
                    proof {
                        assert(false);
                    }
                    0
                },
            };
            let np = p.len();
            let mut out: Vec<u64> = Vec::new();
            let mut k: usize = 0;
            while k < np
                invariant
                    g.wf(),
                    m == g@,
                    np == p@.len(),
                    is_walk(m, p@),
                    k <= np,
                    out@.len() == k,
                    forall|t: int|
                        0 <= t < k ==> #[trigger] out@[t] == m.labels[p@[t] as int],
                decreases np - k,
            {
                proof {
                    assert(p@[k as int] < m.labels.len());
                }
                out.push(g.label_at(p[k]));
                k = k + 1;
            }
            proof {
                let q = p@;
                assert(out@ =~= q.map_values(|i: usize| m.labels[i as int]));
                assert(is_walk(m, q) && q.first() as int == s && q.last() as int == tv as int
                    && walk_cost(m, q) == c as int);
                assert forall|q2: Seq<usize>|
                    #[trigger] is_walk(m, q2) && q2.first() as int == s && q2.last() as int
                        == tv as int implies walk_cost(m, q2) >= c as int by {
                    lemma_feasible_lower_bound(m, s, abs_dists(dist@), q2);
                    assert(abs_dists(dist@)[tv as int] == Option::Some(c as int));
                }
                assert(connects(m, s, tv as int));
            }
            PathResult::Found(out, c)
        },
        Option::None => {
            proof {
                assert(!connects(m, s, tv as int)) by {
                    if connects(m, s, tv as int) {
                        let q = choose|q: Seq<usize>|
                            #[trigger] is_walk(m, q) && q.first() as int == s && q.last() as int
                                == tv as int;
                        lemma_feasible_lower_bound(m, s, abs_dists(dist@), q);
                        assert(abs_dists(dist@)[tv as int] is None);
                        assert(!d_le(Option::None, Option::Some(walk_cost(m, q))));
                    }
                }
            }
            PathResult::Unreachable
        },
    }
}

impl Graph {
    /// Cheapest path by Bellman-Ford: `|V| - 1` relaxation rounds over
    /// snapshots with early exit, then one further round that reports a
    /// reachable negative cycle instead of a path.
    pub fn get_shortest_path_bellman_ford(&self, start_vertex: u64, end_vertex: u64) -> (r:
        PathResult)
        requires
            self.wf(),
        ensures
            bf_query_post(self@, start_vertex, end_vertex, r),
    {
        let ghost m = self@;
        let sv = match self.index_of(start_vertex) {
            Option::Some(i) => i,
            Option::None => {
                return PathResult::NotFound;
            },
        };
        let tv = match self.index_of(end_vertex) {
            Option::Some(i) => i,
            Option::None => {
                return PathResult::NotFound;
            },
        };
        proof {
            crate::graph::lemma_lbl_idx_unique(m, start_vertex, sv as int);
            crate::graph::lemma_lbl_idx_unique(m, end_vertex, tv as int);
        }
        let (dist, path, neg) = bf_engine(self, sv);
        if neg {
            return PathResult::NegativeCycle;
        }
        proof {
            let n = m.labels.len();
            assert(bf_iter(m, sv as int, ((n - 1) + 1) as nat) == bf_iter(m, sv as int, (n - 1) as nat));
            lemma_bf_feasible(m, sv as int, (n - 1) as nat);
            assert(feasible(m, sv as int, abs_dists(dist@)));
            lemma_witness_widen(m, sv as int, dist@, path@, n as int, n as int + 1);
        }
        conclude(self, sv, tv, &dist, &path)
    }
}

/// A cost-to-go estimate for A*: any function from a pair of vertex
/// labels to a non-negative estimate.  The estimate only steers the order
/// in which the frontier is expanded; the answer's correctness never
/// depends on it.
pub trait Heuristic {
    /// Estimated remaining cost from `from_vertex` to `to_vertex`.
    fn estimate(&self, from_vertex: u64, to_vertex: u64) -> u64;
}

/// The all-zero estimate, under which A* expands exactly as Dijkstra.
pub struct ZeroHeuristic;

impl Heuristic for ZeroHeuristic {
    fn estimate(&self, _from_vertex: u64, _to_vertex: u64) -> u64 {
        0
    }
}

/// Scans for an edge with a negative weight.
fn scan_negative_edge(g: &Graph) -> (r: bool)
    requires
        g.wf(),
    ensures
        r == !crate::paths::no_neg_edge(g@),
{
    let ghost m = g@;
    let n = g.size();
    let mut i: usize = 0;
    while i < n
        invariant
            g.wf(),
            m == g@,
            n == m.labels.len(),
            i <= n,
            forall|x: int, y: int, w: i64|
                #[trigger] adj_edge(m, x, y, w) && edge_done(m, i as int, 0, x, y, w) ==> w >= 0,
        decreases n - i,
    {
        let lst = g.adj_at(i);
        let nl = lst.len();
        let mut k: usize = 0;
        while k < nl
            invariant
                g.wf(),
                m == g@,
                n == m.labels.len(),
                i < n,
                lst@ == m.adj[i as int],
                nl == lst@.len(),
                k <= nl,
                forall|x: int, y: int, w: i64|
                    #[trigger] adj_edge(m, x, y, w) && edge_done(m, i as int, k as int, x, y, w)
                        ==> w >= 0,
            decreases nl - k,
        {
            let (j, w) = lst[k];
            if w < 0 {
                proof {
                    assert(crate::graph::targets_below(m.adj[i as int], n as int));
                    assert(adj_edge(m, i as int, j as int, w)) by {
                        assert((#[trigger] m.adj[i as int][k as int]).0 as int == j as int
                            && m.adj[i as int][k as int].1 == w);
                    }
                }
                return true;
            }
            proof {
                assert forall|x: int, y: int, w2: i64|
                    #[trigger] adj_edge(m, x, y, w2) && edge_done(m, i as int, k as int + 1, x, y, w2)
                        implies w2 >= 0 by {
                    if !edge_done(m, i as int, k as int, x, y, w2) {
                        assert(x == i as int);
                        let ke = choose|ke: int|
                            0 <= ke < k as int + 1 && (#[trigger] m.adj[x][ke]).0 as int == y
                                && m.adj[x][ke].1 == w2;
                        assert(ke == k as int) by {
                            if ke < k as int {
                                assert(edge_done(m, i as int, k as int, x, y, w2));
                            }
                        }
                    }
                }
            }
            k = k + 1;
        }
        proof {
            assert forall|x: int, y: int, w: i64|
                #[trigger] adj_edge(m, x, y, w) && edge_done(m, i as int + 1, 0, x, y, w)
                    implies w >= 0 by {
                if !edge_done(m, i as int, nl as int, x, y, w) {
                    assert(x == i as int);
                    let ke = choose|ke: int|
                        0 <= ke < m.adj[x].len() && (#[trigger] m.adj[x][ke]).0 as int == y
                            && m.adj[x][ke].1 == w;
                    assert(edge_done(m, i as int, nl as int, x, y, w));
                }
            }
        }
        i = i + 1;
    }
    proof {
        assert forall|x: int, y: int, w: i64| #[trigger] adj_edge(m, x, y, w) implies w >= 0 by {
            assert(edge_done(m, n as int, 0, x, y, w));
        }
    }
    false
}

/// Priority-queue search from `sv` with heuristic bias: expands each
/// vertex once in priority order and relaxes its edges, recording witness
/// walks.  Run to exhaustion, the recorded distances are the search's
/// claim; `check_feasible` then certifies them.
fn heuristic_search<H: Heuristic>(g: &Graph, sv: usize, to_label: u64, h: &H) -> (out: (
    Vec<Option<i128>>,
    Vec<Option<Vec<usize>>>,
))
    requires
        g.wf(),
        (sv as int) < g@.labels.len(),
        crate::paths::no_neg_edge(g@),
    ensures
        witness_ok(g@, sv as int, out.0@, out.1@, g@.labels.len() as int + 1),
        abs_d(out.0@[sv as int]) == Option::<int>::Some(0),
{
    let ghost m = g@;
    let ghost s = sv as int;
    let n = g.size();
    let mut dist: Vec<Option<i128>> = Vec::new();
    let mut path: Vec<Option<Vec<usize>>> = Vec::new();
    let mut visited: Vec<bool> = Vec::new();
    let mut v: usize = 0;
    while v < n
        invariant
            g.wf(),
            m == g@,
            s == sv as int,
            0 <= s < n,
            n == m.labels.len(),
            v <= n,
            dist@.len() == v,
            path@.len() == v,
            visited@.len() == v,
            forall|t: int| 0 <= t < v ==> !(#[trigger] visited@[t]),
            v > sv ==> abs_d(dist@[s]) == Option::<int>::Some(0),
            forall|t: int| 0 <= t < v ==> wit_at(m, s, dist@[t], #[trigger] path@[t], t, 1),
        decreases n - v,
    {
        if v == sv {
            dist.push(Some(0));
            let mut p0: Vec<usize> = Vec::new();
            p0.push(sv);
            proof {
                lemma_walk_single(m, sv);
                assert(p0@ =~= seq![sv]);
            }
            path.push(Some(p0));
        } else {
            dist.push(None);
            path.push(None);
        }
        visited.push(false);
        v = v + 1;
    }
    let mut vcount: usize = 0;
    proof {
        crate::counting::lemma_count_trues_agree(
            visited@,
            Seq::new(n as nat, |t: int| false),
        );
        crate::counting::lemma_count_trues_none(n as nat);
    }
    let mut queue = MinQueue::new();
    let h0 = h.estimate(g.label_at(sv), to_label);
    queue.push(h0 as i128, sv, sv);
    while queue.len() != 0
        invariant
            g.wf(),
            m == g@,
            s == sv as int,
            0 <= s < n,
            n == m.labels.len(),
            crate::paths::no_neg_edge(m),
            dist@.len() == n,
            path@.len() == n,
            visited@.len() == n,
            vcount == crate::counting::count_trues(visited@),
            vcount <= n,
            abs_d(dist@[s]) == Option::<int>::Some(0),
            witness_ok(m, s, dist@, path@, vcount as int + 1),
            forall|t: int|
                0 <= t < queue@.len() ==> (#[trigger] queue@[t]).node < n && dist@[queue@[t].node as int] is Some,
        decreases n - vcount, queue@.len(),
    {
        let e = match queue.pop_min() {
            Option::Some(e) => e,
            Option::None => {
                proof {
                    assert(false);
                }
                QueueEntry { key: 0, node: 0, origin: 0 }
            },
        };
        let u = e.node;
        proof {
            assert(u < n && dist@[u as int] is Some);
        }
        if visited[u] {
            continue;
        }
        let ghost vis_old = visited@;
        visited[u] = true;
        proof {
            crate::counting::lemma_count_trues_set(vis_old, u as int);
            crate::counting::lemma_count_trues_le(visited@);
        }
        vcount = vcount + 1;
        let du = match dist[u] {
            Option::Some(d) => d,
            Option::None => {
                proof {
                    assert(false);
                }
                0
            },
        };
        let lst = g.adj_at(u);
        let nl = lst.len();
        let mut k: usize = 0;
        while k < nl
            invariant
                g.wf(),
                m == g@,
                s == sv as int,
                0 <= s < n,
                n == m.labels.len(),
                crate::paths::no_neg_edge(m),
                u < n,
                lst@ == m.adj[u as int],
                nl == lst@.len(),
                k <= nl,
                dist@.len() == n,
                path@.len() == n,
                visited@.len() == n,
                vcount == crate::counting::count_trues(visited@),
                1 <= vcount <= n,
                abs_d(dist@[s]) == Option::<int>::Some(0),
                dist@[u as int] == Option::<i128>::Some(du),
                wit_at(m, s, dist@[u as int], path@[u as int], u as int, vcount as int),
                witness_ok(m, s, dist@, path@, vcount as int + 1),
                forall|t: int|
                    0 <= t < queue@.len() ==> (#[trigger] queue@[t]).node < n
                        && dist@[queue@[t].node as int] is Some,
            decreases nl - k,
        {
            let (nb, w) = lst[k];
            proof {
                assert(crate::graph::targets_below(m.adj[u as int], n as int));
                assert(m.adj[u as int][k as int].0 < n);
                assert(adj_edge(m, u as int, nb as int, w)) by {
                    assert((#[trigger] m.adj[u as int][k as int]).0 as int == nb as int
                        && m.adj[u as int][k as int].1 == w);
                }
                assert(w >= 0);
                lemma_wit_bound(m, s, dist@[u as int], path@[u as int], u as int, vcount as int);
                assert((vcount - 1) * 0x8000_0000_0000_0000 + 0x8000_0000_0000_0000
                    <= 0xffff_ffff_ffff_ffff * 0x8000_0000_0000_0000);
            }
            let cand: i128 = du + (w as i128);
            let better = match dist[nb] {
                Option::Some(dn) => cand < dn,
                Option::None => true,
            };
            if better {
                let pu = match &path[u] {
                    Option::Some(p) => copy_walk(p),
                    Option::None => {
                        proof {
                            assert(false);
                        }
                        Vec::new()
                    },
                };
                let mut p2 = pu;
                p2.push(nb);
                proof {
                    let ghost pw = path@[u as int]->Some_0;
                    assert(p2@ == pw@.push(nb));
                    lemma_walk_extend(m, pw@, nb, w);
                    if nb == sv {
                        crate::paths::lemma_walk_cost_nonneg(m, p2@);
                        assert(false);
                    }
                    if nb == u {
                        assert(false);
                    }
                }
                let ghost dist_old = dist@;
                let ghost path_old = path@;
                dist[nb] = Some(cand);
                path[nb] = Some(p2);
                let hv = h.estimate(g.label_at(nb), to_label);
                let key: i128 = if cand > i128::MAX - (hv as i128) {
                    i128::MAX
                } else {
                    cand + (hv as i128)
                };
                queue.push(key, nb, nb);
                proof {
                    assert forall|t: int|
                        0 <= t < dist@.len() implies wit_at(
                        m,
                        s,
                        dist@[t],
                        #[trigger] path@[t],
                        t,
                        vcount as int + 1,
                    ) by {
                        if t != nb as int {
                            assert(dist@[t] == dist_old[t] && path@[t] == path_old[t]);
                            assert(wit_at(m, s, dist_old[t], path_old[t], t, vcount as int + 1));
                        }
                    }
                }
            }
            k = k + 1;
        }
    }
    proof {
        lemma_witness_widen(m, s, dist@, path@, vcount as int + 1, n as int + 1);
    }
    (dist, path)
}


/// Contract of the non-negative-weight queries (Dijkstra and A*): missing
/// endpoints and negative weights are rejected exactly; otherwise a
/// cheapest path is returned exactly when the endpoints are connected.
/// (The negative-cycle arm cannot arise from a graph this contract admits;
/// it is tied to the Bellman-Ford signal for the sake of completeness.)
pub open spec fn nonneg_query_post(m: GraphModel, a: u64, b: u64, r: PathResult) -> bool {
    if !has_label(m, a) || !has_label(m, b) {
        r is NotFound
    } else if !crate::paths::no_neg_edge(m) {
        r is InvalidPrecondition
    } else {
        let s = lbl_idx(m, a);
        let t = lbl_idx(m, b);
        &&& !(r is NotFound) && !(r is InvalidPrecondition)
        &&& (r is NegativeCycle) ==> bf_detects(m, s)
        &&& !(r is NegativeCycle) ==> ((r is Found) <==> connects(m, s, t)) && ((r
            is Unreachable) <==> !connects(m, s, t))
        &&& match r {
            PathResult::Found(p, c) => optimal_found(m, s, t, p@, c as int),
            _ => true,
        }
    }
}

impl Graph {
    /// Cheapest path by A*: a priority search whose order is biased by the
    /// caller's estimate, followed by a certification pass; a failed
    /// certificate falls back to the Bellman-Ford engine.  Graphs with a
    /// negative edge weight are rejected.
    pub fn get_shortest_path_astar<H: Heuristic>(
        &self,
        start_vertex: u64,
        end_vertex: u64,
        heuristic: &H,
    ) -> (r: PathResult)
        requires
            self.wf(),
        ensures
            nonneg_query_post(self@, start_vertex, end_vertex, r),
    {
        let ghost m = self@;
        let sv = match self.index_of(start_vertex) {
            Option::Some(i) => i,
            Option::None => {
                return PathResult::NotFound;
            },
        };
        let tv = match self.index_of(end_vertex) {
            Option::Some(i) => i,
            Option::None => {
                return PathResult::NotFound;
            },
        };
        proof {
            crate::graph::lemma_lbl_idx_unique(m, start_vertex, sv as int);
            crate::graph::lemma_lbl_idx_unique(m, end_vertex, tv as int);
        }
        if scan_negative_edge(self) {
            return PathResult::InvalidPrecondition;
        }
        let (dist, path) = heuristic_search(self, sv, end_vertex, heuristic);
        if check_feasible(self, &dist, Ghost(sv as int), Ghost(path@)) {
            proof {
                assert(feasible(m, sv as int, abs_dists(dist@)));
            }
            conclude(self, sv, tv, &dist, &path)
        } else {
            let (dist2, path2, neg) = bf_engine(self, sv);
            if neg {
                return PathResult::NegativeCycle;
            }
            proof {
                let n = m.labels.len();
                assert(bf_iter(m, sv as int, ((n - 1) + 1) as nat) == bf_iter(
                    m,
                    sv as int,
                    (n - 1) as nat,
                ));
                lemma_bf_feasible(m, sv as int, (n - 1) as nat);
                lemma_witness_widen(m, sv as int, dist2@, path2@, n as int, n as int + 1);
            }
            conclude(self, sv, tv, &dist2, &path2)
        }
    }

    /// Cheapest path by Dijkstra: the A* search with the all-zero
    /// estimate, which expands vertices in plain distance order.  Graphs
    /// with a negative edge weight are rejected.
    pub fn get_shortest_path_dijkstra(&self, start_vertex: u64, end_vertex: u64) -> (r: PathResult)
        requires
            self.wf(),
        ensures
            nonneg_query_post(self@, start_vertex, end_vertex, r),
    {
        self.get_shortest_path_astar(start_vertex, end_vertex, &ZeroHeuristic)
    }
}

/// The graph holds a closed walk of negative total weight.
pub open spec fn has_negative_closed_walk(m: GraphModel) -> bool {
    exists|p: Seq<usize>|
        #[trigger] is_walk(m, p) && p.first() == p.last() && walk_cost(m, p) < 0
}

/// Well-formed all-pairs state: each matrix cell holds a witnessed walk
/// between its row and column vertex, and each diagonal cell holds a
/// closed walk of non-positive cost.
pub open spec fn fw_ok(
    m: GraphModel,
    ds: Seq<Vec<Option<i128>>>,
    ps: Seq<Vec<Option<Vec<usize>>>>,
) -> bool {
    let n = m.labels.len() as int;
    &&& ds.len() == n
    &&& ps.len() == n
    &&& forall|i: int| 0 <= i < n ==> (#[trigger] ds[i])@.len() == n
    &&& forall|i: int| 0 <= i < n ==> (#[trigger] ps[i])@.len() == n
    &&& forall|i: int, j: int|
        0 <= i < n && 0 <= j < n ==> #[trigger] wit_at(m, i, (ds[i])@[j], (ps[i])@[j], j, n + 1)
    &&& forall|i: int|
        0 <= i < n ==> (#[trigger] ds[i])@[i] is Some && ((ds[i])@[i])->Some_0 <= 0
}

/// Contract of the Floyd-Warshall query: missing endpoints are rejected; a
/// negative-cycle answer always rests on a real negative closed walk or
/// on the Bellman-Ford signal for the queried source; otherwise a
/// cheapest path is returned exactly when the endpoints are connected.
pub open spec fn fw_query_post(m: GraphModel, a: u64, b: u64, r: PathResult) -> bool {
    if !has_label(m, a) || !has_label(m, b) {
        r is NotFound
    } else {
        let s = lbl_idx(m, a);
        let t = lbl_idx(m, b);
        &&& !(r is NotFound) && !(r is InvalidPrecondition)
        &&& (r is NegativeCycle) ==> (has_negative_closed_walk(m) || bf_detects(m, s))
        &&& !(r is NegativeCycle) ==> ((r is Found) <==> connects(m, s, t)) && ((r
            is Unreachable) <==> !connects(m, s, t))
        &&& match r {
            PathResult::Found(p, c) => optimal_found(m, s, t, p@, c as int),
            _ => true,
        }
    }
}

/// Builds the initial all-pairs matrices: zero on the diagonal, the direct
/// edges elsewhere.
fn fw_init(g: &Graph) -> (out: (Vec<Vec<Option<i128>>>, Vec<Vec<Option<Vec<usize>>>>))
    requires
        g.wf(),
    ensures
        fw_ok(g@, out.0@, out.1@),
{
    let ghost m = g@;
    let n = g.size();
    let mut ds: Vec<Vec<Option<i128>>> = Vec::new();
    let mut ps: Vec<Vec<Option<Vec<usize>>>> = Vec::new();
    let mut i: usize = 0;
    while i < n
        invariant
            g.wf(),
            m == g@,
            n == m.labels.len(),
            i <= n,
            ds@.len() == i,
            ps@.len() == i,
            forall|i2: int| 0 <= i2 < i ==> (#[trigger] ds@[i2])@.len() == n,
            forall|i2: int| 0 <= i2 < i ==> (#[trigger] ps@[i2])@.len() == n,
            forall|i2: int, j: int|
                0 <= i2 < i && 0 <= j < n ==> #[trigger] wit_at(
                    m,
                    i2,
                    (ds@[i2])@[j],
                    (ps@[i2])@[j],
                    j,
                    n as int + 1,
                ),
            forall|i2: int|
                0 <= i2 < i ==> (#[trigger] ds@[i2])@[i2] is Some && ((ds@[i2])@[i2])->Some_0 <= 0,
        decreases n - i,
    {
        let mut drow: Vec<Option<i128>> = Vec::new();
        let mut prow: Vec<Option<Vec<usize>>> = Vec::new();
        let mut j: usize = 0;
        while j < n
            invariant
                g.wf(),
                m == g@,
                n == m.labels.len(),
                i < n,
                j <= n,
                drow@.len() == j,
                prow@.len() == j,
                forall|j2: int|
                    0 <= j2 < j ==> wit_at(
                        m,
                        i as int,
                        drow@[j2],
                        #[trigger] prow@[j2],
                        j2,
                        n as int + 1,
                    ),
                i < j ==> drow@[i as int] is Some && (drow@[i as int])->Some_0 <= 0,
            decreases n - j,
        {
            if j == i {
                drow.push(Some(0));
                let mut p0: Vec<usize> = Vec::new();
                p0.push(i);
                proof {
                    lemma_walk_single(m, i);
                    assert(p0@ =~= seq![i]);
                }
                prow.push(Some(p0));
            } else {
                drow.push(None);
                prow.push(None);
            }
            j = j + 1;
        }
        // write the direct edges into the row
        let lst = g.adj_at(i);
        let nl = lst.len();
        let mut k: usize = 0;
        while k < nl
            invariant
                g.wf(),
                m == g@,
                n == m.labels.len(),
                i < n,
                lst@ == m.adj[i as int],
                nl == lst@.len(),
                k <= nl,
                drow@.len() == n,
                prow@.len() == n,
                forall|j2: int|
                    0 <= j2 < n ==> wit_at(
                        m,
                        i as int,
                        drow@[j2],
                        #[trigger] prow@[j2],
                        j2,
                        n as int + 1,
                    ),
                drow@[i as int] is Some && (drow@[i as int])->Some_0 <= 0,
            decreases nl - k,
        {
            let (j2, w) = lst[k];
            proof {
                assert(crate::graph::targets_below(m.adj[i as int], n as int));
                assert(m.adj[i as int][k as int].0 < n);
                assert(adj_edge(m, i as int, j2 as int, w)) by {
                    assert((#[trigger] m.adj[i as int][k as int]).0 as int == j2 as int
                        && m.adj[i as int][k as int].1 == w);
                }
            }
            let better = match drow[j2] {
                Option::Some(c) => (w as i128) < c,
                Option::None => true,
            };
            if better {
                let mut p2: Vec<usize> = Vec::new();
                p2.push(i);
                p2.push(j2);
                proof {
                    lemma_walk_single(m, i);
                    assert(seq![i].push(j2) =~= p2@);
                    lemma_walk_extend(m, seq![i], j2, w);
                }
                let ghost drow_was = drow@;
                let ghost prow_was = prow@;
                drow[j2] = Some(w as i128);
                prow[j2] = Some(p2);
                proof {
                    assert forall|j3: int|
                        0 <= j3 < n implies wit_at(
                        m,
                        i as int,
                        drow@[j3],
                        #[trigger] prow@[j3],
                        j3,
                        n as int + 1,
                    ) by {
                        if j3 != j2 as int {
                            assert(drow@[j3] == drow_was[j3] && prow@[j3] == prow_was[j3]);
                            assert(wit_at(m, i as int, drow_was[j3], prow_was[j3], j3, n as int + 1));
                        }
                    }
                }
            }
            k = k + 1;
        }
        ds.push(drow);
        ps.push(prow);
        i = i + 1;
    }
    (ds, ps)
}

/// One Floyd-Warshall relaxation of cell `(i, j)` through `k`, guarded so
/// the combined witness stays short enough for the cost arithmetic.
#[verifier::rlimit(100)]
fn fw_relax(
    g: &Graph,
    ds: &mut Vec<Vec<Option<i128>>>,
    ps: &mut Vec<Vec<Option<Vec<usize>>>>,
    k: usize,
    i: usize,
    j: usize,
)
    requires
        g.wf(),
        fw_ok(g@, old(ds)@, old(ps)@),
        (k as int) < g@.labels.len(),
        (i as int) < g@.labels.len(),
        (j as int) < g@.labels.len(),
    ensures
        fw_ok(g@, final(ds)@, final(ps)@),
{
    let ghost m = g@;
    let n = g.size();
    proof {
        assert(wit_at(
            m,
            i as int,
            (ds@[i as int])@[k as int],
            (ps@[i as int])@[k as int],
            k as int,
            n as int + 1,
        ));
        assert(wit_at(
            m,
            k as int,
            (ds@[k as int])@[j as int],
            (ps@[k as int])@[j as int],
            j as int,
            n as int + 1,
        ));
        assert(wit_at(
            m,
            i as int,
            (ds@[i as int])@[j as int],
            (ps@[i as int])@[j as int],
            j as int,
            n as int + 1,
        ));
    }
    let dik = ds[i][k];
    let dkj = ds[k][j];
    let dij = ds[i][j];
    let (cik, ckj) = match (dik, dkj) {
        (Option::Some(a), Option::Some(b)) => (a, b),
        _ => {
            return ;
        },
    };
    let pik = match &ps[i][k] {
        Option::Some(p) => copy_walk(p),
        Option::None => {
            proof {
                assert(false);
            }
            Vec::new()
        },
    };
    let pkj = match &ps[k][j] {
        Option::Some(p) => copy_walk(p),
        Option::None => {
            proof {
                assert(false);
            }
            Vec::new()
        },
    };
    if (pik.len() as u128) + (pkj.len() as u128) > (n as u128) + 2 {
        // combining would blow the witness budget; with no negative cycle
        // a short enough route exists and the final certificate decides
        return ;
    }
    proof {
        lemma_walk_cost_bound(m, pik@);
        lemma_walk_cost_bound(m, pkj@);
        assert((pik@.len() - 1) + (pkj@.len() - 1) <= n + 1);
        assert((pik@.len() - 1) * 0x8000_0000_0000_0000 + (pkj@.len() - 1)
            * 0x8000_0000_0000_0000 <= 0x1_0000_0000_0000_0000 * 0x8000_0000_0000_0000)
            by (nonlinear_arith)
            requires
                0 <= pik@.len() - 1,
                0 <= pkj@.len() - 1,
                (pik@.len() - 1) + (pkj@.len() - 1) <= 0x1_0000_0000_0000_0000,
        ;
    }
    let cand: i128 = cik + ckj;
    let better = match dij {
        Option::Some(c) => cand < c,
        Option::None => true,
    };
    if better {
        let mut np = pik;
        let ghost pik_v = np@;
        let nkj = pkj.len();
        let mut t: usize = 1;
        proof {
            assert(np@ =~= pik_v + pkj@.subrange(1, 1));
        }
        while t < nkj
            invariant
                t >= 1,
                t <= nkj,
                nkj == pkj@.len(),
                np@ == pik_v + pkj@.subrange(1, t as int),
            decreases nkj - t,
        {
            np.push(pkj[t]);
            proof {
                assert(np@ =~= pik_v + pkj@.subrange(1, t as int + 1));
            }
            t = t + 1;
        }
        proof {
            assert(pkj@.subrange(1, nkj as int) =~= pkj@.drop_first());
            assert(np@ == pik_v + pkj@.drop_first());
            lemma_walk_concat(m, pik_v, pkj@);
        }
        let ghost ds_was = ds@;
        let ghost ps_was = ps@;
        let drow = &mut ds[i];
        drow[j] = Some(cand);
        let prow = &mut ps[i];
        prow[j] = Some(np);
        proof {
            assert((ds@[i as int])@ == (ds_was[i as int])@.update(j as int, Option::Some(cand)));
            assert forall|i2: int| 0 <= i2 < n && i2 != i as int implies ds@[i2] == ds_was[i2]
                && ps@[i2] == ps_was[i2] by {}
            assert(fw_ok(m, ds@, ps@)) by {
                assert forall|i2: int, j2: int|
                    0 <= i2 < n && 0 <= j2 < n implies #[trigger] wit_at(
                    m,
                    i2,
                    (ds@[i2])@[j2],
                    (ps@[i2])@[j2],
                    j2,
                    n as int + 1,
                ) by {
                    if i2 == i as int && j2 == j as int {
                        assert((ds@[i2])@[j2] == Option::<i128>::Some(cand));
                        assert((ps@[i2])@[j2] is Some);
                    } else {
                        assert((ds@[i2])@[j2] == (ds_was[i2])@[j2]);
                        assert((ps@[i2])@[j2] == (ps_was[i2])@[j2]);
                        assert(wit_at(
                            m,
                            i2,
                            (ds_was[i2])@[j2],
                            (ps_was[i2])@[j2],
                            j2,
                            n as int + 1,
                        ));
                    }
                }
                assert forall|i2: int|
                    0 <= i2 < n implies (#[trigger] ds@[i2])@[i2] is Some
                        && ((ds@[i2])@[i2])->Some_0 <= 0 by {
                    if i2 == i as int && i as int == j as int {
                        assert((ds_was[i2])@[i2] is Some && ((ds_was[i2])@[i2])->Some_0 <= 0);
                    } else if i2 == i as int {
                        assert((ds@[i2])@[i2] == (ds_was[i2])@[i2]);
                        assert((ds_was[i2])@[i2] is Some && ((ds_was[i2])@[i2])->Some_0 <= 0);
                    } else {
                        assert((ds@[i2])@[i2] == (ds_was[i2])@[i2]);
                        assert((ds_was[i2])@[i2] is Some && ((ds_was[i2])@[i2])->Some_0 <= 0);
                    }
                }
            }
        }
    }
}

impl Graph {
    /// Cheapest path by Floyd-Warshall: the all-pairs matrix is relaxed
    /// through every intermediate vertex, a negative diagonal reports a
    /// negative cycle, and the queried row is certified before it is
    /// answered (a failed certificate falls back to the Bellman-Ford
    /// engine).
    pub fn get_shortest_path_floyd_warshall(&self, start_vertex: u64, end_vertex: u64) -> (r:
        PathResult)
        requires
            self.wf(),
        ensures
            fw_query_post(self@, start_vertex, end_vertex, r),
    {
        let ghost m = self@;
        let sv = match self.index_of(start_vertex) {
            Option::Some(i) => i,
            Option::None => {
                return PathResult::NotFound;
            },
        };
        let tv = match self.index_of(end_vertex) {
            Option::Some(i) => i,
            Option::None => {
                return PathResult::NotFound;
            },
        };
        proof {
            crate::graph::lemma_lbl_idx_unique(m, start_vertex, sv as int);
            crate::graph::lemma_lbl_idx_unique(m, end_vertex, tv as int);
        }
        let n = self.size();
        let (mut ds, mut ps) = fw_init(self);
        let mut k: usize = 0;
        while k < n
            invariant
                self.wf(),
                m == self@,
                n == m.labels.len(),
                (sv as int) < n,
                (tv as int) < n,
                m.labels[sv as int] == start_vertex,
                m.labels[tv as int] == end_vertex,
                k <= n,
                fw_ok(m, ds@, ps@),
            decreases n - k,
        {
            let mut i: usize = 0;
            while i < n
                invariant
                    self.wf(),
                    m == self@,
                    n == m.labels.len(),
                    k < n,
                    i <= n,
                    fw_ok(m, ds@, ps@),
                decreases n - i,
            {
                let mut j: usize = 0;
                while j < n
                    invariant
                        self.wf(),
                        m == self@,
                        n == m.labels.len(),
                        k < n,
                        i < n,
                        j <= n,
                        fw_ok(m, ds@, ps@),
                    decreases n - j,
                {
                    fw_relax(self, &mut ds, &mut ps, k, i, j);
                    j = j + 1;
                }
                i = i + 1;
            }
            k = k + 1;
        }
        // a negative diagonal certifies a negative cycle
        let mut di: usize = 0;
        while di < n
            invariant
                self.wf(),
                m == self@,
                n == m.labels.len(),
                (sv as int) < n,
                (tv as int) < n,
                m.labels[sv as int] == start_vertex,
                m.labels[tv as int] == end_vertex,
                di <= n,
                fw_ok(m, ds@, ps@),
            decreases n - di,
        {
            let neg_diag = match ds[di][di] {
                Option::Some(c) => c < 0,
                Option::None => false,
            };
            if neg_diag {
                proof {
                    crate::graph::lemma_lbl_idx_unique(m, start_vertex, sv as int);
                    crate::graph::lemma_lbl_idx_unique(m, end_vertex, tv as int);
                    assert(wit_at(
                        m,
                        di as int,
                        (ds@[di as int])@[di as int],
                        (ps@[di as int])@[di as int],
                        di as int,
                        n as int + 1,
                    ));
                    let p = ((ps@[di as int])@[di as int])->Some_0;
                    assert(is_walk(m, p@) && p@.first() == p@.last() && walk_cost(m, p@) < 0);
                    assert(has_negative_closed_walk(m));
                }
                return PathResult::NegativeCycle;
            }
            di = di + 1;
        }
        // certify the queried row, then answer from it
        proof {
            crate::graph::lemma_lbl_idx_unique(m, start_vertex, sv as int);
            crate::graph::lemma_lbl_idx_unique(m, end_vertex, tv as int);
            assert forall|j2: int|
                0 <= j2 < n implies #[trigger] wit_at(
                m,
                sv as int,
                (ds@[sv as int])@[j2],
                (ps@[sv as int])@[j2],
                j2,
                n as int + 1,
            ) by {}
        }
        let ok = check_feasible(
            self,
            &ds[sv],
            Ghost(sv as int),
            Ghost(ps@[sv as int]@),
        );
        if ok {
            proof {
                assert((ds@[sv as int])@[sv as int] is Some);
                assert(((ds@[sv as int])@[sv as int])->Some_0 <= 0);
                assert(feasible(m, sv as int, abs_dists(ds@[sv as int]@)));
            }
            conclude(self, sv, tv, &ds[sv], &ps[sv])
        } else {
            let (dist2, path2, neg) = bf_engine(self, sv);
            if neg {
                return PathResult::NegativeCycle;
            }
            proof {
                let nn = m.labels.len();
                assert(bf_iter(m, sv as int, ((nn - 1) + 1) as nat) == bf_iter(
                    m,
                    sv as int,
                    (nn - 1) as nat,
                ));
                lemma_bf_feasible(m, sv as int, (nn - 1) as nat);
                lemma_witness_widen(m, sv as int, dist2@, path2@, nn as int, nn as int + 1);
            }
            conclude(self, sv, tv, &dist2, &path2)
        }
    }
}

} // verus!
