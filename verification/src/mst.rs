//! Minimum-spanning-tree construction: Kruskal (sorted edge scan over a
//! disjoint-set union) and Prim (priority-queue expansion from a start
//! vertex).  On a disconnected graph both return a spanning forest.  Each
//! contract counts the returned edges exactly: Prim returns one edge fewer
//! than its start vertex's component has vertices, Kruskal one edge fewer
//! per component, summed.

use crate::counting::{
    count_trues, lemma_count_trues_agree, lemma_count_trues_le, lemma_count_trues_one,
    lemma_count_trues_set, lemma_count_trues_two, lemma_count_trues_unset,
};
use crate::graph::{
    Graph, GraphModel, adj_edge, canonical_edge, has_edge, has_label, lbl_idx,
    lemma_lbl_idx_unique, model_wf,
};
use crate::paths::{
    connects, is_walk, lemma_connects_sym, lemma_connects_trans, lemma_walk_extend,
    lemma_walk_single, lemma_walk_stays,
};
use crate::prio::{MinQueue, QueueEntry};
use vstd::prelude::*;

verus! {

broadcast use vstd::seq_lib::group_to_multiset_ensures;

/// The start vertex Prim grows from: the given label when it names a
/// vertex, else the first vertex.
pub open spec fn prim_start(m: GraphModel, start: Option<u64>) -> int {
    match start {
        Option::Some(l) => if has_label(m, l) {
            lbl_idx(m, l)
        } else {
            0
        },
        Option::None => 0,
    }
}

/// One row of flags per vertex: whether it is joined to `s` by a walk.
pub open spec fn reach_row(m: GraphModel, s: int) -> Seq<bool> {
    Seq::new(m.labels.len(), |v: int| connects(m, s, v))
}

/// Some queue entry is about vertex `x`.
pub open spec fn on_queue(q: Seq<QueueEntry>, x: int) -> bool {
    exists|t: int| 0 <= t < q.len() && ((#[trigger] q[t]).node as int) == x
}

/// Removing an entry about another vertex keeps `x` on the queue.
proof fn lemma_on_queue_remove(q: Seq<QueueEntry>, qi: int, x: int)
    requires
        0 <= qi < q.len(),
        on_queue(q, x),
        (q[qi].node as int) != x,
    ensures
        on_queue(q.remove(qi), x),
{
    let t = choose|t: int| 0 <= t < q.len() && ((#[trigger] q[t]).node as int) == x;
    if t < qi {
        assert(((q.remove(qi)[t]).node as int) == x);
    } else {
        assert(((q.remove(qi)[t - 1]).node as int) == x);
    }
}

/// Pushing keeps every vertex on the queue.
proof fn lemma_on_queue_push(q: Seq<QueueEntry>, e: QueueEntry, x: int)
    requires
        on_queue(q, x),
    ensures
        on_queue(q.push(e), x),
{
    let t = choose|t: int| 0 <= t < q.len() && ((#[trigger] q[t]).node as int) == x;
    assert(((q.push(e)[t]).node as int) == x);
}

/// A queue entry is sound: it names a vertex, and it is either the
/// initial entry for the start vertex or reached by an edge from a vertex
/// already in the tree.
pub open spec fn entry_ok(m: GraphModel, s: int, mst: Seq<bool>, e: QueueEntry) -> bool {
    &&& (e.node as int) < m.labels.len()
    &&& ((e.origin == e.node && (e.node as int) == s) || ((e.origin as int) < m.labels.len()
        && mst[e.origin as int] && has_edge(m, e.origin as int, e.node as int)))
}

/// Entry soundness survives growing the tree.
proof fn lemma_entry_ok_mono(m: GraphModel, s: int, a: Seq<bool>, b: Seq<bool>, e: QueueEntry)
    requires
        entry_ok(m, s, a, e),
        a.len() == m.labels.len(),
        a.len() == b.len(),
        forall|x: int| 0 <= x < a.len() && a[x] ==> b[x],
    ensures
        entry_ok(m, s, b, e),
{
    if !(e.origin == e.node && (e.node as int) == s) {
        assert(a[e.origin as int]);
        assert(b[e.origin as int]);
    }
}

/// Every edge out of the grown tree leads back into the tree or to a
/// queued candidate (the vertex `except` is scanned only from entry
/// `from_e` on).
#[verifier::opaque]
pub open spec fn frontier_ok(
    m: GraphModel,
    q: Seq<QueueEntry>,
    mst: Seq<bool>,
    except: int,
    from_e: int,
) -> bool {
    forall|u: int, e: int|
        0 <= u < mst.len() && mst[u] && 0 <= e < m.adj[u].len() && !(u == except && from_e <= e)
            ==> mst[(#[trigger] m.adj[u][e]).0 as int] || on_queue(q, (m.adj[u][e]).0 as int)
}

/// Appends the edge between two vertex positions to the result, with the
/// smaller label first.
fn record_edge(g: &Graph, r: &mut Vec<(u64, u64, i64)>, origin: usize, node: usize)
    requires
        g.wf(),
        (origin as int) < g@.labels.len(),
        (node as int) < g@.labels.len(),
        has_edge(g@, origin as int, node as int),
        forall|t: int| 0 <= t < old(r)@.len() ==> #[trigger] canonical_edge(g@, old(r)@[t]),
    ensures
        final(r)@.len() == old(r)@.len() + 1,
        forall|t: int| 0 <= t < final(r)@.len() ==> #[trigger] canonical_edge(g@, final(r)@[t]),
{
    let ghost m = g@;
    let la = g.label_at(origin);
    let lb = g.label_at(node);
    let (ca, cb) = if la <= lb {
        (la, lb)
    } else {
        (lb, la)
    };
    let w = match g.get_edge_weight(ca, cb) {
        Option::Some(w) => w,
        Option::None => {
            proof {
                lemma_lbl_idx_unique(m, la, origin as int);
                lemma_lbl_idx_unique(m, lb, node as int);
                let we = choose|we: i64| #[trigger] adj_edge(m, origin as int, node as int, we);
                if la <= lb {
                    assert(adj_edge(m, lbl_idx(m, ca), lbl_idx(m, cb), we));
                } else {
                    assert(adj_edge(m, node as int, origin as int, we));
                    assert(adj_edge(m, lbl_idx(m, ca), lbl_idx(m, cb), we));
                }
                assert(has_edge(m, lbl_idx(m, ca), lbl_idx(m, cb)));
                assert(false);
            }
            0
        },
    };
    let ghost r_was = r@;
    r.push((ca, cb, w));
    proof {
        lemma_lbl_idx_unique(m, la, origin as int);
        lemma_lbl_idx_unique(m, lb, node as int);
        assert(canonical_edge(m, (ca, cb, w)));
        assert forall|t: int| 0 <= t < r@.len() implies #[trigger] canonical_edge(m, r@[t]) by {
            if t < r_was.len() {
                assert(r@[t] == r_was[t]);
            } else {
                assert(r@[t] == ((ca, cb, w)));
            }
        }
    }
}

/// Growing the tree by a popped entry keeps every member joined to the
/// start vertex.
proof fn lemma_members_connect(
    m: GraphModel,
    s: int,
    mst_was: Seq<bool>,
    mst2: Seq<bool>,
    e: QueueEntry,
)
    requires
        model_wf(m),
        0 <= s < m.labels.len(),
        mst_was.len() == m.labels.len(),
        mst2 == mst_was.update(e.node as int, true),
        entry_ok(m, s, mst_was, e),
        forall|x: int| 0 <= x < m.labels.len() && #[trigger] mst_was[x] ==> connects(m, s, x),
        (e.node as int) == s || mst_was[s],
    ensures
        forall|x: int| 0 <= x < m.labels.len() && #[trigger] mst2[x] ==> connects(m, s, x),
{
    let u = e.node;
    assert forall|x: int| 0 <= x < m.labels.len() && #[trigger] mst2[x] implies connects(
        m,
        s,
        x,
    ) by {
        if x == u as int {
            if (u as int) == s {
                lemma_walk_single(m, u);
            } else {
                assert(mst_was[e.origin as int]);
                assert(connects(m, s, e.origin as int));
                let q = choose|q: Seq<usize>|
                    #[trigger] is_walk(m, q) && q.first() as int == s && q.last() as int
                        == e.origin as int;
                let w = choose|w: i64| #[trigger] adj_edge(m, e.origin as int, u as int, w);
                lemma_walk_extend(m, q, u, w);
            }
        } else {
            assert(mst_was[x]);
        }
    }
}

/// After a pop that marks its vertex, every tree edge still leads into the
/// tree or to a queued candidate.
proof fn lemma_frontier_pop(
    m: GraphModel,
    q_was: Seq<QueueEntry>,
    qi: int,
    q2: Seq<QueueEntry>,
    mst_was: Seq<bool>,
    mst2: Seq<bool>,
    u: usize,
)
    requires
        model_wf(m),
        0 <= qi < q_was.len(),
        q2 == q_was.remove(qi),
        (q_was[qi].node as int) == u as int,
        mst_was.len() == m.labels.len(),
        mst2 == mst_was.update(u as int, true) || mst2 == mst_was,
        mst2.len() == mst_was.len(),
        mst2[u as int],
        forall|x: int| 0 <= x < mst_was.len() && mst_was[x] ==> mst2[x],
        frontier_ok(m, q_was, mst_was, m.labels.len() as int, 0),
        (u as int) < m.labels.len(),
    ensures
        frontier_ok(m, q2, mst2, u as int, 0),
        frontier_ok(m, q2, mst2, m.labels.len() as int, 0) || !(mst2 == mst_was),
{
    reveal(frontier_ok);
    assert forall|u2: int, e2: int|
        0 <= u2 < mst2.len() && mst2[u2] && 0 <= e2 < m.adj[u2].len() && !(u2 == u as int && 0
            <= e2) implies mst2[(#[trigger] m.adj[u2][e2]).0 as int] || on_queue(
        q2,
        (m.adj[u2][e2]).0 as int,
    ) by {
        let x = (m.adj[u2][e2]).0 as int;
        assert(crate::graph::targets_below(m.adj[u2], m.labels.len() as int));
        assert(0 <= x < mst_was.len());
        assert(mst_was[u2]) by {
            if mst2 == mst_was.update(u as int, true) {
                assert(u2 != u as int);
            }
        }
        if !mst2[x] {
            assert(x != u as int);
            assert(!mst_was[x]);
            assert(on_queue(q_was, x));
            lemma_on_queue_remove(q_was, qi, x);
        }
    }
    if mst2 == mst_was {
        assert forall|u2: int, e2: int|
            0 <= u2 < mst2.len() && mst2[u2] && 0 <= e2 < m.adj[u2].len() && !(u2
                == m.labels.len() as int && 0 <= e2) implies mst2[(
        #[trigger] m.adj[u2][e2]).0 as int] || on_queue(q2, (m.adj[u2][e2]).0 as int) by {
            let x = (m.adj[u2][e2]).0 as int;
            assert(crate::graph::targets_below(m.adj[u2], m.labels.len() as int));
            assert(0 <= x < mst_was.len());
            if !mst2[x] {
                assert(on_queue(q_was, x));
                assert(x != u as int);
                lemma_on_queue_remove(q_was, qi, x);
            }
        }
    }
}

/// Scans one freshly added vertex's adjacency list and queues every
/// neighbor not yet in the tree.
fn scan_neighbors(g: &Graph, queue: &mut MinQueue, in_mst: &Vec<bool>, u: usize, Ghost(s): Ghost<int>)
    requires
        g.wf(),
        (u as int) < g@.labels.len(),
        in_mst@.len() == g@.labels.len(),
        in_mst@[u as int],
        0 <= s < g@.labels.len(),
        forall|t: int|
            0 <= t < old(queue)@.len() ==> entry_ok(g@, s, in_mst@, #[trigger] old(queue)@[t]),
        frontier_ok(g@, old(queue)@, in_mst@, u as int, 0),
    ensures
        forall|t: int|
            0 <= t < final(queue)@.len() ==> entry_ok(g@, s, in_mst@, #[trigger] final(queue)@[t]),
        frontier_ok(g@, final(queue)@, in_mst@, g@.labels.len() as int, 0),
{
    let ghost m = g@;
    let n = g.size();
    let lst = g.adj_at(u);
    let nl = lst.len();
    let mut k: usize = 0;
    while k < nl
        invariant
            g.wf(),
            m == g@,
            n == m.labels.len(),
            0 <= s < n,
            (u as int) < n,
            in_mst@.len() == n,
            in_mst@[u as int],
            lst@ == m.adj[u as int],
            nl == lst@.len(),
            k <= nl,
            forall|t: int|
                0 <= t < queue@.len() ==> entry_ok(m, s, in_mst@, #[trigger] queue@[t]),
            frontier_ok(m, queue@, in_mst@, u as int, k as int),
        decreases nl - k,
    {
        let (nb, w) = lst[k];
        proof {
            reveal(frontier_ok);
            assert(crate::graph::targets_below(m.adj[u as int], n as int));
            assert(m.adj[u as int][k as int].0 < n);
            assert(adj_edge(m, u as int, nb as int, w)) by {
                assert((#[trigger] m.adj[u as int][k as int]).0 as int == nb as int
                    && m.adj[u as int][k as int].1 == w);
            }
        }
        let ghost q_bef = queue@;
        if !in_mst[nb] {
            queue.push(w as i128, nb, u);
            proof {
                assert(((queue@[queue@.len() - 1]).node as int) == nb as int);
                assert(on_queue(queue@, nb as int));
                assert forall|t: int|
                    0 <= t < queue@.len() implies entry_ok(m, s, in_mst@, #[trigger] queue@[t]) by {
                    if t < q_bef.len() {
                        assert(queue@[t] == q_bef[t]);
                    } else {
                        assert(queue@[t] == (QueueEntry { key: w as i128, node: nb, origin: u }));
                        assert(has_edge(m, u as int, nb as int));
                    }
                }
            }
        }
        proof {
            reveal(frontier_ok);
            assert(frontier_ok(m, queue@, in_mst@, u as int, k as int + 1)) by {
                assert forall|u2: int, e2: int|
                    0 <= u2 < n && in_mst@[u2] && 0 <= e2 < m.adj[u2].len() && !(u2 == u as int
                        && k as int + 1 <= e2) implies in_mst@[(#[trigger] m.adj[u2][e2]).0 as int]
                    || on_queue(queue@, (m.adj[u2][e2]).0 as int) by {
                    let x = (m.adj[u2][e2]).0 as int;
                    if u2 == u as int && e2 == k as int {
                        if !in_mst@[x] {
                            assert(x == nb as int);
                            assert(on_queue(queue@, x));
                        }
                    } else {
                        if !in_mst@[x] {
                            assert(on_queue(q_bef, x));
                            if queue@ != q_bef {
                                lemma_on_queue_push(
                                    q_bef,
                                    QueueEntry { key: w as i128, node: nb, origin: u },
                                    x,
                                );
                            }
                        }
                    }
                }
            }
        }
        k = k + 1;
    }
    proof {
        reveal(frontier_ok);
        assert(frontier_ok(m, queue@, in_mst@, n as int, 0)) by {
            assert forall|u2: int, e2: int|
                0 <= u2 < n && in_mst@[u2] && 0 <= e2 < m.adj[u2].len() && !(u2 == n as int && 0
                    <= e2) implies in_mst@[(#[trigger] m.adj[u2][e2]).0 as int] || on_queue(
                queue@,
                (m.adj[u2][e2]).0 as int,
            ) by {
                assert(!(u2 == u as int && nl as int <= e2));
            }
        }
    }
}

impl Graph {
    /// Minimum spanning tree (or forest restricted to the start vertex's
    /// component) by Prim's expansion.  Returns the accepted edges in
    /// acceptance order; their number is one less than the number of
    /// vertices in the start vertex's component.
    #[verifier::rlimit(100)]
    pub fn get_mst_prim(&self, start_vertex: Option<u64>) -> (r: Vec<(u64, u64, i64)>)
        requires
            self.wf(),
        ensures
            forall|t: int| 0 <= t < r@.len() ==> #[trigger] canonical_edge(self@, r@[t]),
            self@.labels.len() == 0 ==> r@.len() == 0,
            self@.labels.len() > 0 ==> r@.len() + 1 == count_trues(
                reach_row(self@, prim_start(self@, start_vertex)),
            ),
    {
        let ghost m = self@;
        let n = self.size();
        let mut r: Vec<(u64, u64, i64)> = Vec::new();
        if n == 0 {
            return r;
        }
        let sv: usize = match start_vertex {
            Option::Some(l) => match self.index_of(l) {
                Option::Some(i) => {
                    proof {
                        lemma_lbl_idx_unique(m, l, i as int);
                    }
                    i
                },
                Option::None => 0,
            },
            Option::None => 0,
        };
        let ghost s = sv as int;
        proof {
            assert(s == prim_start(m, start_vertex));
        }
        let mut in_mst: Vec<bool> = Vec::new();
        let mut v0: usize = 0;
        while v0 < n
            invariant
                v0 <= n,
                in_mst@.len() == v0,
                forall|t: int| 0 <= t < v0 ==> !(#[trigger] in_mst@[t]),
            decreases n - v0,
        {
            in_mst.push(false);
            v0 = v0 + 1;
        }
        let mut vcount: usize = 0;
        proof {
            crate::counting::lemma_count_trues_agree(in_mst@, Seq::new(n as nat, |t: int| false));
            crate::counting::lemma_count_trues_none(n as nat);
        }
        let mut queue = MinQueue::new();
        queue.push(0, sv, sv);
        proof {
            reveal(frontier_ok);
        }
        while queue.len() != 0
            invariant
                self.wf(),
                m == self@,
                n == m.labels.len(),
                0 <= s < n,
                s == sv as int,
                in_mst@.len() == n,
                vcount == count_trues(in_mst@),
                vcount <= n,
                vcount == 0 ==> queue@.len() > 0,
                vcount > 0 ==> in_mst@[s],
                r@.len() + 1 == vcount + if in_mst@[s] {
                    0int
                } else {
                    1int
                },
                forall|t: int| 0 <= t < r@.len() ==> #[trigger] canonical_edge(m, r@[t]),
                forall|x: int| 0 <= x < n && #[trigger] in_mst@[x] ==> connects(m, s, x),
                forall|t: int|
                    0 <= t < queue@.len() ==> entry_ok(m, s, in_mst@, #[trigger] queue@[t]),
                frontier_ok(m, queue@, in_mst@, n as int, 0),
            decreases n - vcount, queue@.len(),
        {
            let ghost q_was = queue@;
            let e = match queue.pop_min() {
                Option::Some(e) => e,
                Option::None => {
                    proof {
                        assert(false);
                    }
                    QueueEntry { key: 0, node: 0, origin: 0 }
                },
            };
            let ghost qi = choose|qi: int|
                0 <= qi < q_was.len() && q_was[qi] == e && queue@ == q_was.remove(qi);
            let u = e.node;
            proof {
                assert(q_was[qi] == e && queue@ == q_was.remove(qi));
                assert(entry_ok(m, s, in_mst@, e));
                assert forall|t: int|
                    0 <= t < queue@.len() implies entry_ok(m, s, in_mst@, #[trigger] queue@[t]) by {
                    if t < qi {
                        assert(queue@[t] == q_was[t]);
                    } else {
                        assert(queue@[t] == q_was[t + 1]);
                    }
                }
            }
            if in_mst[u] {
                proof {
                    lemma_frontier_pop(m, q_was, qi, queue@, in_mst@, in_mst@, u);
                    lemma_count_trues_one(in_mst@, u as int);
                }
                continue;
            }
            let ghost mst_was = in_mst@;
            in_mst[u] = true;
            proof {
                lemma_count_trues_set(mst_was, u as int);
                lemma_count_trues_le(in_mst@);
                assert forall|t: int|
                    0 <= t < queue@.len() implies entry_ok(m, s, in_mst@, #[trigger] queue@[t]) by {
                    lemma_entry_ok_mono(m, s, mst_was, in_mst@, queue@[t]);
                }
                if (u as int) != s {
                    assert(in_mst@[s] == mst_was[s]);
                    assert(vcount > 0) by {
                        if vcount == 0 {
                            if !(e.origin == e.node && (e.node as int) == s) {
                                lemma_count_trues_one(mst_was, e.origin as int);
                            }
                        }
                    }
                }
                if vcount == 0 {
                    assert(e.origin == e.node) by {
                        if e.origin != e.node {
                            lemma_count_trues_one(mst_was, e.origin as int);
                        }
                    }
                }
                lemma_members_connect(m, s, mst_was, in_mst@, e);
                lemma_frontier_pop(m, q_was, qi, queue@, mst_was, in_mst@, u);
            }
            vcount = vcount + 1;
            if e.origin != u {
                record_edge(self, &mut r, e.origin, u);
            }
            scan_neighbors(self, &mut queue, &in_mst, u, Ghost(s));
        }
        proof {
            assert forall|x: int, y: int|
                0 <= x < n && 0 <= y < n && in_mst@[x] && #[trigger] has_edge(m, x, y)
                    implies in_mst@[y] by {
                reveal(frontier_ok);
                let w = choose|w: i64| #[trigger] adj_edge(m, x, y, w);
                let e2 = choose|e2: int|
                    0 <= e2 < m.adj[x].len() && (#[trigger] m.adj[x][e2]).0 as int == y
                        && m.adj[x][e2].1 == w;
                if !in_mst@[y] {
                    assert(on_queue(queue@, (m.adj[x][e2]).0 as int));
                    assert(false);
                }
            }
            assert(in_mst@[s]) by {
                assert(vcount > 0);
            }
            assert forall|x: int| 0 <= x < n implies in_mst@[x] == connects(m, s, x) by {
                if connects(m, s, x) {
                    let q = choose|q: Seq<usize>|
                        #[trigger] is_walk(m, q) && q.first() as int == s && q.last() as int == x;
                    lemma_walk_stays(m, in_mst@, q);
                }
            }
            lemma_count_trues_agree(in_mst@, reach_row(m, s));
        }
        r
    }
}

/// Order on canonical edge triples: by weight, ties by the endpoint
/// labels.  This makes Kruskal's acceptance order deterministic.
pub open spec fn edge_le(a: (u64, u64, i64), b: (u64, u64, i64)) -> bool {
    ||| a.2 < b.2
    ||| (a.2 == b.2 && (a.0 < b.0 || (a.0 == b.0 && a.1 <= b.1)))
}

/// Decides the edge order.
fn edge_le_exec(a: (u64, u64, i64), b: (u64, u64, i64)) -> (r: bool)
    ensures
        r == edge_le(a, b),
{
    a.2 < b.2 || (a.2 == b.2 && (a.0 < b.0 || (a.0 == b.0 && a.1 <= b.1)))
}

/// Inserts a triple into a sorted vector, after any equal triples.
fn insert_edge(data: &mut Vec<(u64, u64, i64)>, value: (u64, u64, i64))
    requires
        forall|t1: int, t2: int|
            0 <= t1 < t2 < old(data)@.len() ==> edge_le(
                #[trigger] old(data)@[t1],
                #[trigger] old(data)@[t2],
            ),
    ensures
        forall|t1: int, t2: int|
            0 <= t1 < t2 < final(data)@.len() ==> edge_le(
                #[trigger] final(data)@[t1],
                #[trigger] final(data)@[t2],
            ),
        final(data)@.to_multiset() == old(data)@.to_multiset().insert(value),
        final(data)@.len() == old(data)@.len() + 1,
{
    let n = data.len();
    let mut i: usize = 0;
    while i < n && edge_le_exec(data[i], value)
        invariant
            n == data@.len(),
            data@ == old(data)@,
            i <= n,
            forall|t: int| 0 <= t < i ==> edge_le(#[trigger] data@[t], value),
        decreases n - i,
    {
        i = i + 1;
    }
    data.insert(i, value);
    proof {
        let s = old(data)@;
        let s2 = data@;
        assert(s2 == s.insert(i as int, value));
        assert forall|t1: int, t2: int|
            0 <= t1 < t2 < s2.len() implies edge_le(#[trigger] s2[t1], #[trigger] s2[t2]) by {
            if t2 < i {
                assert(s2[t1] == s[t1] && s2[t2] == s[t2]);
            } else if t1 > i {
                assert(s2[t1] == s[t1 - 1] && s2[t2] == s[t2 - 1]);
            } else if t1 < i && t2 == i {
                assert(s2[t1] == s[t1]);
            } else if t1 == i && t2 > i {
                assert(s2[t2] == s[t2 - 1]);
                if i < s.len() {
                    assert(!edge_le(s[i as int], value));
                    assert(edge_le(s[i as int], s[t2 - 1]) || i as int == t2 - 1);
                }
            } else if t1 < i && t2 > i {
                assert(s2[t1] == s[t1] && s2[t2] == s[t2 - 1]);
                assert(edge_le(s[t1], value));
                assert(edge_le(s[t1], s[t2 - 1]) || t1 == t2 - 1);
            }
        }
        assert(s2.remove(i as int) =~= s);
        assert(s2.remove(i as int).to_multiset() =~= s2.to_multiset().remove(s2[i as int]));
        assert(s2[i as int] == value);
        assert(s2.to_multiset().contains(value)) by {
            assert(s2.contains(value)) by {
                assert(s2[i as int] == value);
            }
        }
        assert(s2.to_multiset() =~= s.to_multiset().insert(value)) by {
            assert(s.to_multiset() =~= s2.to_multiset().remove(value));
        }
    }
}

/// Sorts edge triples ascending under `edge_le`.
fn sort_edges(edges: &Vec<(u64, u64, i64)>) -> (r: Vec<(u64, u64, i64)>)
    ensures
        r@.len() == edges@.len(),
        forall|t1: int, t2: int|
            0 <= t1 < t2 < r@.len() ==> edge_le(#[trigger] r@[t1], #[trigger] r@[t2]),
        r@.to_multiset() == edges@.to_multiset(),
{
    let n = edges.len();
    let mut r: Vec<(u64, u64, i64)> = Vec::new();
    let mut k: usize = 0;
    while k < n
        invariant
            n == edges@.len(),
            k <= n,
            r@.len() == k,
            forall|t1: int, t2: int|
                0 <= t1 < t2 < r@.len() ==> edge_le(#[trigger] r@[t1], #[trigger] r@[t2]),
            r@.to_multiset() == edges@.subrange(0, k as int).to_multiset(),
        decreases n - k,
    {
        proof {
            assert(edges@.subrange(0, k as int + 1).drop_last() =~= edges@.subrange(0, k as int));
            assert(edges@.subrange(0, k as int + 1) =~= edges@.subrange(0, k as int).push(
                edges@[k as int],
            ));
        }
        let e = edges[k];
        insert_edge(&mut r, e);
        proof {
            assert(edges@.subrange(0, k as int).push(edges@[k as int]).to_multiset()
                =~= edges@.subrange(0, k as int).to_multiset().insert(edges@[k as int]));
            assert(r@.to_multiset() =~= edges@.subrange(0, k as int + 1).to_multiset());
        }
        k = k + 1;
    }
    proof {
        assert(edges@.subrange(0, n as int) =~= edges@);
    }
    r
}

/// A vertex is its connectivity class's representative when no earlier
/// vertex is joined to it.
pub open spec fn is_class_rep(m: GraphModel, v: int) -> bool {
    0 <= v < m.labels.len() && forall|u: int| 0 <= u < v ==> !connects(m, u, v)
}

/// One flag per vertex: whether it represents its connectivity class.
pub open spec fn rep_row(m: GraphModel) -> Seq<bool> {
    Seq::new(m.labels.len(), |v: int| is_class_rep(m, v))
}

/// One flag per position: whether it is a set representative.
pub open spec fn root_row(ps: Seq<usize>) -> Seq<bool> {
    Seq::new(ps.len(), |i: int| crate::dsu::root_of(ps, i) == i)
}

impl Graph {
    /// Minimum spanning forest by Kruskal's scan: the canonical edges in
    /// ascending order (ties by endpoints), each accepted exactly when it
    /// joins two still-separate sets, stopping once `|V| - 1` edges are
    /// in.  The number of accepted edges is the vertex count minus the
    /// number of connectivity classes.
    #[verifier::rlimit(100)]
    pub fn get_mst_kruskal(&self) -> (r: Vec<(u64, u64, i64)>)
        requires
            self.wf(),
        ensures
            forall|t: int| 0 <= t < r@.len() ==> #[trigger] canonical_edge(self@, r@[t]),
            forall|t1: int, t2: int|
                0 <= t1 < t2 < r@.len() ==> (#[trigger] r@[t1]).2 <= (#[trigger] r@[t2]).2,
            r@.len() + count_trues(rep_row(self@)) == self@.labels.len(),
    {
        let ghost m = self@;
        let n = self.size();
        let edges = self.get_edges();
        let sorted = sort_edges(&edges);
        let ne = sorted.len();
        proof {
            assert forall|t: int| 0 <= t < sorted@.len() implies #[trigger] canonical_edge(
                m,
                sorted@[t],
            ) by {
                assert(sorted@.contains(sorted@[t]));
                assert(edges@.to_multiset().count(sorted@[t]) > 0);
                assert(edges@.contains(sorted@[t]));
                let t2 = choose|t2: int| 0 <= t2 < edges@.len() && edges@[t2] == sorted@[t];
                assert(canonical_edge(m, edges@[t2]));
            }
        }
        let mut d = crate::dsu::DSU::new(n);
        let mut r: Vec<(u64, u64, i64)> = Vec::new();
        proof {
            assert forall|i: int| 0 <= i < n implies root_row(d@)[i] by {}
            crate::counting::lemma_count_trues_full(root_row(d@));
            assert forall|x: int, y: int|
                0 <= x < n && 0 <= y < n && #[trigger] crate::dsu::same_set(d@, x, y)
                    implies connects(m, x, y) by {
                assert(crate::dsu::root_of(d@, x) == x && crate::dsu::root_of(d@, y) == y);
                lemma_walk_single(m, x as usize);
            }
        }
        let mut idx: usize = 0;
        while idx < ne && n - r.len() > 1
            invariant
                self.wf(),
                m == self@,
                n == m.labels.len(),
                ne == sorted@.len(),
                idx <= ne,
                d.wf(),
                d@.len() == n,
                forall|t: int| 0 <= t < sorted@.len() ==> #[trigger] canonical_edge(m, sorted@[t]),
                forall|t1: int, t2: int|
                    0 <= t1 < t2 < sorted@.len() ==> edge_le(
                        #[trigger] sorted@[t1],
                        #[trigger] sorted@[t2],
                    ),
                r@.len() + count_trues(root_row(d@)) == n,
                forall|t: int| 0 <= t < r@.len() ==> #[trigger] canonical_edge(m, r@[t]),
                forall|t1: int, t2: int|
                    0 <= t1 < t2 < r@.len() ==> edge_le(#[trigger] r@[t1], #[trigger] r@[t2]),
                forall|t: int, k2: int|
                    0 <= t < r@.len() && idx <= k2 < ne ==> edge_le(
                        #[trigger] r@[t],
                        #[trigger] sorted@[k2],
                    ),
                forall|x: int, y: int|
                    0 <= x < n && 0 <= y < n && #[trigger] crate::dsu::same_set(d@, x, y)
                        ==> connects(m, x, y),
                forall|t: int|
                    0 <= t < idx ==> crate::dsu::same_set(
                        d@,
                        lbl_idx(m, (#[trigger] sorted@[t]).0),
                        lbl_idx(m, sorted@[t].1),
                    ),
            decreases ne - idx,
        {
            let (la, lb, w) = sorted[idx];
            proof {
                assert(canonical_edge(m, sorted@[idx as int]));
                assert(sorted@[idx as int] == ((la, lb, w)));
            }
            let iu = match self.index_of(la) {
                Option::Some(i) => i,
                Option::None => {
                    proof {
                        assert(false);
                    }
                    0
                },
            };
            let iv = match self.index_of(lb) {
                Option::Some(i) => i,
                Option::None => {
                    proof {
                        assert(false);
                    }
                    0
                },
            };
            proof {
                lemma_lbl_idx_unique(m, la, iu as int);
                lemma_lbl_idx_unique(m, lb, iv as int);
                assert(adj_edge(m, iu as int, iv as int, w));
            }
            let ghost ps0 = d@;
            let ru = d.find(iu);
            let rv = d.find(iv);
            proof {
                assert(root_row(d@) =~= root_row(ps0));
                crate::counting::lemma_count_trues_agree(root_row(d@), root_row(ps0));
            }
            if ru != rv {
                let ghost r_was = r@;
                r.push((la, lb, w));
                let ghost ps1 = d@;
                d.union(iu, iv);
                proof {
                    let ri = crate::dsu::root_of(ps1, iu as int);
                    let rj = crate::dsu::root_of(ps1, iv as int);
                    crate::dsu::lemma_root_idempotent(ps1, iu as int);
                    crate::dsu::lemma_root_idempotent(ps1, iv as int);
                    let lo: int = if ri < rj {
                        ri
                    } else {
                        rj
                    };
                    let hi: int = if ri < rj {
                        rj
                    } else {
                        ri
                    };
                    assert(root_row(d@) =~= root_row(ps1).update(hi, false)) by {
                        assert forall|i: int|
                            0 <= i < n implies root_row(d@)[i] == root_row(ps1).update(
                            hi,
                            false,
                        )[i] by {
                            crate::dsu::lemma_root_idempotent(ps1, i);
                            if i == hi {
                            } else if crate::dsu::root_of(ps1, i) == hi {
                                assert(crate::dsu::root_of(d@, i) == lo);
                                assert(crate::dsu::root_of(ps1, lo) == lo);
                                assert(lo != i);
                            }
                        }
                    }
                    assert(root_row(ps1)[hi]);
                    lemma_count_trues_unset(root_row(ps1), hi);
                    // refinement survives uniting along a real edge
                    assert forall|x: int, y: int|
                        0 <= x < n && 0 <= y < n && #[trigger] crate::dsu::same_set(d@, x, y)
                            implies connects(m, x, y) by {
                        crate::dsu::lemma_root_idempotent(ps1, x);
                        crate::dsu::lemma_root_idempotent(ps1, y);
                        if crate::dsu::same_set(ps1, x, y) {
                            assert(crate::dsu::same_set(ps0, x, y));
                        } else {
                            assert(connects(m, iu as int, iv as int)) by {
                                lemma_walk_single(m, iu);
                                let q = seq![iu];
                                lemma_walk_extend(m, q, iv, w);
                            }
                            assert(crate::dsu::same_set(ps1, x, iu as int)
                                || crate::dsu::same_set(ps1, x, iv as int));
                            assert(crate::dsu::same_set(ps1, y, iu as int)
                                || crate::dsu::same_set(ps1, y, iv as int));
                            if crate::dsu::same_set(ps1, x, iu as int) {
                                assert(crate::dsu::same_set(ps0, x, iu as int));
                                assert(connects(m, x, iu as int));
                            } else {
                                assert(crate::dsu::same_set(ps1, x, iv as int));
                                assert(crate::dsu::same_set(ps0, x, iv as int));
                                assert(connects(m, x, iv as int));
                                lemma_connects_sym(m, iu as int, iv as int);
                                lemma_connects_trans(m, x, iv as int, iu as int);
                            }
                            assert(connects(m, x, iu as int));
                            if crate::dsu::same_set(ps1, y, iu as int) {
                                assert(crate::dsu::same_set(ps0, y, iu as int));
                                assert(connects(m, y, iu as int));
                            } else {
                                assert(crate::dsu::same_set(ps1, y, iv as int));
                                assert(crate::dsu::same_set(ps0, y, iv as int));
                                assert(connects(m, y, iv as int));
                                lemma_connects_sym(m, iu as int, iv as int);
                                lemma_connects_trans(m, y, iv as int, iu as int);
                            }
                            lemma_connects_sym(m, y, iu as int);
                            lemma_connects_trans(m, x, iu as int, y);
                        }
                    }
                    assert forall|t: int|
                        0 <= t < idx + 1 implies crate::dsu::same_set(
                        d@,
                        lbl_idx(m, (#[trigger] sorted@[t]).0),
                        lbl_idx(m, sorted@[t].1),
                    ) by {
                        if t < idx {
                            assert(crate::dsu::same_set(
                                ps0,
                                lbl_idx(m, sorted@[t].0),
                                lbl_idx(m, sorted@[t].1),
                            ));
                            assert(crate::dsu::same_set(
                                ps1,
                                lbl_idx(m, sorted@[t].0),
                                lbl_idx(m, sorted@[t].1),
                            ));
                        } else {
                            assert(crate::dsu::same_set(d@, iu as int, iv as int));
                        }
                    }
                    assert forall|t: int| 0 <= t < r@.len() implies #[trigger] canonical_edge(
                        m,
                        r@[t],
                    ) by {
                        if t < r_was.len() {
                            assert(r@[t] == r_was[t]);
                        } else {
                            assert(r@[t] == ((la, lb, w)));
                        }
                    }
                    assert forall|t1: int, t2: int|
                        0 <= t1 < t2 < r@.len() implies edge_le(
                        #[trigger] r@[t1],
                        #[trigger] r@[t2],
                    ) by {
                        if t2 < r_was.len() {
                            assert(r@[t1] == r_was[t1] && r@[t2] == r_was[t2]);
                        } else {
                            assert(r@[t1] == r_was[t1] && r@[t2] == ((la, lb, w)));
                            assert(edge_le(r_was[t1], sorted@[idx as int]));
                        }
                    }
                    assert forall|t: int, k2: int|
                        0 <= t < r@.len() && idx + 1 <= k2 < ne implies edge_le(
                        #[trigger] r@[t],
                        #[trigger] sorted@[k2],
                    ) by {
                        if t < r_was.len() {
                            assert(r@[t] == r_was[t]);
                            assert(edge_le(r_was[t], sorted@[k2]));
                        } else {
                            assert(r@[t] == sorted@[idx as int]);
                            assert(edge_le(sorted@[idx as int], sorted@[k2]));
                        }
                    }
                }
            } else {
                proof {
                    assert forall|x: int, y: int|
                        0 <= x < n && 0 <= y < n && #[trigger] crate::dsu::same_set(d@, x, y)
                            implies connects(m, x, y) by {
                        assert(crate::dsu::same_set(ps0, x, y));
                    }
                    assert forall|t: int|
                        0 <= t < idx + 1 implies crate::dsu::same_set(
                        d@,
                        lbl_idx(m, (#[trigger] sorted@[t]).0),
                        lbl_idx(m, sorted@[t].1),
                    ) by {
                        if t < idx {
                            assert(crate::dsu::same_set(
                                ps0,
                                lbl_idx(m, sorted@[t].0),
                                lbl_idx(m, sorted@[t].1),
                            ));
                        } else {
                            assert(crate::dsu::root_of(d@, iu as int) == crate::dsu::root_of(
                                ps0,
                                iu as int,
                            ));
                        }
                    }
                }
            }
            idx = idx + 1;
        }
        proof {
            // either every edge was scanned, or the forest is already
            // spanning: both ways sharing a set is exactly being joined
            assert forall|x: int, y: int|
                0 <= x < n && 0 <= y < n && connects(m, x, y)
                    implies #[trigger] crate::dsu::same_set(d@, x, y) by {
                if r@.len() + 1 >= n && n > 0 {
                    assert(count_trues(root_row(d@)) == n - r@.len());
                    crate::dsu::lemma_root_idempotent(d@, x);
                    crate::dsu::lemma_root_idempotent(d@, y);
                    let rx = crate::dsu::root_of(d@, x);
                    let ry = crate::dsu::root_of(d@, y);
                    if rx != ry {
                        assert(root_row(d@)[rx] && root_row(d@)[ry]);
                        lemma_count_trues_two(root_row(d@), rx, ry);
                        assert(false);
                    }
                } else {
                    assert(idx == ne);
                    assert forall|a: int, b: int, w: i64| #[trigger] adj_edge(m, a, b, w)
                        implies crate::dsu::same_set(d@, a, b) by {
                        let trip: (u64, u64, i64) = if m.labels[a] <= m.labels[b] {
                            (m.labels[a], m.labels[b], w)
                        } else {
                            (m.labels[b], m.labels[a], w)
                        };
                        assert(exists|t: int|
                            0 <= t < edges@.len() && #[trigger] edges@[t] == trip);
                        let t = choose|t: int|
                            0 <= t < edges@.len() && #[trigger] edges@[t] == trip;
                        assert(edges@.contains(trip)) by {
                            assert(edges@[t] == trip);
                        }
                        assert(sorted@.to_multiset().count(trip) > 0);
                        assert(sorted@.contains(trip));
                        let t2 = choose|t2: int| 0 <= t2 < sorted@.len() && sorted@[t2] == trip;
                        assert(crate::dsu::same_set(
                            d@,
                            lbl_idx(m, sorted@[t2].0),
                            lbl_idx(m, sorted@[t2].1),
                        ));
                        lemma_lbl_idx_unique(m, m.labels[a], a);
                        lemma_lbl_idx_unique(m, m.labels[b], b);
                    }
                    crate::connectivity::lemma_connect_implies_same_set(m, d@, x, y);
                }
            }
            // representatives of the partition are exactly the class
            // representatives of connectivity
            assert forall|v: int| 0 <= v < n implies root_row(d@)[v] == rep_row(m)[v] by {
                crate::dsu::lemma_root_idempotent(d@, v);
                if crate::dsu::root_of(d@, v) == v {
                    assert forall|u: int| 0 <= u < v implies !connects(m, u, v) by {
                        if connects(m, u, v) {
                            assert(crate::dsu::same_set(d@, u, v));
                            crate::dsu::lemma_root_idempotent(d@, u);
                            assert(false);
                        }
                    }
                } else {
                    let r0 = crate::dsu::root_of(d@, v);
                    assert(crate::dsu::same_set(d@, v, r0)) by {
                        crate::dsu::lemma_root_idempotent(d@, v);
                    }
                    assert(connects(m, v, r0));
                    lemma_connects_sym(m, v, r0);
                    assert(0 <= r0 < v);
                    assert(!is_class_rep(m, v));
                }
            }
            crate::counting::lemma_count_trues_agree(root_row(d@), rep_row(m));
        }
        r
    }
}


} // verus!
