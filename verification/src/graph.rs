//! The graph store: an undirected, weighted graph kept as vertex labels in
//! insertion order plus one adjacency list per vertex.  Contracts are stated
//! over `GraphModel`, the mathematical view of the store.

use vstd::prelude::*;

verus! {

/// Mathematical view of the graph store: the vertex labels in insertion
/// order, and for each vertex position its adjacency entries as pairs of
/// (neighbor position, edge weight).
pub struct GraphModel {
    pub labels: Seq<u64>,
    pub adj: Seq<Seq<(usize, i64)>>,
}

/// The adjacency list `l` holds an entry for neighbor position `x` with
/// weight `w`.
pub open spec fn has_entry(l: Seq<(usize, i64)>, x: int, w: i64) -> bool {
    exists|k: int| 0 <= k < l.len() && (#[trigger] l[k]).0 as int == x && l[k].1 == w
}

/// There is an edge from position `i` to position `j` with weight `w`.
pub open spec fn adj_edge(m: GraphModel, i: int, j: int, w: i64) -> bool {
    &&& 0 <= i < m.adj.len()
    &&& 0 <= j < m.labels.len()
    &&& has_entry(m.adj[i], j, w)
}

/// There is an edge from position `i` to position `j` of some weight.
pub open spec fn has_edge(m: GraphModel, i: int, j: int) -> bool {
    exists|w: i64| adj_edge(m, i, j, w)
}

/// Every neighbor position named in the list is below `n`.
pub open spec fn targets_below(l: Seq<(usize, i64)>, n: int) -> bool {
    forall|k: int| 0 <= k < l.len() ==> (#[trigger] l[k]).0 < n
}

/// No two entries of the list name the same neighbor.
pub open spec fn nodup_targets(l: Seq<(usize, i64)>) -> bool {
    forall|k1: int, k2: int|
        0 <= k1 < l.len() && 0 <= k2 < l.len() && k1 != k2
            ==> (#[trigger] l[k1]).0 != (#[trigger] l[k2]).0
}

/// Well-formedness of the store: one adjacency list per vertex, distinct
/// labels, neighbor positions in range, at most one entry per neighbor, and
/// undirected symmetry (each edge is recorded in both directions with the
/// same weight).
pub open spec fn model_wf(m: GraphModel) -> bool {
    &&& m.adj.len() == m.labels.len()
    &&& forall|i: int, j: int|
        0 <= i < m.labels.len() && 0 <= j < m.labels.len() && i != j
            ==> m.labels[i] != m.labels[j]
    &&& forall|i: int| 0 <= i < m.adj.len() ==> targets_below(#[trigger] m.adj[i], m.labels.len() as int)
    &&& forall|i: int| 0 <= i < m.adj.len() ==> nodup_targets(#[trigger] m.adj[i])
    &&& forall|i: int, j: int, w: i64| adj_edge(m, i, j, w) ==> adj_edge(m, j, i, w)
}

/// The label `l` is a vertex of the graph.
pub open spec fn has_label(m: GraphModel, l: u64) -> bool {
    exists|i: int| 0 <= i < m.labels.len() && m.labels[i] == l
}

/// Position of the label `l` among the vertices (meaningful when
/// `has_label(m, l)`; unique because labels are distinct).
pub open spec fn lbl_idx(m: GraphModel, l: u64) -> int {
    choose|i: int| 0 <= i < m.labels.len() && m.labels[i] == l
}

/// Adding a vertex to the model: a no-op when the label is already present,
/// otherwise the label and an empty adjacency list are appended.
pub open spec fn model_add_vertex(m: GraphModel, l: u64) -> GraphModel {
    if has_label(m, l) {
        m
    } else {
        GraphModel { labels: m.labels.push(l), adj: m.adj.push(Seq::empty()) }
    }
}

/// Inserting or overwriting the entry for neighbor `j` in one adjacency
/// list: last write wins, and a fresh neighbor is appended at the end.
pub open spec fn upsert(l: Seq<(usize, i64)>, j: usize, w: i64) -> Seq<(usize, i64)> {
    if exists|k: int| 0 <= k < l.len() && (#[trigger] l[k]).0 == j {
        let k = choose|k: int| 0 <= k < l.len() && (#[trigger] l[k]).0 == j;
        l.update(k, (j, w))
    } else {
        l.push((j, w))
    }
}

/// Adding an edge to the model: both endpoints are created when missing,
/// then the entry is written in both directions (once for a self-loop).
pub open spec fn model_add_edge(m: GraphModel, u: u64, v: u64, w: i64) -> GraphModel {
    let m1 = model_add_vertex(model_add_vertex(m, u), v);
    let iu = lbl_idx(m1, u);
    let iv = lbl_idx(m1, v);
    if iu == iv {
        GraphModel { labels: m1.labels, adj: m1.adj.update(iu, upsert(m1.adj[iu], iv as usize, w)) }
    } else {
        let a1 = m1.adj.update(iu, upsert(m1.adj[iu], iv as usize, w));
        GraphModel { labels: m1.labels, adj: a1.update(iv, upsert(a1[iv], iu as usize, w)) }
    }
}

/// The triple `e` is a canonically oriented edge of the graph: both labels
/// are vertices, the smaller label comes first, and the edge is present with
/// this weight.
pub open spec fn canonical_edge(m: GraphModel, e: (u64, u64, i64)) -> bool {
    &&& has_label(m, e.0)
    &&& has_label(m, e.1)
    &&& e.0 <= e.1
    &&& adj_edge(m, lbl_idx(m, e.0), lbl_idx(m, e.1), e.2)
}

/// The adjacency entry from position `ii` to `jj` with weight `ww` lies in
/// the region already scanned by `get_edges` (lists before `i` completely,
/// list `i` up to entry `k`).
pub open spec fn edge_done(m: GraphModel, i: int, k: int, ii: int, jj: int, ww: i64) -> bool {
    ||| ii < i
    ||| (ii == i && exists|ke: int|
        0 <= ke < k && (#[trigger] m.adj[ii][ke]).0 as int == jj && m.adj[ii][ke].1 == ww)
}

/// With distinct labels, any position holding `l` is the position chosen by
/// `lbl_idx`.
pub proof fn lemma_lbl_idx_unique(m: GraphModel, l: u64, i: int)
    requires
        model_wf(m),
        0 <= i < m.labels.len(),
        m.labels[i] == l,
    ensures
        lbl_idx(m, l) == i,
        has_label(m, l),
{
    assert(has_label(m, l));
    let j = lbl_idx(m, l);
    assert(0 <= j < m.labels.len() && m.labels[j] == l);
}

/// Appending a fresh, isolated vertex preserves well-formedness.
proof fn lemma_add_vertex_wf(m: GraphModel, l: u64)
    requires
        model_wf(m),
    ensures
        model_wf(model_add_vertex(m, l)),
{
    if !has_label(m, l) {
        let m2 = model_add_vertex(m, l);
        let n = m.labels.len() as int;
        assert forall|i: int, j: int, w: i64| adj_edge(m2, i, j, w) implies adj_edge(m2, j, i, w) by {
            assert(i < n) by {
                if i == n {
                    assert(m2.adj[i].len() == 0);
                }
            }
            assert(m2.adj[i] == m.adj[i]);
            assert(has_entry(m.adj[i], j, w));
            assert(targets_below(m.adj[i], n));
            let k = choose|k: int|
                0 <= k < m.adj[i].len() && (#[trigger] m.adj[i][k]).0 as int == j
                    && m.adj[i][k].1 == w;
            assert(m.adj[i][k].0 < m.labels.len());
            assert(j < n);
            assert(adj_edge(m, i, j, w));
            assert(adj_edge(m, j, i, w));
            assert(m2.adj[j] == m.adj[j]);
        }
    }
}

/// Membership in an upserted adjacency list: exactly the fresh entry plus
/// every old entry for a different neighbor.
proof fn lemma_upsert_membership(l: Seq<(usize, i64)>, j: usize, w: i64)
    requires
        nodup_targets(l),
    ensures
        forall|x: int, w2: i64| #[trigger]
            has_entry(upsert(l, j, w), x, w2)
                <==> ((x == j as int && w2 == w) || (x != j as int && has_entry(l, x, w2))),
        upsert(l, j, w).len() <= l.len() + 1,
        nodup_targets(upsert(l, j, w)),
        forall|k: int|
            0 <= k < upsert(l, j, w).len()
                ==> (#[trigger] upsert(l, j, w)[k]).0 == j || exists|k2: int|
                    0 <= k2 < l.len() && #[trigger] l[k2] == upsert(l, j, w)[k],
{
    let u = upsert(l, j, w);
    if exists|k: int| 0 <= k < l.len() && (#[trigger] l[k]).0 == j {
        let k0 = choose|k: int| 0 <= k < l.len() && (#[trigger] l[k]).0 == j;
        assert(u == l.update(k0, (j, w)));
        assert(u[k0] == (j, w));
        assert forall|x: int, w2: i64| #[trigger] has_entry(u, x, w2)
            implies ((x == j as int && w2 == w) || (x != j as int && has_entry(l, x, w2))) by {
            let k = choose|k: int|
                0 <= k < u.len() && (#[trigger] u[k]).0 as int == x && u[k].1 == w2;
            if k != k0 {
                assert(l[k] == u[k]);
                assert(l[k].0 != l[k0].0);
                assert(has_entry(l, x, w2));
            }
        }
        assert forall|x: int, w2: i64|
            ((x == j as int && w2 == w) || (x != j as int && has_entry(l, x, w2)))
                implies #[trigger] has_entry(u, x, w2) by {
            if x == j as int && w2 == w {
                assert(u[k0].0 as int == x && u[k0].1 == w2);
            } else {
                let k = choose|k: int|
                    0 <= k < l.len() && (#[trigger] l[k]).0 as int == x && l[k].1 == w2;
                assert(k != k0);
                assert(u[k] == l[k]);
                assert(u[k].0 as int == x && u[k].1 == w2);
            }
        }
        assert(nodup_targets(u)) by {
            assert forall|k: int| 0 <= k < u.len() implies (#[trigger] u[k]).0 == l[k].0 by {}
        }
    } else {
        assert(u == l.push((j, w)));
        assert(u[l.len() as int] == (j, w));
        assert forall|x: int, w2: i64| #[trigger] has_entry(u, x, w2)
            implies ((x == j as int && w2 == w) || (x != j as int && has_entry(l, x, w2))) by {
            let k = choose|k: int|
                0 <= k < u.len() && (#[trigger] u[k]).0 as int == x && u[k].1 == w2;
            if k < l.len() {
                assert(l[k] == u[k]);
                assert(l[k].0 != j);
                assert(has_entry(l, x, w2));
            }
        }
        assert forall|x: int, w2: i64|
            ((x == j as int && w2 == w) || (x != j as int && has_entry(l, x, w2)))
                implies #[trigger] has_entry(u, x, w2) by {
            if x == j as int && w2 == w {
                assert(u[l.len() as int].0 as int == x && u[l.len() as int].1 == w2);
            } else {
                let k = choose|k: int|
                    0 <= k < l.len() && (#[trigger] l[k]).0 as int == x && l[k].1 == w2;
                assert(u[k] == l[k]);
                assert(u[k].0 as int == x && u[k].1 == w2);
            }
        }
        assert(nodup_targets(u)) by {
            assert forall|k1: int, k2: int|
                0 <= k1 < u.len() && 0 <= k2 < u.len() && k1 != k2
                    implies (#[trigger] u[k1]).0 != (#[trigger] u[k2]).0 by {
                if k1 < l.len() && k2 < l.len() {
                } else if k1 < l.len() {
                    assert(u[k2].0 == j && l[k1].0 != j);
                } else {
                    assert(u[k1].0 == j && l[k2].0 != j);
                }
            }
        }
    }
}

/// Writing one undirected edge (both directions, or one for a self-loop)
/// preserves well-formedness.
proof fn lemma_add_edge_wf(m: GraphModel, u: u64, v: u64, w: i64)
    requires
        model_wf(m),
        model_add_vertex(model_add_vertex(m, u), v).labels.len() <= usize::MAX,
    ensures
        model_wf(model_add_edge(m, u, v, w)),
{
    lemma_add_vertex_wf(m, u);
    lemma_add_vertex_wf(model_add_vertex(m, u), v);
    let m1 = model_add_vertex(model_add_vertex(m, u), v);
    let iu = lbl_idx(m1, u);
    let iv = lbl_idx(m1, v);
    assert(has_label(m1, u)) by {
        if !has_label(m, u) {
            let m0 = model_add_vertex(m, u);
            assert(m0.labels[m0.labels.len() - 1] == u);
            if !has_label(m0, v) {
                assert(m1.labels[m0.labels.len() - 1] == u);
            }
        } else {
            let i = lbl_idx(m, u);
            assert(m.labels[i] == u);
            if !has_label(m, v) || !has_label(model_add_vertex(m, u), v) {
                assert(m1.labels[i] == u);
            }
        }
    }
    assert(has_label(m1, v)) by {
        if !has_label(model_add_vertex(m, u), v) {
            assert(m1.labels[m1.labels.len() - 1] == v);
        }
    }
    assert(0 <= iu < m1.labels.len() && m1.labels[iu] == u);
    assert(0 <= iv < m1.labels.len() && m1.labels[iv] == v);
    let m2 = model_add_edge(m, u, v, w);
    let n = m1.labels.len() as int;
    lemma_upsert_membership(m1.adj[iu], iv as usize, w);
    lemma_upsert_membership(m1.adj[iv], iu as usize, w);
    assert(m2.labels == m1.labels);
    assert(m2.adj.len() == m1.adj.len());
    assert forall|i: int| 0 <= i < m2.adj.len()
        implies targets_below(#[trigger] m2.adj[i], n) && nodup_targets(m2.adj[i]) by {
        if i == iu || i == iv {
            let (base, tgt): (Seq<(usize, i64)>, usize) = if i == iu {
                (m1.adj[iu], iv as usize)
            } else {
                (m1.adj[iv], iu as usize)
            };
            assert(m2.adj[i] == upsert(base, tgt, w));
            lemma_upsert_membership(base, tgt, w);
            let u2 = upsert(base, tgt, w);
            assert forall|k: int| 0 <= k < u2.len() implies (#[trigger] u2[k]).0 < n by {
                if u2[k].0 != tgt {
                    let k2 = choose|k2: int| 0 <= k2 < base.len() && #[trigger] base[k2] == u2[k];
                    assert(base[k2].0 < n);
                }
            }
        } else {
            assert(m2.adj[i] == m1.adj[i]);
        }
    }
    assert forall|i: int, j: int, w2: i64| adj_edge(m2, i, j, w2) implies adj_edge(m2, j, i, w2) by {
        lemma_add_edge_cases(m, u, v, w, i, j, w2);
        lemma_add_edge_cases(m, u, v, w, j, i, w2);
        if (i == iu && j == iv && w2 == w) || (i == iv && j == iu && w2 == w) {
        } else {
            assert(adj_edge(m1, i, j, w2));
            assert(adj_edge(m1, j, i, w2));
        }
    }
}

/// Case analysis for one direction of `model_add_edge`: which edges the
/// updated model has, in terms of the pre-update model.
proof fn lemma_add_edge_cases(m: GraphModel, u: u64, v: u64, w: i64, i: int, j: int, w2: i64)
    requires
        model_wf(m),
        model_add_vertex(model_add_vertex(m, u), v).labels.len() <= usize::MAX,
        model_wf(model_add_vertex(model_add_vertex(m, u), v)),
        has_label(model_add_vertex(model_add_vertex(m, u), v), u),
        has_label(model_add_vertex(model_add_vertex(m, u), v), v),
    ensures
        ({
            let m1 = model_add_vertex(model_add_vertex(m, u), v);
            let m2 = model_add_edge(m, u, v, w);
            let iu = lbl_idx(m1, u);
            let iv = lbl_idx(m1, v);
            adj_edge(m2, i, j, w2) <==> {
                ||| (i == iu && j == iv && w2 == w)
                ||| (i == iv && j == iu && w2 == w)
                ||| (!((i == iu && j == iv) || (i == iv && j == iu)) && adj_edge(m1, i, j, w2))
            }
        }),
{
    let m1 = model_add_vertex(model_add_vertex(m, u), v);
    let m2 = model_add_edge(m, u, v, w);
    let iu = lbl_idx(m1, u);
    let iv = lbl_idx(m1, v);
    assert(0 <= iu < m1.labels.len() && m1.labels[iu] == u);
    assert(0 <= iv < m1.labels.len() && m1.labels[iv] == v);
    lemma_upsert_membership(m1.adj[iu], iv as usize, w);
    lemma_upsert_membership(m1.adj[iv], iu as usize, w);
    if iu == iv {
        assert(m2.adj == m1.adj.update(iu, upsert(m1.adj[iu], iv as usize, w)));
    } else {
        let a1 = m1.adj.update(iu, upsert(m1.adj[iu], iv as usize, w));
        assert(a1[iv] == m1.adj[iv]);
        assert(m2.adj == a1.update(iv, upsert(a1[iv], iu as usize, w)));
        assert(m2.adj[iv] == upsert(m1.adj[iv], iu as usize, w));
    }
    if i == iu {
        assert(m2.adj[i] == upsert(m1.adj[iu], iv as usize, w));
        assert(has_entry(upsert(m1.adj[iu], iv as usize, w), j, w2)
            <==> ((j == iv as usize as int && w2 == w)
                || (j != iv as usize as int && has_entry(m1.adj[iu], j, w2))));
        assert(iv as usize as int == iv);
    } else if i == iv {
        assert(m2.adj[i] == upsert(m1.adj[iv], iu as usize, w));
        assert(has_entry(upsert(m1.adj[iv], iu as usize, w), j, w2)
            <==> ((j == iu as usize as int && w2 == w)
                || (j != iu as usize as int && has_entry(m1.adj[iv], j, w2))));
        assert(iu as usize as int == iu);
    } else {
        assert(m2.adj[i] == m1.adj[i] || !(0 <= i < m2.adj.len()));
    }
}

/// Looks up the entry for neighbor position `j` in one adjacency list.
fn find_entry(list: &Vec<(usize, i64)>, j: usize) -> (r: Option<i64>)
    ensures
        match r {
            Some(w) => has_entry(list@, j as int, w),
            None => forall|w: i64| !has_entry(list@, j as int, w),
        },
{
    let n = list.len();
    let mut k: usize = 0;
    while k < n
        invariant
            n == list@.len(),
            k <= n,
            forall|t: int| 0 <= t < k ==> (#[trigger] list@[t]).0 != j,
        decreases n - k,
    {
        let (x, w) = list[k];
        if x == j {
            proof {
                assert(list@[k as int].0 as int == j as int && list@[k as int].1 == w);
            }
            return Some(w);
        }
        k = k + 1;
    }
    proof {
        assert forall|w: i64| !has_entry(list@, j as int, w) by {
            if has_entry(list@, j as int, w) {
                let t = choose|t: int|
                    0 <= t < list@.len() && (#[trigger] list@[t]).0 as int == j as int
                        && list@[t].1 == w;
                assert(false);
            }
        }
    }
    None
}

/// Inserts or overwrites the entry for neighbor `j` in one adjacency list.
fn upsert_entry(list: &mut Vec<(usize, i64)>, j: usize, w: i64)
    requires
        nodup_targets(old(list)@),
    ensures
        final(list)@ == upsert(old(list)@, j, w),
{
    let n = list.len();
    let mut k: usize = 0;
    while k < n
        invariant
            n == list@.len(),
            k <= n,
            list@ == old(list)@,
            nodup_targets(old(list)@),
            forall|t: int| 0 <= t < k ==> (#[trigger] list@[t]).0 != j,
        decreases n - k,
    {
        if list[k].0 == j {
            proof {
                assert(old(list)@[k as int].0 == j);
                let k0 = choose|t: int| 0 <= t < old(list)@.len() && (#[trigger] old(list)@[t]).0 == j;
                assert(old(list)@[k0].0 == j);
                assert(k0 == k as int);
            }
            list[k] = (j, w);
            proof {
                assert(list@ =~= upsert(old(list)@, j, w));
            }
            return;
        }
        k = k + 1;
    }
    list.push((j, w));
    proof {
        assert(!(exists|t: int| 0 <= t < old(list)@.len() && (#[trigger] old(list)@[t]).0 == j));
        assert(list@ =~= upsert(old(list)@, j, w));
    }
}

/// Adjacency list with every entry for neighbor `j` removed; the order of
/// the remaining entries is kept.
pub open spec fn drop_nb(l: Seq<(usize, i64)>, j: usize) -> Seq<(usize, i64)>
    decreases l.len(),
{
    if l.len() == 0 {
        Seq::empty()
    } else {
        let rest = drop_nb(l.drop_last(), j);
        if l.last().0 == j {
            rest
        } else {
            rest.push(l.last())
        }
    }
}

/// Old position of a vertex, given its position `x` after the vertex at
/// `iv` was removed.
pub open spec fn shift_up(x: int, iv: int) -> int {
    if x < iv {
        x
    } else {
        x + 1
    }
}

/// Adjacency list after the vertex at position `iv` was removed: entries
/// for `iv` are dropped and higher positions move down by one.
pub open spec fn scrub(l: Seq<(usize, i64)>, iv: usize) -> Seq<(usize, i64)>
    decreases l.len(),
{
    if l.len() == 0 {
        Seq::empty()
    } else {
        let rest = scrub(l.drop_last(), iv);
        let e = l.last();
        if e.0 == iv {
            rest
        } else if e.0 > iv {
            rest.push(((e.0 - 1) as usize, e.1))
        } else {
            rest.push(e)
        }
    }
}

/// What `drop_nb` keeps: every entry except those for neighbor `j`.
proof fn lemma_drop_nb_props(l: Seq<(usize, i64)>, j: usize)
    ensures
        forall|x: int, w: i64| #[trigger]
            has_entry(drop_nb(l, j), x, w) <==> (x != j as int && has_entry(l, x, w)),
        forall|k: int|
            0 <= k < drop_nb(l, j).len() ==> exists|k2: int|
                0 <= k2 < l.len() && #[trigger] l[k2] == #[trigger] drop_nb(l, j)[k],
        nodup_targets(l) ==> nodup_targets(drop_nb(l, j)),
        (forall|k: int| 0 <= k < l.len() ==> (#[trigger] l[k]).0 != j) ==> drop_nb(l, j) == l,
    decreases l.len(),
{
    let d = drop_nb(l, j);
    if l.len() == 0 {
        assert forall|x: int, w: i64| #[trigger] has_entry(d, x, w)
            implies (x != j as int && has_entry(l, x, w)) by {
            let k = choose|k: int|
                0 <= k < d.len() && (#[trigger] d[k]).0 as int == x && d[k].1 == w;
        }
        assert(d =~= l);
    } else {
        let lp = l.drop_last();
        let e = l.last();
        lemma_drop_nb_props(lp, j);
        let rest = drop_nb(lp, j);
        assert forall|x: int, w: i64| #[trigger] has_entry(d, x, w)
            implies (x != j as int && has_entry(l, x, w)) by {
            let k = choose|k: int|
                0 <= k < d.len() && (#[trigger] d[k]).0 as int == x && d[k].1 == w;
            if e.0 != j && k == d.len() - 1 {
                assert(d[k] == e);
                assert(l[l.len() - 1] == e);
                assert(has_entry(l, x, w));
            } else {
                assert(d[k] == rest[k]);
                assert(has_entry(rest, x, w));
                let k2 = choose|k2: int|
                    0 <= k2 < lp.len() && (#[trigger] lp[k2]).0 as int == x && lp[k2].1 == w;
                assert(l[k2] == lp[k2]);
                assert(has_entry(l, x, w));
            }
        }
        assert forall|x: int, w: i64| x != j as int && has_entry(l, x, w)
            implies #[trigger] has_entry(d, x, w) by {
            let k = choose|k: int|
                0 <= k < l.len() && (#[trigger] l[k]).0 as int == x && l[k].1 == w;
            if k == l.len() - 1 {
                assert(e.0 as int == x && e.1 == w);
                assert(d[d.len() - 1] == e);
            } else {
                assert(lp[k] == l[k]);
                assert(has_entry(lp, x, w));
                assert(has_entry(rest, x, w));
                let k3 = choose|k3: int|
                    0 <= k3 < rest.len() && (#[trigger] rest[k3]).0 as int == x && rest[k3].1 == w;
                if e.0 == j {
                    assert(d[k3] == rest[k3]);
                } else {
                    assert(d[k3] == rest[k3]);
                }
            }
        }
        assert forall|k: int|
            0 <= k < d.len() implies exists|k2: int|
                0 <= k2 < l.len() && #[trigger] l[k2] == #[trigger] d[k] by {
            if e.0 != j && k == d.len() - 1 {
                assert(l[l.len() - 1] == d[k]);
            } else {
                assert(d[k] == rest[k]);
                let k2 = choose|k2: int| 0 <= k2 < lp.len() && #[trigger] lp[k2] == rest[k];
                assert(l[k2] == d[k]);
            }
        }
        if nodup_targets(l) {
            assert(nodup_targets(lp)) by {
                assert forall|k1: int, k2: int|
                    0 <= k1 < lp.len() && 0 <= k2 < lp.len() && k1 != k2
                        implies (#[trigger] lp[k1]).0 != (#[trigger] lp[k2]).0 by {
                    assert(l[k1] == lp[k1] && l[k2] == lp[k2]);
                }
            }
            assert(nodup_targets(d)) by {
                assert forall|k1: int, k2: int|
                    0 <= k1 < d.len() && 0 <= k2 < d.len() && k1 != k2
                        implies (#[trigger] d[k1]).0 != (#[trigger] d[k2]).0 by {
                    if e.0 != j && k2 == d.len() - 1 {
                        assert(d[k1] == rest[k1]);
                        assert(has_entry(rest, rest[k1].0 as int, rest[k1].1));
                        assert(has_entry(lp, d[k1].0 as int, d[k1].1));
                        let ko = choose|ko: int|
                            0 <= ko < lp.len() && (#[trigger] lp[ko]).0 as int == d[k1].0 as int
                                && lp[ko].1 == d[k1].1;
                        assert(l[ko] == lp[ko]);
                        assert(l[ko].0 != l[l.len() - 1].0);
                    } else if e.0 != j && k1 == d.len() - 1 {
                        assert(d[k2] == rest[k2]);
                        assert(has_entry(rest, rest[k2].0 as int, rest[k2].1));
                        assert(has_entry(lp, d[k2].0 as int, d[k2].1));
                        let ko = choose|ko: int|
                            0 <= ko < lp.len() && (#[trigger] lp[ko]).0 as int == d[k2].0 as int
                                && lp[ko].1 == d[k2].1;
                        assert(l[ko] == lp[ko]);
                        assert(l[ko].0 != l[l.len() - 1].0);
                    } else {
                        assert(d[k1] == rest[k1] && d[k2] == rest[k2]);
                    }
                }
            }
        }
        if forall|k: int| 0 <= k < l.len() ==> (#[trigger] l[k]).0 != j {
            assert forall|k: int| 0 <= k < lp.len() implies (#[trigger] lp[k]).0 != j by {
                assert(l[k] == lp[k]);
            }
            assert(l[l.len() - 1].0 != j);
            assert(d =~= l);
        }
    }
}

/// What `scrub` keeps: every entry except those for the removed position,
/// with higher positions moved down by one.
proof fn lemma_scrub_props(l: Seq<(usize, i64)>, iv: usize, n: int)
    requires
        nodup_targets(l),
        targets_below(l, n),
        iv < n,
    ensures
        forall|y: int, w: i64| #[trigger]
            has_entry(scrub(l, iv), y, w)
                <==> (y >= 0 && has_entry(l, shift_up(y, iv as int), w)),
        nodup_targets(scrub(l, iv)),
        targets_below(scrub(l, iv), n - 1),
    decreases l.len(),
{
    let d = scrub(l, iv);
    if l.len() == 0 {
        assert forall|y: int, w: i64| #[trigger] has_entry(d, y, w)
            implies (y >= 0 && has_entry(l, shift_up(y, iv as int), w)) by {
            let k = choose|k: int|
                0 <= k < d.len() && (#[trigger] d[k]).0 as int == y && d[k].1 == w;
        }
        assert forall|y: int, w: i64| y >= 0 && has_entry(l, shift_up(y, iv as int), w)
            implies #[trigger] has_entry(d, y, w) by {
            let k = choose|k: int|
                0 <= k < l.len() && (#[trigger] l[k]).0 as int == shift_up(y, iv as int)
                    && l[k].1 == w;
        }
    } else {
        let lp = l.drop_last();
        let e = l.last();
        assert(nodup_targets(lp) && targets_below(lp, n)) by {
            assert forall|k: int| 0 <= k < lp.len() implies (#[trigger] lp[k]).0 < n by {
                assert(l[k] == lp[k]);
            }
            assert forall|k1: int, k2: int|
                0 <= k1 < lp.len() && 0 <= k2 < lp.len() && k1 != k2
                    implies (#[trigger] lp[k1]).0 != (#[trigger] lp[k2]).0 by {
                assert(l[k1] == lp[k1] && l[k2] == lp[k2]);
            }
        }
        lemma_scrub_props(lp, iv, n);
        let rest = scrub(lp, iv);
        assert(forall|k: int| 0 <= k < lp.len() ==> (#[trigger] lp[k]).0 != e.0) by {
            assert forall|k: int| 0 <= k < lp.len() implies (#[trigger] lp[k]).0 != e.0 by {
                assert(l[k] == lp[k] && l[l.len() - 1] == e);
            }
        }
        assert forall|y: int, w: i64| #[trigger] has_entry(d, y, w)
            implies (y >= 0 && has_entry(l, shift_up(y, iv as int), w)) by {
            let k = choose|k: int|
                0 <= k < d.len() && (#[trigger] d[k]).0 as int == y && d[k].1 == w;
            if e.0 != iv && k == d.len() - 1 {
                assert(l[l.len() - 1] == e);
                if e.0 > iv {
                    assert(d[k] == (((e.0 - 1) as usize, e.1)));
                    assert(shift_up(y, iv as int) == e.0 as int);
                    assert(has_entry(l, e.0 as int, e.1));
                } else {
                    assert(d[k] == e);
                    assert(shift_up(y, iv as int) == e.0 as int);
                    assert(has_entry(l, e.0 as int, e.1));
                }
            } else {
                assert(d[k] == rest[k]);
                assert(has_entry(rest, y, w));
                let k2 = choose|k2: int|
                    0 <= k2 < lp.len() && (#[trigger] lp[k2]).0 as int == shift_up(y, iv as int)
                        && lp[k2].1 == w;
                assert(l[k2] == lp[k2]);
                assert(has_entry(l, shift_up(y, iv as int), w));
            }
        }
        assert forall|y: int, w: i64| y >= 0 && has_entry(l, shift_up(y, iv as int), w)
            implies #[trigger] has_entry(d, y, w) by {
            let k = choose|k: int|
                0 <= k < l.len() && (#[trigger] l[k]).0 as int == shift_up(y, iv as int)
                    && l[k].1 == w;
            if k == l.len() - 1 {
                assert(e.0 as int == shift_up(y, iv as int) && e.1 == w);
                if e.0 > iv {
                    assert(y == e.0 - 1);
                    assert(d[d.len() - 1] == (((e.0 - 1) as usize, e.1)));
                } else {
                    assert(e.0 != iv);
                    assert(y == e.0 as int);
                    assert(d[d.len() - 1] == e);
                }
            } else {
                assert(lp[k] == l[k]);
                assert(has_entry(lp, shift_up(y, iv as int), w));
                assert(has_entry(rest, y, w));
                let k3 = choose|k3: int|
                    0 <= k3 < rest.len() && (#[trigger] rest[k3]).0 as int == y && rest[k3].1 == w;
                assert(d[k3] == rest[k3]);
            }
        }
        assert(nodup_targets(d) && targets_below(d, n - 1)) by {
            assert forall|k: int| 0 <= k < d.len() implies (#[trigger] d[k]).0 < n - 1 by {
                if e.0 != iv && k == d.len() - 1 {
                    assert(l[l.len() - 1].0 < n);
                } else {
                    assert(d[k] == rest[k]);
                }
            }
            assert forall|k1: int, k2: int|
                0 <= k1 < d.len() && 0 <= k2 < d.len() && k1 != k2
                    implies (#[trigger] d[k1]).0 != (#[trigger] d[k2]).0 by {
                if e.0 != iv && (k1 == d.len() - 1 || k2 == d.len() - 1) {
                    let (ka, kb): (int, int) = if k1 == d.len() - 1 {
                        (k2, k1)
                    } else {
                        (k1, k2)
                    };
                    assert(d[ka] == rest[ka]);
                    assert(has_entry(rest, d[ka].0 as int, d[ka].1)) by {
                        assert((#[trigger] rest[ka]).0 as int == d[ka].0 as int
                            && rest[ka].1 == d[ka].1);
                    }
                    assert(has_entry(lp, shift_up(d[ka].0 as int, iv as int), d[ka].1));
                    let ko = choose|ko: int|
                        0 <= ko < lp.len()
                            && (#[trigger] lp[ko]).0 as int == shift_up(d[ka].0 as int, iv as int)
                            && lp[ko].1 == d[ka].1;
                    if d[ka].0 == d[kb].0 {
                        if e.0 > iv {
                            assert(d[kb].0 == e.0 - 1);
                            assert(shift_up(d[ka].0 as int, iv as int) == e.0 as int);
                            assert(lp[ko].0 == e.0);
                            assert(false);
                        } else {
                            assert(d[kb] == e);
                            assert(shift_up(d[ka].0 as int, iv as int) == e.0 as int);
                            assert(lp[ko].0 == e.0);
                            assert(false);
                        }
                    }
                } else {
                    assert(d[k1] == rest[k1] && d[k2] == rest[k2]);
                }
            }
        }
    }
}

/// One scan step of `get_edges` that records the entry `(j, w)` of list
/// `i`: the recorded triples stay canonical, pairwise distinct, and cover
/// exactly the scanned region.
proof fn lemma_edges_push_step(m: GraphModel, rs: Seq<(u64, u64, i64)>, i: int, k: int, j: int, w: i64)
    requires
        model_wf(m),
        0 <= i < m.labels.len(),
        0 <= k < m.adj[i].len(),
        0 <= j < m.labels.len(),
        m.adj[i][k].0 as int == j,
        m.adj[i][k].1 == w,
        m.labels[i] <= m.labels[j],
        forall|t: int| 0 <= t < rs.len() ==> #[trigger] canonical_edge(m, rs[t]),
        forall|t: int|
            0 <= t < rs.len() ==> #[trigger] edge_done(
                m, i, k, lbl_idx(m, rs[t].0), lbl_idx(m, rs[t].1), rs[t].2,
            ),
        forall|t1: int, t2: int|
            0 <= t1 < rs.len() && 0 <= t2 < rs.len() && t1 != t2
                ==> !((#[trigger] rs[t1]).0 == (#[trigger] rs[t2]).0 && rs[t1].1 == rs[t2].1),
        forall|ii: int, jj: int, ww: i64|
            #[trigger] adj_edge(m, ii, jj, ww) && m.labels[ii] <= m.labels[jj]
                && edge_done(m, i, k, ii, jj, ww)
                ==> exists|t: int|
                    0 <= t < rs.len() && #[trigger] rs[t] == (m.labels[ii], m.labels[jj], ww),
    ensures
        ({
            let rs2 = rs.push((m.labels[i], m.labels[j], w));
            &&& forall|t: int| 0 <= t < rs2.len() ==> #[trigger] canonical_edge(m, rs2[t])
            &&& forall|t: int|
                0 <= t < rs2.len() ==> #[trigger] edge_done(
                    m, i, k + 1, lbl_idx(m, rs2[t].0), lbl_idx(m, rs2[t].1), rs2[t].2,
                )
            &&& forall|t1: int, t2: int|
                0 <= t1 < rs2.len() && 0 <= t2 < rs2.len() && t1 != t2
                    ==> !((#[trigger] rs2[t1]).0 == (#[trigger] rs2[t2]).0
                        && rs2[t1].1 == rs2[t2].1)
            &&& forall|ii: int, jj: int, ww: i64|
                #[trigger] adj_edge(m, ii, jj, ww) && m.labels[ii] <= m.labels[jj]
                    && edge_done(m, i, k + 1, ii, jj, ww)
                    ==> exists|t: int|
                        0 <= t < rs2.len() && #[trigger] rs2[t]
                            == (m.labels[ii], m.labels[jj], ww)
        }),
{
    let la = m.labels[i];
    let lb = m.labels[j];
    let rs2 = rs.push((la, lb, w));
    lemma_lbl_idx_unique(m, la, i);
    lemma_lbl_idx_unique(m, lb, j);
    assert(nodup_targets(m.adj[i]));
    assert(adj_edge(m, i, j, w)) by {
        assert(m.adj[i][k].0 as int == j && m.adj[i][k].1 == w);
    }
    assert(canonical_edge(m, (la, lb, w)));
    // the fresh entry's pair is new: a duplicate would need a second
    // adjacency slot in list i for the same neighbor
    assert forall|t: int| 0 <= t < rs.len() implies !((#[trigger] rs[t]).0 == la && rs[t].1 == lb) by {
        if rs[t].0 == la && rs[t].1 == lb {
            assert(edge_done(m, i, k, lbl_idx(m, rs[t].0), lbl_idx(m, rs[t].1), rs[t].2));
            let ke = choose|ke: int|
                0 <= ke < k && (#[trigger] m.adj[i][ke]).0 as int == j && m.adj[i][ke].1 == rs[t].2;
            assert(m.adj[i][ke].0 == m.adj[i][k].0);
            assert(false);
        }
    }
    assert forall|t1: int, t2: int|
        0 <= t1 < rs2.len() && 0 <= t2 < rs2.len() && t1 != t2
            implies !((#[trigger] rs2[t1]).0 == (#[trigger] rs2[t2]).0
                && rs2[t1].1 == rs2[t2].1) by {
        if t1 < rs.len() && t2 < rs.len() {
            assert(rs2[t1] == rs[t1] && rs2[t2] == rs[t2]);
        } else if t1 < rs.len() {
            assert(rs2[t1] == rs[t1] && rs2[t2] == (la, lb, w));
        } else {
            assert(rs2[t2] == rs[t2] && rs2[t1] == (la, lb, w));
        }
    }
    assert forall|t: int| 0 <= t < rs2.len() implies #[trigger] canonical_edge(m, rs2[t]) by {
        if t < rs.len() {
            assert(rs2[t] == rs[t]);
            assert(canonical_edge(m, rs[t]));
        } else {
            assert(rs2[t] == (la, lb, w));
        }
    }
    assert forall|t: int|
        0 <= t < rs2.len() implies #[trigger] edge_done(
            m, i, k + 1, lbl_idx(m, rs2[t].0), lbl_idx(m, rs2[t].1), rs2[t].2,
        ) by {
        if t < rs.len() {
            assert(rs2[t] == rs[t]);
            assert(edge_done(m, i, k, lbl_idx(m, rs[t].0), lbl_idx(m, rs[t].1), rs[t].2));
        } else {
            assert(rs2[t] == (la, lb, w));
            assert(edge_done(m, i, k + 1, i, j, w)) by {
                assert(m.adj[i][k].0 as int == j && m.adj[i][k].1 == w);
            }
        }
    }
    assert forall|ii: int, jj: int, ww: i64|
        #[trigger] adj_edge(m, ii, jj, ww) && m.labels[ii] <= m.labels[jj]
            && edge_done(m, i, k + 1, ii, jj, ww)
            implies exists|t: int|
                0 <= t < rs2.len() && #[trigger] rs2[t] == (m.labels[ii], m.labels[jj], ww) by {
        if edge_done(m, i, k, ii, jj, ww) {
            let t = choose|t: int|
                0 <= t < rs.len() && #[trigger] rs[t] == (m.labels[ii], m.labels[jj], ww);
            assert(rs2[t] == rs[t]);
        } else {
            assert(ii == i);
            let ke = choose|ke: int|
                0 <= ke < k + 1 && (#[trigger] m.adj[ii][ke]).0 as int == jj
                    && m.adj[ii][ke].1 == ww;
            assert(ke == k);
            assert(jj == j && ww == w);
            assert(rs2[rs.len() as int] == (m.labels[ii], m.labels[jj], ww));
        }
    }
}

/// One scan step of `get_edges` that skips the entry `(j, w)` of list `i`
/// because the reverse orientation is the canonical one.
proof fn lemma_edges_skip_step(m: GraphModel, rs: Seq<(u64, u64, i64)>, i: int, k: int, j: int, w: i64)
    requires
        model_wf(m),
        0 <= i < m.labels.len(),
        0 <= k < m.adj[i].len(),
        0 <= j < m.labels.len(),
        m.adj[i][k].0 as int == j,
        m.adj[i][k].1 == w,
        !(m.labels[i] <= m.labels[j]),
        forall|t: int|
            0 <= t < rs.len() ==> #[trigger] edge_done(
                m, i, k, lbl_idx(m, rs[t].0), lbl_idx(m, rs[t].1), rs[t].2,
            ),
        forall|ii: int, jj: int, ww: i64|
            #[trigger] adj_edge(m, ii, jj, ww) && m.labels[ii] <= m.labels[jj]
                && edge_done(m, i, k, ii, jj, ww)
                ==> exists|t: int|
                    0 <= t < rs.len() && #[trigger] rs[t] == (m.labels[ii], m.labels[jj], ww),
    ensures
        forall|t: int|
            0 <= t < rs.len() ==> #[trigger] edge_done(
                m, i, k + 1, lbl_idx(m, rs[t].0), lbl_idx(m, rs[t].1), rs[t].2,
            ),
        forall|ii: int, jj: int, ww: i64|
            #[trigger] adj_edge(m, ii, jj, ww) && m.labels[ii] <= m.labels[jj]
                && edge_done(m, i, k + 1, ii, jj, ww)
                ==> exists|t: int|
                    0 <= t < rs.len() && #[trigger] rs[t] == (m.labels[ii], m.labels[jj], ww),
{
    assert(nodup_targets(m.adj[i]));
    assert forall|t: int|
        0 <= t < rs.len() implies #[trigger] edge_done(
            m, i, k + 1, lbl_idx(m, rs[t].0), lbl_idx(m, rs[t].1), rs[t].2,
        ) by {
        assert(edge_done(m, i, k, lbl_idx(m, rs[t].0), lbl_idx(m, rs[t].1), rs[t].2));
    }
    assert forall|ii: int, jj: int, ww: i64|
        #[trigger] adj_edge(m, ii, jj, ww) && m.labels[ii] <= m.labels[jj]
            && edge_done(m, i, k + 1, ii, jj, ww)
            implies exists|t: int|
                0 <= t < rs.len() && #[trigger] rs[t] == (m.labels[ii], m.labels[jj], ww) by {
        if !edge_done(m, i, k, ii, jj, ww) {
            assert(ii == i);
            let ke = choose|ke: int|
                0 <= ke < k + 1 && (#[trigger] m.adj[ii][ke]).0 as int == jj
                    && m.adj[ii][ke].1 == ww;
            assert(ke == k);
            assert(jj == j);
            assert(false);
        }
    }
}

/// Moving the `get_edges` scan to the next adjacency list keeps the
/// invariants: the finished list is wholly inside the scanned region.
proof fn lemma_edges_next_list(m: GraphModel, rs: Seq<(u64, u64, i64)>, i: int)
    requires
        model_wf(m),
        0 <= i < m.labels.len(),
        forall|t: int|
            0 <= t < rs.len() ==> #[trigger] edge_done(
                m, i, m.adj[i].len() as int,
                lbl_idx(m, rs[t].0), lbl_idx(m, rs[t].1), rs[t].2,
            ),
        forall|ii: int, jj: int, ww: i64|
            #[trigger] adj_edge(m, ii, jj, ww) && m.labels[ii] <= m.labels[jj]
                && edge_done(m, i, m.adj[i].len() as int, ii, jj, ww)
                ==> exists|t: int|
                    0 <= t < rs.len() && #[trigger] rs[t] == (m.labels[ii], m.labels[jj], ww),
    ensures
        forall|t: int|
            0 <= t < rs.len() ==> #[trigger] edge_done(
                m, i + 1, 0, lbl_idx(m, rs[t].0), lbl_idx(m, rs[t].1), rs[t].2,
            ),
        forall|ii: int, jj: int, ww: i64|
            #[trigger] adj_edge(m, ii, jj, ww) && m.labels[ii] <= m.labels[jj]
                && edge_done(m, i + 1, 0, ii, jj, ww)
                ==> exists|t: int|
                    0 <= t < rs.len() && #[trigger] rs[t] == (m.labels[ii], m.labels[jj], ww),
{
    assert forall|t: int|
        0 <= t < rs.len() implies #[trigger] edge_done(
            m, i + 1, 0, lbl_idx(m, rs[t].0), lbl_idx(m, rs[t].1), rs[t].2,
        ) by {
        assert(edge_done(
            m, i, m.adj[i].len() as int,
            lbl_idx(m, rs[t].0), lbl_idx(m, rs[t].1), rs[t].2,
        ));
    }
    assert forall|ii: int, jj: int, ww: i64|
        #[trigger] adj_edge(m, ii, jj, ww) && m.labels[ii] <= m.labels[jj]
            && edge_done(m, i + 1, 0, ii, jj, ww)
            implies exists|t: int|
                0 <= t < rs.len() && #[trigger] rs[t] == (m.labels[ii], m.labels[jj], ww) by {
        if !(ii < i) {
            assert(ii == i);
            let ke = choose|ke: int|
                0 <= ke < m.adj[ii].len() && (#[trigger] m.adj[ii][ke]).0 as int == jj
                    && m.adj[ii][ke].1 == ww;
            assert(edge_done(m, i, m.adj[i].len() as int, ii, jj, ww));
        }
    }
}

/// Removing one undirected edge from the model (both directions, or one
/// entry for a self-loop) keeps well-formedness and removes exactly that
/// edge.
proof fn lemma_remove_edge_model(m: GraphModel, iu: usize, iv: usize, m2: GraphModel)
    requires
        model_wf(m),
        (iu as int) < m.labels.len(),
        (iv as int) < m.labels.len(),
        m2.labels == m.labels,
        m2.adj == if iu == iv {
            m.adj.update(iu as int, drop_nb(m.adj[iu as int], iv))
        } else {
            m.adj.update(iu as int, drop_nb(m.adj[iu as int], iv)).update(
                iv as int,
                drop_nb(m.adj[iv as int], iu),
            )
        },
    ensures
        model_wf(m2),
        forall|x: int, y: int, w: i64| #[trigger]
            adj_edge(m2, x, y, w) <==> (adj_edge(m, x, y, w) && !((x == iu as int
                && y == iv as int) || (x == iv as int && y == iu as int))),
{
    lemma_drop_nb_props(m.adj[iu as int], iv);
    lemma_drop_nb_props(m.adj[iv as int], iu);
    assert(nodup_targets(m.adj[iu as int]));
    assert(nodup_targets(m.adj[iv as int]));
    let n = m.labels.len() as int;
    assert forall|x: int, y: int, w: i64| #[trigger] adj_edge(m2, x, y, w)
        implies (adj_edge(m, x, y, w) && !((x == iu as int && y == iv as int) || (x == iv as int
            && y == iu as int))) by {
        if x == iu as int {
            assert(m2.adj[x] == drop_nb(m.adj[iu as int], iv));
        } else if x == iv as int {
            assert(m2.adj[x] == drop_nb(m.adj[iv as int], iu));
        } else {
            assert(m2.adj[x] == m.adj[x]);
        }
    }
    assert forall|x: int, y: int, w: i64|
        adj_edge(m, x, y, w) && !((x == iu as int && y == iv as int) || (x == iv as int
            && y == iu as int)) implies #[trigger] adj_edge(m2, x, y, w) by {
        if x == iu as int {
            assert(m2.adj[x] == drop_nb(m.adj[iu as int], iv));
            assert(has_entry(m2.adj[x], y, w));
        } else if x == iv as int {
            assert(m2.adj[x] == drop_nb(m.adj[iv as int], iu));
            assert(has_entry(m2.adj[x], y, w));
        } else {
            assert(m2.adj[x] == m.adj[x]);
        }
    }
    assert(model_wf(m2)) by {
        assert forall|i: int| 0 <= i < m2.adj.len()
            implies targets_below(#[trigger] m2.adj[i], n) && nodup_targets(m2.adj[i]) by {
            if i == iu as int || i == iv as int {
                let base = if i == iu as int {
                    m.adj[iu as int]
                } else {
                    m.adj[iv as int]
                };
                let tgt = if i == iu as int {
                    iv
                } else {
                    iu
                };
                assert(m2.adj[i] == drop_nb(base, tgt));
                lemma_drop_nb_props(base, tgt);
                assert forall|k: int| 0 <= k < m2.adj[i].len()
                    implies (#[trigger] m2.adj[i][k]).0 < n by {
                    let k2 = choose|k2: int|
                        0 <= k2 < base.len() && #[trigger] base[k2] == drop_nb(base, tgt)[k];
                    assert(base[k2].0 < n);
                }
            } else {
                assert(m2.adj[i] == m.adj[i]);
            }
        }
        assert forall|x: int, y: int, w: i64| adj_edge(m2, x, y, w)
            implies adj_edge(m2, y, x, w) by {
            assert(adj_edge(m, x, y, w));
            assert(adj_edge(m, y, x, w));
        }
    }
}

/// Removing the vertex at position `iv` from the model keeps
/// well-formedness; the remaining edges are exactly the old edges between
/// the remaining vertices, at their new positions.
proof fn lemma_remove_vertex_model(m: GraphModel, iv: usize)
    requires
        model_wf(m),
        (iv as int) < m.labels.len(),
    ensures
        ({
            let m2 = GraphModel {
                labels: m.labels.remove(iv as int),
                adj: Seq::new(
                    (m.labels.len() - 1) as nat,
                    |x: int| scrub(m.adj[shift_up(x, iv as int)], iv),
                ),
            };
            &&& model_wf(m2)
            &&& forall|x: int, y: int, w: i64| #[trigger]
                adj_edge(m2, x, y, w) <==> adj_edge(
                    m,
                    shift_up(x, iv as int),
                    shift_up(y, iv as int),
                    w,
                )
        }),
{
    let n = m.labels.len() as int;
    let m2 = GraphModel {
        labels: m.labels.remove(iv as int),
        adj: Seq::new((m.labels.len() - 1) as nat, |x: int| scrub(m.adj[shift_up(x, iv as int)], iv)),
    };
    assert forall|x: int| 0 <= x < n - 1 implies {
        &&& nodup_targets(#[trigger] m2.adj[x])
        &&& targets_below(m2.adj[x], n - 1)
        &&& forall|y: int, w: i64| #[trigger]
            has_entry(m2.adj[x], y, w) <==> (y >= 0 && has_entry(
                m.adj[shift_up(x, iv as int)],
                shift_up(y, iv as int),
                w,
            ))
    } by {
        let sx = shift_up(x, iv as int);
        assert(0 <= sx < n && sx != iv as int);
        assert(nodup_targets(m.adj[sx]) && targets_below(m.adj[sx], n));
        lemma_scrub_props(m.adj[sx], iv, n);
        assert(m2.adj[x] == scrub(m.adj[sx], iv));
    }
    assert forall|x: int, y: int, w: i64| #[trigger] adj_edge(m2, x, y, w) implies adj_edge(
        m,
        shift_up(x, iv as int),
        shift_up(y, iv as int),
        w,
    ) by {
        assert(has_entry(m2.adj[x], y, w));
    }
    assert forall|x: int, y: int, w: i64|
        adj_edge(m, shift_up(x, iv as int), shift_up(y, iv as int), w) && !(0 <= x < n - 1
            && 0 <= y < n - 1) implies false by {
        if x < 0 || y < 0 {
        } else {
            assert(shift_up(x, iv as int) >= n || shift_up(y, iv as int) >= n);
        }
    }
    assert forall|x: int, y: int, w: i64|
        adj_edge(m, shift_up(x, iv as int), shift_up(y, iv as int), w) implies #[trigger] adj_edge(
        m2,
        x,
        y,
        w,
    ) by {
        assert(0 <= x < n - 1 && 0 <= y < n - 1);
        assert(has_entry(m2.adj[x], y, w));
    }
    assert(model_wf(m2)) by {
        assert(m2.adj.len() == m2.labels.len());
        assert forall|i: int, j: int|
            0 <= i < m2.labels.len() && 0 <= j < m2.labels.len() && i != j
                implies m2.labels[i] != m2.labels[j] by {
            assert(m2.labels[i] == m.labels[shift_up(i, iv as int)]);
            assert(m2.labels[j] == m.labels[shift_up(j, iv as int)]);
        }
        assert forall|x: int, y: int, w: i64| adj_edge(m2, x, y, w) implies adj_edge(
            m2,
            y,
            x,
            w,
        ) by {
            assert(adj_edge(m, shift_up(x, iv as int), shift_up(y, iv as int), w));
            assert(adj_edge(m, shift_up(y, iv as int), shift_up(x, iv as int), w));
        }
    }
}

/// Removes every entry for neighbor `j` from one adjacency list.
fn drop_entries(list: &mut Vec<(usize, i64)>, j: usize)
    ensures
        final(list)@ == drop_nb(old(list)@, j),
{
    let n = list.len();
    let mut out: Vec<(usize, i64)> = Vec::new();
    let mut k: usize = 0;
    while k < n
        invariant
            n == list@.len(),
            list@ == old(list)@,
            k <= n,
            out@ == drop_nb(list@.subrange(0, k as int), j),
        decreases n - k,
    {
        let (x, w) = list[k];
        proof {
            assert(list@.subrange(0, k as int + 1).drop_last() =~= list@.subrange(0, k as int));
            assert(list@.subrange(0, k as int + 1).last() == list@[k as int]);
        }
        if x != j {
            out.push((x, w));
        }
        k = k + 1;
    }
    proof {
        assert(list@.subrange(0, n as int) =~= list@);
    }
    *list = out;
}

/// Rewrites one adjacency list after the vertex at position `iv` was
/// removed: entries for `iv` go away, higher positions move down by one.
fn scrub_entries(list: &mut Vec<(usize, i64)>, iv: usize)
    ensures
        final(list)@ == scrub(old(list)@, iv),
{
    let n = list.len();
    let mut out: Vec<(usize, i64)> = Vec::new();
    let mut k: usize = 0;
    while k < n
        invariant
            n == list@.len(),
            list@ == old(list)@,
            k <= n,
            out@ == scrub(list@.subrange(0, k as int), iv),
        decreases n - k,
    {
        let (x, w) = list[k];
        proof {
            assert(list@.subrange(0, k as int + 1).drop_last() =~= list@.subrange(0, k as int));
            assert(list@.subrange(0, k as int + 1).last() == list@[k as int]);
        }
        if x == iv {
        } else if x > iv {
            out.push((x - 1, w));
        } else {
            out.push((x, w));
        }
        k = k + 1;
    }
    proof {
        assert(list@.subrange(0, n as int) =~= list@);
    }
    *list = out;
}

/// Adjacency-list graph store for an undirected, weighted graph.
pub struct Graph {
    verts: Vec<u64>,
    adj: Vec<Vec<(usize, i64)>>,
}

impl View for Graph {
    type V = GraphModel;

    closed spec fn view(&self) -> GraphModel {
        GraphModel {
            labels: self.verts@,
            adj: self.adj@.map_values(|l: Vec<(usize, i64)>| l@),
        }
    }
}

impl Graph {
    /// The store's invariant, which every operation preserves.
    pub open spec fn wf(self) -> bool {
        model_wf(self@)
    }

    /// Creates an empty graph.
    pub fn new() -> (g: Graph)
        ensures
            g.wf(),
            g@.labels.len() == 0,
            g@.adj.len() == 0,
    {
        let g = Graph { verts: Vec::new(), adj: Vec::new() };
        proof {
            assert(g@.adj =~= Seq::<Seq<(usize, i64)>>::empty());
        }
        g
    }

    /// Number of vertices.
    pub fn size(&self) -> (n: usize)
        ensures
            n == self@.labels.len(),
    {
        self.verts.len()
    }

    /// Whether the graph has no vertices.
    pub fn is_empty(&self) -> (r: bool)
        ensures
            r == (self@.labels.len() == 0),
    {
        self.verts.len() == 0
    }

    /// Removes every vertex and edge.
    pub fn clear(&mut self) -> (r: bool)
        ensures
            r,
            final(self).wf(),
            final(self)@.labels.len() == 0,
            final(self)@.adj.len() == 0,
    {
        self.verts.clear();
        self.adj.clear();
        proof {
            assert(self@.adj =~= Seq::<Seq<(usize, i64)>>::empty());
        }
        true
    }

    /// All vertex labels, in insertion order.
    pub fn get_vertices(&self) -> (v: Vec<u64>)
        ensures
            v@ == self@.labels,
    {
        self.verts.clone()
    }

    /// Label stored at position `i`.
    pub(crate) fn label_at(&self, i: usize) -> (l: u64)
        requires
            i < self@.labels.len(),
        ensures
            l == self@.labels[i as int],
    {
        self.verts[i]
    }

    /// Adjacency list of the vertex at position `i`.
    pub(crate) fn adj_at(&self, i: usize) -> (l: &Vec<(usize, i64)>)
        requires
            i < self@.adj.len(),
        ensures
            l@ == self@.adj[i as int],
    {
        &self.adj[i]
    }

    /// Adds a vertex with no edges; adding an existing label changes nothing.
    pub fn add_vertex(&mut self, vertex: u64) -> (r: bool)
        requires
            old(self).wf(),
        ensures
            r,
            final(self).wf(),
            final(self)@ == model_add_vertex(old(self)@, vertex),
    {
        match self.index_of(vertex) {
            Some(i) => {
                proof {
                    assert(has_label(self@, vertex));
                }
                true
            },
            None => {
                self.verts.push(vertex);
                self.adj.push(Vec::new());
                proof {
                    assert(self@.adj =~= old(self)@.adj.push(Seq::empty()));
                    assert(self@ == model_add_vertex(old(self)@, vertex));
                    lemma_add_vertex_wf(old(self)@, vertex);
                }
                true
            },
        }
    }

    /// Adds (or, when present, overwrites the weight of) the undirected edge
    /// between the two labels, creating missing endpoints first.
    pub fn add_edge(&mut self, vertex1: u64, vertex2: u64, weight: i64) -> (r: bool)
        requires
            old(self).wf(),
        ensures
            r,
            final(self).wf(),
            final(self)@ == model_add_edge(old(self)@, vertex1, vertex2, weight),
    {
        self.add_vertex(vertex1);
        self.add_vertex(vertex2);
        let ghost m1 = self@;
        let count_now = self.verts.len();
        proof {
            assert(m1.labels.len() == count_now);
            assert(has_label(m1, vertex1)) by {
                let m0 = model_add_vertex(old(self)@, vertex1);
                assert(has_label(m0, vertex1)) by {
                    if !has_label(old(self)@, vertex1) {
                        assert(m0.labels[m0.labels.len() - 1] == vertex1);
                    }
                }
                let i = lbl_idx(m0, vertex1);
                if !has_label(m0, vertex2) {
                    assert(m1.labels[i] == vertex1);
                }
            }
            assert(has_label(m1, vertex2)) by {
                if !has_label(model_add_vertex(old(self)@, vertex1), vertex2) {
                    assert(m1.labels[m1.labels.len() - 1] == vertex2);
                }
            }
        }
        let iu = match self.index_of(vertex1) {
            Some(i) => i,
            None => {
                proof {
                    assert(false);
                }
                0
            },
        };
        let iv = match self.index_of(vertex2) {
            Some(i) => i,
            None => {
                proof {
                    assert(false);
                }
                0
            },
        };
        proof {
            lemma_lbl_idx_unique(m1, vertex1, iu as int);
            lemma_lbl_idx_unique(m1, vertex2, iv as int);
            assert(self.adj@.len() == m1.adj.len());
            assert(self@.adj[iu as int] == self.adj@[iu as int]@);
            assert(self@.adj[iv as int] == self.adj@[iv as int]@);
            assert(nodup_targets(m1.adj[iu as int]));
            assert(nodup_targets(m1.adj[iv as int]));
        }
        if iu == iv {
            upsert_entry(&mut self.adj[iu], iv, weight);
            proof {
                assert(self@.adj =~= m1.adj.update(iu as int, upsert(m1.adj[iu as int], iv, weight)));
                assert(self@ == model_add_edge(old(self)@, vertex1, vertex2, weight));
                lemma_add_edge_wf(old(self)@, vertex1, vertex2, weight);
            }
        } else {
            upsert_entry(&mut self.adj[iu], iv, weight);
            let ghost ma = self@;
            proof {
                assert(ma.adj =~= m1.adj.update(iu as int, upsert(m1.adj[iu as int], iv, weight)));
                assert(self@.adj[iv as int] == self.adj@[iv as int]@);
                assert(ma.adj[iv as int] == m1.adj[iv as int]);
                assert(nodup_targets(ma.adj[iv as int]));
            }
            upsert_entry(&mut self.adj[iv], iu, weight);
            proof {
                assert(self@.adj =~= ma.adj.update(iv as int, upsert(ma.adj[iv as int], iu, weight)));
                assert(self@ == model_add_edge(old(self)@, vertex1, vertex2, weight));
                lemma_add_edge_wf(old(self)@, vertex1, vertex2, weight);
            }
        }
        true
    }

    /// Weight of the edge between two labels, when both exist and the edge
    /// is present.
    pub fn get_edge_weight(&self, vertex1: u64, vertex2: u64) -> (r: Option<i64>)
        requires
            self.wf(),
        ensures
            match r {
                Some(w) => has_label(self@, vertex1) && has_label(self@, vertex2)
                    && adj_edge(self@, lbl_idx(self@, vertex1), lbl_idx(self@, vertex2), w),
                None => !has_label(self@, vertex1) || !has_label(self@, vertex2)
                    || !has_edge(self@, lbl_idx(self@, vertex1), lbl_idx(self@, vertex2)),
            },
    {
        let iu = match self.index_of(vertex1) {
            Some(i) => i,
            None => {
                return None;
            },
        };
        let iv = match self.index_of(vertex2) {
            Some(i) => i,
            None => {
                return None;
            },
        };
        proof {
            lemma_lbl_idx_unique(self@, vertex1, iu as int);
            lemma_lbl_idx_unique(self@, vertex2, iv as int);
            assert(self@.adj[iu as int] == self.adj@[iu as int]@);
        }
        match find_entry(&self.adj[iu], iv) {
            Some(w) => {
                proof {
                    assert(adj_edge(self@, iu as int, iv as int, w));
                }
                Some(w)
            },
            None => {
                proof {
                    assert(!has_edge(self@, iu as int, iv as int)) by {
                        if has_edge(self@, iu as int, iv as int) {
                            let w = choose|w: i64| adj_edge(self@, iu as int, iv as int, w);
                            assert(has_entry(self@.adj[iu as int], iv as int, w));
                            assert(false);
                        }
                    }
                }
                None
            },
        }
    }

    /// Whether an edge joins the two labels.
    pub fn get_edge(&self, vertex1: u64, vertex2: u64) -> (r: bool)
        requires
            self.wf(),
        ensures
            r == (has_label(self@, vertex1) && has_label(self@, vertex2)
                && has_edge(self@, lbl_idx(self@, vertex1), lbl_idx(self@, vertex2))),
    {
        match self.get_edge_weight(vertex1, vertex2) {
            Some(w) => {
                proof {
                    assert(has_edge(self@, lbl_idx(self@, vertex1), lbl_idx(self@, vertex2)));
                }
                true
            },
            None => false,
        }
    }

    /// The neighbors of a vertex with the edge weights, or nothing when the
    /// label is not in the graph.
    pub fn get_neighbors(&self, vertex: u64) -> (r: Option<Vec<(u64, i64)>>)
        requires
            self.wf(),
        ensures
            match r {
                Some(l) => {
                    &&& has_label(self@, vertex)
                    &&& l@.len() == self@.adj[lbl_idx(self@, vertex)].len()
                    &&& forall|k: int|
                        0 <= k < l@.len() ==> #[trigger] l@[k] == (
                            self@.labels[self@.adj[lbl_idx(self@, vertex)][k].0 as int],
                            self@.adj[lbl_idx(self@, vertex)][k].1,
                        )
                },
                None => !has_label(self@, vertex),
            },
    {
        let iv = match self.index_of(vertex) {
            Some(i) => i,
            None => {
                return None;
            },
        };
        proof {
            lemma_lbl_idx_unique(self@, vertex, iv as int);
        }
        let lst = &self.adj[iv];
        let mut out: Vec<(u64, i64)> = Vec::new();
        let n_l = lst.len();
        let mut k: usize = 0;
        while k < n_l
            invariant
                self.wf(),
                iv < self@.adj.len(),
                lst@ == self@.adj[iv as int],
                n_l == lst@.len(),
                k <= n_l,
                out@.len() == k,
                forall|t: int|
                    0 <= t < k ==> #[trigger] out@[t] == (
                        self@.labels[self@.adj[iv as int][t].0 as int],
                        self@.adj[iv as int][t].1,
                    ),
            decreases n_l - k,
        {
            let (j, w) = lst[k];
            proof {
                assert(targets_below(self@.adj[iv as int], self@.labels.len() as int));
                assert(self@.adj[iv as int][k as int].0 < self@.labels.len());
            }
            out.push((self.verts[j], w));
            k = k + 1;
        }
        Some(out)
    }

    /// Every edge exactly once, as canonically oriented triples (smaller
    /// label first); the order follows the vertex and adjacency order.
    /// Every edge exactly once, as canonically oriented triples (smaller
    /// label first); the order follows the vertex and adjacency order.
    #[verifier::rlimit(100)]
    pub fn get_edges(&self) -> (r: Vec<(u64, u64, i64)>)
        requires
            self.wf(),
        ensures
            forall|t: int| 0 <= t < r@.len() ==> #[trigger] canonical_edge(self@, r@[t]),
            forall|t1: int, t2: int|
                0 <= t1 < r@.len() && 0 <= t2 < r@.len() && t1 != t2
                    ==> !((#[trigger] r@[t1]).0 == (#[trigger] r@[t2]).0 && r@[t1].1 == r@[t2].1),
            forall|i: int, j: int, w: i64|
                #[trigger] adj_edge(self@, i, j, w) ==> exists|t: int|
                    0 <= t < r@.len() && #[trigger] r@[t] == (
                        if self@.labels[i] <= self@.labels[j] {
                            (self@.labels[i], self@.labels[j], w)
                        } else {
                            (self@.labels[j], self@.labels[i], w)
                        }
                    ),
    {
        let ghost m = self@;
        let n = self.verts.len();
        let mut r: Vec<(u64, u64, i64)> = Vec::new();
        let mut i: usize = 0;
        while i < n
            invariant
                self.wf(),
                m == self@,
                n == m.labels.len(),
                i <= n,
                forall|t: int| 0 <= t < r@.len() ==> #[trigger] canonical_edge(m, r@[t]),
                forall|t: int|
                    0 <= t < r@.len() ==> #[trigger] edge_done(
                        m, i as int, 0,
                        lbl_idx(m, r@[t].0), lbl_idx(m, r@[t].1), r@[t].2,
                    ),
                forall|t1: int, t2: int|
                    0 <= t1 < r@.len() && 0 <= t2 < r@.len() && t1 != t2
                        ==> !((#[trigger] r@[t1]).0 == (#[trigger] r@[t2]).0
                            && r@[t1].1 == r@[t2].1),
                forall|ii: int, jj: int, ww: i64|
                    #[trigger] adj_edge(m, ii, jj, ww) && m.labels[ii] <= m.labels[jj]
                        && edge_done(m, i as int, 0, ii, jj, ww)
                        ==> exists|t: int|
                            0 <= t < r@.len() && #[trigger] r@[t]
                                == (m.labels[ii], m.labels[jj], ww),
            decreases n - i,
        {
            let lst = &self.adj[i];
            let n_l = lst.len();
            let mut k: usize = 0;
            while k < n_l
                invariant
                    self.wf(),
                    m == self@,
                    n == m.labels.len(),
                    i < n,
                    lst@ == m.adj[i as int],
                    n_l == lst@.len(),
                    k <= n_l,
                    forall|t: int| 0 <= t < r@.len() ==> #[trigger] canonical_edge(m, r@[t]),
                    forall|t: int|
                        0 <= t < r@.len() ==> #[trigger] edge_done(
                            m, i as int, k as int,
                            lbl_idx(m, r@[t].0), lbl_idx(m, r@[t].1), r@[t].2,
                        ),
                    forall|t1: int, t2: int|
                        0 <= t1 < r@.len() && 0 <= t2 < r@.len() && t1 != t2
                            ==> !((#[trigger] r@[t1]).0 == (#[trigger] r@[t2]).0
                                && r@[t1].1 == r@[t2].1),
                    forall|ii: int, jj: int, ww: i64|
                        #[trigger] adj_edge(m, ii, jj, ww) && m.labels[ii] <= m.labels[jj]
                            && edge_done(m, i as int, k as int, ii, jj, ww)
                            ==> exists|t: int|
                                0 <= t < r@.len() && #[trigger] r@[t]
                                    == (m.labels[ii], m.labels[jj], ww),
                decreases n_l - k,
            {
                let (j, w) = lst[k];
                proof {
                    assert(targets_below(m.adj[i as int], n as int));
                    assert(m.adj[i as int][k as int].0 < n);
                }
                let la = self.verts[i];
                let lb = self.verts[j];
                if la <= lb {
                    proof {
                        lemma_edges_push_step(m, r@, i as int, k as int, j as int, w);
                    }
                    r.push((la, lb, w));
                } else {
                    proof {
                        lemma_edges_skip_step(m, r@, i as int, k as int, j as int, w);
                    }
                }
                k = k + 1;
            }
            proof {
                lemma_edges_next_list(m, r@, i as int);
            }
            i = i + 1;
        }
        proof {
            assert forall|ii: int, jj: int, ww: i64| #[trigger] adj_edge(m, ii, jj, ww)
                implies exists|t: int|
                    0 <= t < r@.len() && #[trigger] r@[t] == (
                        if m.labels[ii] <= m.labels[jj] {
                            (m.labels[ii], m.labels[jj], ww)
                        } else {
                            (m.labels[jj], m.labels[ii], ww)
                        }
                    ) by {
                if m.labels[ii] <= m.labels[jj] {
                    assert(edge_done(m, n as int, 0, ii, jj, ww));
                } else {
                    assert(adj_edge(m, jj, ii, ww));
                    assert(edge_done(m, n as int, 0, jj, ii, ww));
                }
            }
        }
        r
    }

    /// Removes the undirected edge between the two labels; with a missing
    /// vertex or edge nothing changes and failure is reported.
    pub fn remove_edge(&mut self, vertex1: u64, vertex2: u64) -> (r: bool)
        requires
            old(self).wf(),
        ensures
            final(self).wf(),
            final(self)@.labels == old(self)@.labels,
            r == (has_label(old(self)@, vertex1) && has_label(old(self)@, vertex2) && has_edge(
                old(self)@,
                lbl_idx(old(self)@, vertex1),
                lbl_idx(old(self)@, vertex2),
            )),
            !r ==> final(self)@ == old(self)@,
            r ==> forall|x: int, y: int, w: i64| #[trigger]
                adj_edge(final(self)@, x, y, w) <==> (adj_edge(old(self)@, x, y, w) && !((x
                    == lbl_idx(old(self)@, vertex1) && y == lbl_idx(old(self)@, vertex2)) || (x
                    == lbl_idx(old(self)@, vertex2) && y == lbl_idx(old(self)@, vertex1)))),
            r ==> ({
                let iu = lbl_idx(old(self)@, vertex1);
                let iv = lbl_idx(old(self)@, vertex2);
                final(self)@.adj == if iu == iv {
                    old(self)@.adj.update(iu, drop_nb(old(self)@.adj[iu], iv as usize))
                } else {
                    old(self)@.adj.update(iu, drop_nb(old(self)@.adj[iu], iv as usize)).update(
                        iv,
                        drop_nb(old(self)@.adj[iv], iu as usize),
                    )
                }
            }),
    {
        let iu = match self.index_of(vertex1) {
            Some(i) => i,
            None => {
                return false;
            },
        };
        let iv = match self.index_of(vertex2) {
            Some(i) => i,
            None => {
                return false;
            },
        };
        proof {
            lemma_lbl_idx_unique(self@, vertex1, iu as int);
            lemma_lbl_idx_unique(self@, vertex2, iv as int);
            assert(self@.adj[iu as int] == self.adj@[iu as int]@);
        }
        let ghost m = self@;
        let had = match find_entry(&self.adj[iu], iv) {
            Some(_) => true,
            None => false,
        };
        proof {
            if had {
                assert(has_entry(m.adj[iu as int], iv as int, choose|w: i64|
                    has_entry(m.adj[iu as int], iv as int, w)));
                assert(adj_edge(m, iu as int, iv as int, choose|w: i64|
                    has_entry(m.adj[iu as int], iv as int, w)));
                assert(has_edge(m, iu as int, iv as int));
            } else {
                assert(!has_edge(m, iu as int, iv as int)) by {
                    if has_edge(m, iu as int, iv as int) {
                        let w = choose|w: i64| adj_edge(m, iu as int, iv as int, w);
                        assert(has_entry(m.adj[iu as int], iv as int, w));
                        assert(false);
                    }
                }
            }
        }
        drop_entries(&mut self.adj[iu], iv);
        if iu != iv {
            proof {
                assert(self@.adj[iv as int] == self.adj@[iv as int]@);
                assert(self@.adj[iv as int] == m.adj[iv as int]);
            }
            drop_entries(&mut self.adj[iv], iu);
        }
        proof {
            let a2 = if iu == iv {
                m.adj.update(iu as int, drop_nb(m.adj[iu as int], iv))
            } else {
                m.adj.update(iu as int, drop_nb(m.adj[iu as int], iv)).update(
                    iv as int,
                    drop_nb(m.adj[iv as int], iu),
                )
            };
            assert(self@.adj =~= a2);
            lemma_remove_edge_model(m, iu, iv, self@);
            if !had {
                lemma_drop_nb_props(m.adj[iu as int], iv);
                lemma_drop_nb_props(m.adj[iv as int], iu);
                assert forall|k: int| 0 <= k < m.adj[iu as int].len()
                    implies (#[trigger] m.adj[iu as int][k]).0 != iv by {
                    if m.adj[iu as int][k].0 == iv {
                        assert(has_entry(m.adj[iu as int], iv as int, m.adj[iu as int][k].1)) by {
                            assert((#[trigger] m.adj[iu as int][k]).0 as int == iv as int
                                && m.adj[iu as int][k].1 == m.adj[iu as int][k].1);
                        }
                        assert(adj_edge(m, iu as int, iv as int, m.adj[iu as int][k].1));
                        assert(false);
                    }
                }
                assert(drop_nb(m.adj[iu as int], iv) == m.adj[iu as int]);
                if iu != iv {
                    assert forall|k: int| 0 <= k < m.adj[iv as int].len()
                        implies (#[trigger] m.adj[iv as int][k]).0 != iu by {
                        if m.adj[iv as int][k].0 == iu {
                            assert(has_entry(m.adj[iv as int], iu as int, m.adj[iv as int][k].1)) by {
                                assert((#[trigger] m.adj[iv as int][k]).0 as int == iu as int
                                    && m.adj[iv as int][k].1 == m.adj[iv as int][k].1);
                            }
                            assert(adj_edge(m, iv as int, iu as int, m.adj[iv as int][k].1));
                            assert(adj_edge(m, iu as int, iv as int, m.adj[iv as int][k].1));
                            assert(false);
                        }
                    }
                    assert(drop_nb(m.adj[iv as int], iu) == m.adj[iv as int]);
                }
                assert(self@.adj =~= m.adj);
                assert(self@ == m);
            }
        }
        had
    }

    /// Removes a vertex and every edge at it; the remaining vertices keep
    /// their order.  With a missing label nothing changes and failure is
    /// reported.
    pub fn remove_vertex(&mut self, vertex: u64) -> (r: bool)
        requires
            old(self).wf(),
        ensures
            final(self).wf(),
            r == has_label(old(self)@, vertex),
            !r ==> final(self)@ == old(self)@,
            r ==> final(self)@.labels == old(self)@.labels.remove(lbl_idx(old(self)@, vertex)),
            r ==> forall|x: int, y: int, w: i64| #[trigger]
                adj_edge(final(self)@, x, y, w) <==> adj_edge(
                    old(self)@,
                    shift_up(x, lbl_idx(old(self)@, vertex)),
                    shift_up(y, lbl_idx(old(self)@, vertex)),
                    w,
                ),
            r ==> final(self)@.adj == Seq::new(
                (old(self)@.labels.len() - 1) as nat,
                |x: int| scrub(
                    old(self)@.adj[shift_up(x, lbl_idx(old(self)@, vertex))],
                    lbl_idx(old(self)@, vertex) as usize,
                ),
            ),
    {
        let iv = match self.index_of(vertex) {
            Some(i) => i,
            None => {
                return false;
            },
        };
        proof {
            lemma_lbl_idx_unique(self@, vertex, iv as int);
        }
        let ghost m = self@;
        self.verts.remove(iv);
        self.adj.remove(iv);
        let n2 = self.adj.len();
        proof {
            assert(self.adj@.len() == m.adj.len() - 1);
            assert forall|t: int| 0 <= t < n2 implies self.adj@[t]@ == m.adj[shift_up(
                t,
                iv as int,
            )] by {
                assert(self.adj@[t] == old(self).adj@.remove(iv as int)[t]);
            }
        }
        let ghost a1 = self.adj@;
        let mut i: usize = 0;
        while i < n2
            invariant
                self.adj@.len() == n2,
                self.verts@ == m.labels.remove(iv as int),
                i <= n2,
                forall|t: int| 0 <= t < n2 ==> a1[t]@ == m.adj[shift_up(t, iv as int)],
                forall|t: int| i <= t < n2 ==> self.adj@[t] == a1[t],
                forall|t: int| 0 <= t < i ==> (#[trigger] self.adj@[t])@ == scrub(a1[t]@, iv),
            decreases n2 - i,
        {
            scrub_entries(&mut self.adj[i], iv);
            i = i + 1;
        }
        proof {
            lemma_remove_vertex_model(m, iv);
            let m2 = GraphModel {
                labels: m.labels.remove(iv as int),
                adj: Seq::new(
                    (m.labels.len() - 1) as nat,
                    |x: int| scrub(m.adj[shift_up(x, iv as int)], iv),
                ),
            };
            assert(self@.adj =~= m2.adj);
            assert(self@ == m2);
        }
        true
    }

    /// Position of the vertex labelled `label`, if it is in the graph.
    pub(crate) fn index_of(&self, label: u64) -> (r: Option<usize>)
        ensures
            match r {
                Some(i) => i < self@.labels.len() && self@.labels[i as int] == label,
                None => !has_label(self@, label),
            },
    {
        let n = self.verts.len();
        let mut i: usize = 0;
        while i < n
            invariant
                n == self@.labels.len(),
                i <= n,
                forall|k: int| 0 <= k < i ==> self@.labels[k] != label,
            decreases n - i,
        {
            if self.verts[i] == label {
                return Some(i);
            }
            i = i + 1;
        }
        None
    }
}

} // verus!
