//! Connectivity discovery: connected components by breadth-first search,
//! by depth-first search with an explicit stack, and by disjoint-set
//! union.  All three meet the same contract, `components_post`: the
//! components partition the vertex set, vertices sharing a component are
//! joined by a walk, and vertices in different components are not.

use crate::counting::{count_trues, lemma_count_trues_le, lemma_count_trues_set};
use crate::graph::{Graph, GraphModel, adj_edge, has_edge, model_wf};
use crate::paths::{
    connects, is_walk, lemma_walk_extend, lemma_walk_reverse, lemma_walk_single, lemma_walk_stays,
};
use vstd::prelude::*;

verus! {

/// The position `x` occurs in the sequence.
pub open spec fn in_seq(c: Seq<usize>, x: int) -> bool {
    exists|k: int| 0 <= k < c.len() && (#[trigger] c[k]) as int == x
}

/// No position occurs twice.
pub open spec fn nodup_seq(c: Seq<usize>) -> bool {
    forall|k1: int, k2: int|
        0 <= k1 < c.len() && 0 <= k2 < c.len() && k1 != k2 ==> (#[trigger] c[k1]) != (#[trigger] c[k2])
}

/// Some component holds the position `x`.
pub open spec fn covered(cs: Seq<Seq<usize>>, x: int) -> bool {
    exists|ci: int| 0 <= ci < cs.len() && #[trigger] in_seq(cs[ci], x)
}

/// The components (as vertex positions) are exactly the connectivity
/// classes of the graph: a partition in which membership in one component
/// coincides with being joined by a walk.
pub open spec fn components_post(m: GraphModel, cs: Seq<Seq<usize>>) -> bool {
    &&& forall|ci: int|
        0 <= ci < cs.len() ==> (#[trigger] cs[ci]).len() > 0 && nodup_seq(cs[ci])
    &&& forall|ci: int, k: int|
        0 <= ci < cs.len() && 0 <= k < cs[ci].len() ==> ((#[trigger] cs[ci][k]) as int)
            < m.labels.len()
    &&& forall|x: int| 0 <= x < m.labels.len() ==> #[trigger] covered(cs, x)
    &&& forall|ci1: int, ci2: int, x: int|
        0 <= ci1 < cs.len() && 0 <= ci2 < cs.len() && ci1 != ci2 ==> !(#[trigger] in_seq(
            cs[ci1],
            x,
        ) && #[trigger] in_seq(cs[ci2], x))
    &&& forall|ci: int, x: int, y: int|
        0 <= ci < cs.len() && #[trigger] in_seq(cs[ci], x) && #[trigger] in_seq(cs[ci], y)
            ==> connects(m, x, y)
    &&& forall|ci1: int, ci2: int, x: int, y: int|
        0 <= ci1 < cs.len() && 0 <= ci2 < cs.len() && ci1 != ci2 && #[trigger] in_seq(cs[ci1], x)
            && #[trigger] in_seq(cs[ci2], y) ==> !connects(m, x, y)
}

/// The label rows are the position rows written as vertex labels.
pub open spec fn labeled_components(m: GraphModel, cs: Seq<Seq<usize>>, r: Seq<Seq<u64>>) -> bool {
    &&& r.len() == cs.len()
    &&& forall|ci: int|
        0 <= ci < cs.len() ==> #[trigger] r[ci] == cs[ci].map_values(|i: usize| m.labels[i as int])
}

/// Every neighbor of `u` is flagged.
pub open spec fn nbrs_visited(m: GraphModel, vs: Seq<bool>, u: int) -> bool {
    forall|e: int| 0 <= e < m.adj[u].len() ==> vs[(#[trigger] m.adj[u][e]).0 as int]
}

/// A flag row that is closed under edges.
pub open spec fn closed_row(m: GraphModel, vs: Seq<bool>) -> bool {
    forall|x: int, y: int|
        0 <= x < vs.len() && 0 <= y < vs.len() && vs[x] && #[trigger] has_edge(m, x, y) ==> vs[y]
}

/// One full traversal from `start`: collects, in discovery order, exactly
/// the vertices joined to `start` by a walk, none of them flagged before,
/// and flags them.
fn bfs_from(g: &Graph, visited: &mut Vec<bool>, start: usize) -> (comp: Vec<usize>)
    requires
        g.wf(),
        old(visited)@.len() == g@.labels.len(),
        (start as int) < g@.labels.len(),
        !old(visited)@[start as int],
        closed_row(g@, old(visited)@),
    ensures
        final(visited)@.len() == old(visited)@.len(),
        forall|x: int|
            0 <= x < final(visited)@.len() ==> (#[trigger] final(visited)@[x] == (old(
                visited,
            )@[x] || in_seq(comp@, x))),
        closed_row(g@, final(visited)@),
        comp@.len() > 0,
        comp@[0] == start,
        nodup_seq(comp@),
        forall|k: int| 0 <= k < comp@.len() ==> ((#[trigger] comp@[k]) as int) < g@.labels.len(),
        forall|x: int| #[trigger] in_seq(comp@, x) ==> !old(visited)@[x],
        forall|x: int| 0 <= x < g@.labels.len() ==> (in_seq(comp@, x) <==> connects(
            g@,
            start as int,
            x,
        )),
        count_trues(final(visited)@) == count_trues(old(visited)@) + comp@.len(),
{
    let ghost m = g@;
    let n = g.size();
    let mut comp: Vec<usize> = Vec::new();
    proof {
        let ghost vs0 = old(visited)@;
        lemma_count_trues_set(vs0, start as int);
    }
    visited[start] = true;
    comp.push(start);
    proof {
        lemma_walk_single(m, start);
    }
    let mut hd: usize = 0;
    while hd < comp.len()
        invariant
            g.wf(),
            m == g@,
            n == m.labels.len(),
            visited@.len() == n,
            (start as int) < n,
            closed_row(m, old(visited)@),
            !old(visited)@[start as int],
            hd <= comp@.len(),
            comp@.len() > 0,
            comp@[0] == start,
            nodup_seq(comp@),
            forall|k: int| 0 <= k < comp@.len() ==> ((#[trigger] comp@[k]) as int) < n,
            forall|x: int|
                0 <= x < n ==> (#[trigger] visited@[x] == (old(visited)@[x] || in_seq(comp@, x))),
            forall|k: int|
                0 <= k < comp@.len() ==> connects(m, start as int, (#[trigger] comp@[k]) as int),
            forall|k: int| 0 <= k < comp@.len() ==> !old(visited)@[(#[trigger] comp@[k]) as int],
            forall|t: int|
                0 <= t < hd ==> nbrs_visited(m, visited@, (#[trigger] comp@[t]) as int),
            count_trues(visited@) == count_trues(old(visited)@) + comp@.len(),
        decreases n - hd,
    {
        proof {
            lemma_count_trues_le(visited@);
        }
        let u = comp[hd];
        let lst = g.adj_at(u);
        let nl = lst.len();
        let mut k: usize = 0;
        while k < nl
            invariant
                g.wf(),
                m == g@,
                n == m.labels.len(),
                visited@.len() == n,
                (start as int) < n,
                closed_row(m, old(visited)@),
                !old(visited)@[start as int],
                hd < comp@.len(),
                comp@[hd as int] == u,
                (u as int) < n,
                lst@ == m.adj[u as int],
                nl == lst@.len(),
                k <= nl,
                comp@.len() > 0,
                comp@[0] == start,
                nodup_seq(comp@),
                forall|t: int| 0 <= t < comp@.len() ==> ((#[trigger] comp@[t]) as int) < n,
                forall|x: int|
                    0 <= x < n ==> (#[trigger] visited@[x] == (old(visited)@[x] || in_seq(
                        comp@,
                        x,
                    ))),
                forall|t: int|
                    0 <= t < comp@.len() ==> connects(m, start as int, (#[trigger] comp@[t]) as int),
                forall|t: int|
                    0 <= t < comp@.len() ==> !old(visited)@[(#[trigger] comp@[t]) as int],
                forall|t: int|
                    0 <= t < hd ==> nbrs_visited(m, visited@, (#[trigger] comp@[t]) as int),
                forall|e: int| 0 <= e < k ==> visited@[(#[trigger] m.adj[u as int][e]).0 as int],
                count_trues(visited@) == count_trues(old(visited)@) + comp@.len(),
            decreases nl - k,
        {
            let (nb, _w) = lst[k];
            proof {
                assert(crate::graph::targets_below(m.adj[u as int], n as int));
                assert(m.adj[u as int][k as int].0 < n);
            }
            if !visited[nb] {
                let ghost vs_was = visited@;
                let ghost comp_was = comp@;
                visited[nb] = true;
                comp.push(nb);
                proof {
                    lemma_count_trues_set(vs_was, nb as int);
                    assert(comp@[comp@.len() - 1] == nb);
                    assert forall|x: int|
                        0 <= x < n implies (#[trigger] visited@[x] == (old(visited)@[x] || in_seq(
                        comp@,
                        x,
                    ))) by {
                        if x == nb as int {
                        } else {
                            assert(visited@[x] == vs_was[x]);
                            assert(in_seq(comp_was, x) == in_seq(comp@, x)) by {
                                if in_seq(comp_was, x) {
                                    let t = choose|t: int|
                                        0 <= t < comp_was.len() && (#[trigger] comp_was[t]) as int
                                            == x;
                                    assert((comp@[t]) as int == x);
                                }
                                if in_seq(comp@, x) {
                                    let t = choose|t: int|
                                        0 <= t < comp@.len() && (#[trigger] comp@[t]) as int == x;
                                    assert(t < comp_was.len());
                                    assert((comp_was[t]) as int == x);
                                }
                            }
                        }
                    }
                    assert(nodup_seq(comp@)) by {
                        assert forall|k1: int, k2: int|
                            0 <= k1 < comp@.len() && 0 <= k2 < comp@.len() && k1 != k2
                                implies (#[trigger] comp@[k1]) != (#[trigger] comp@[k2]) by {
                            if k1 < comp_was.len() && k2 < comp_was.len() {
                                assert(comp_was[k1] == comp@[k1] && comp_was[k2] == comp@[k2]);
                            } else if k1 < comp_was.len() {
                                assert(comp@[k2] == nb && comp_was[k1] == comp@[k1]);
                                assert(!vs_was[nb as int]);
                                assert(vs_was[comp_was[k1] as int]) by {
                                    assert(in_seq(comp_was, comp_was[k1] as int));
                                }
                            } else {
                                assert(comp@[k1] == nb && comp_was[k2] == comp@[k2]);
                                assert(!vs_was[nb as int]);
                                assert(vs_was[comp_was[k2] as int]) by {
                                    assert(in_seq(comp_was, comp_was[k2] as int));
                                }
                            }
                        }
                    }
                    assert(connects(m, start as int, nb as int)) by {
                        let q = choose|q: Seq<usize>|
                            #[trigger] is_walk(m, q) && q.first() as int == start as int
                                && q.last() as int == u as int;
                        assert(adj_edge(m, u as int, nb as int, _w)) by {
                            assert((#[trigger] m.adj[u as int][k as int]).0 as int == nb as int
                                && m.adj[u as int][k as int].1 == _w);
                        }
                        lemma_walk_extend(m, q, nb, _w);
                    }
                    assert forall|t: int|
                        0 <= t < hd implies nbrs_visited(m, visited@, (#[trigger] comp@[t]) as int) by {
                        assert(comp@[t] == comp_was[t]);
                        assert(nbrs_visited(m, vs_was, comp_was[t] as int));
                        assert forall|e: int|
                            0 <= e < m.adj[comp@[t] as int].len() implies visited@[(
                            #[trigger] m.adj[comp@[t] as int][e]).0 as int] by {
                            assert(vs_was[(m.adj[comp_was[t] as int][e]).0 as int]);
                        }
                    }
                }
            }
            k = k + 1;
        }
        hd = hd + 1;
        proof {
            assert(nbrs_visited(m, visited@, u as int));
        }
    }
    proof {
        assert(closed_row(m, visited@)) by {
            assert forall|x: int, y: int|
                0 <= x < n && 0 <= y < n && visited@[x] && #[trigger] has_edge(m, x, y)
                    implies visited@[y] by {
                if old(visited)@[x] {
                    assert(old(visited)@[y]);
                } else {
                    assert(in_seq(comp@, x));
                    let t = choose|t: int| 0 <= t < comp@.len() && (#[trigger] comp@[t]) as int == x;
                    assert(nbrs_visited(m, visited@, x));
                    let w = choose|w: i64| #[trigger] adj_edge(m, x, y, w);
                    let e = choose|e: int|
                        0 <= e < m.adj[x].len() && (#[trigger] m.adj[x][e]).0 as int == y
                            && m.adj[x][e].1 == w;
                    assert(visited@[(m.adj[x][e]).0 as int]);
                }
            }
        }
        assert forall|x: int| 0 <= x < n implies (in_seq(comp@, x) <==> connects(
            m,
            start as int,
            x,
        )) by {
            if in_seq(comp@, x) {
                let t = choose|t: int| 0 <= t < comp@.len() && (#[trigger] comp@[t]) as int == x;
                assert(connects(m, start as int, (comp@[t]) as int));
            }
            if connects(m, start as int, x) {
                let q = choose|q: Seq<usize>|
                    #[trigger] is_walk(m, q) && q.first() as int == start as int && q.last() as int
                        == x;
                lemma_walk_stays(m, visited@, q);
                assert(visited@[x]);
                if old(visited)@[x] {
                    lemma_walk_reverse(m, q);
                    let q2 = choose|q2: Seq<usize>|
                        #[trigger] is_walk(m, q2) && q2.first() as int == x && q2.last() as int
                            == start as int;
                    lemma_walk_stays(m, old(visited)@, q2);
                    assert(false);
                }
            }
        }
    }
    comp
}

impl Graph {
    /// Connected components by breadth-first search: scans the vertices in
    /// order and launches one traversal from every vertex not yet seen.
    /// Components come in discovery order, each listing its vertices in
    /// discovery order.
    pub fn get_connected_components(&self) -> (r: Vec<Vec<u64>>)
        requires
            self.wf(),
        ensures
            exists|cs: Seq<Seq<usize>>|
                #[trigger] components_post(self@, cs) && labeled_components(
                    self@,
                    cs,
                    r@.map_values(|c: Vec<u64>| c@),
                ),
    {
        let comps = collect_components_bfs(self);
        proof {
            let cs = comps@.map_values(|c: Vec<usize>| c@);
            assert forall|ci: int, k: int|
                0 <= ci < comps@.len() && 0 <= k < comps@[ci]@.len() implies ((
            #[trigger] comps@[ci]@[k]) as int) < self@.labels.len() by {
                assert(cs[ci] == comps@[ci]@);
                assert((cs[ci][k] as int) < self@.labels.len());
            }
        }
        label_components(self, comps)
    }
}

/// The scan loop behind the breadth-first component listing.
fn collect_components_bfs(g: &Graph) -> (comps: Vec<Vec<usize>>)
    requires
        g.wf(),
    ensures
        components_post(g@, comps@.map_values(|c: Vec<usize>| c@)),
{
    let ghost m = g@;
    let n = g.size();
    let mut visited: Vec<bool> = Vec::new();
    let mut v0: usize = 0;
    while v0 < n
        invariant
            v0 <= n,
            visited@.len() == v0,
            forall|t: int| 0 <= t < v0 ==> !(#[trigger] visited@[t]),
        decreases n - v0,
    {
        visited.push(false);
        v0 = v0 + 1;
    }
    let mut comps: Vec<Vec<usize>> = Vec::new();
    let mut v: usize = 0;
    while v < n
        invariant
            g.wf(),
            m == g@,
            n == m.labels.len(),
            visited@.len() == n,
            v <= n,
            closed_row(m, visited@),
            forall|x: int| 0 <= x < v ==> visited@[x],
            ({
                let cs = comps@.map_values(|c: Vec<usize>| c@);
                &&& forall|ci: int|
                    0 <= ci < cs.len() ==> (#[trigger] cs[ci]).len() > 0 && nodup_seq(cs[ci])
                &&& forall|ci: int, k: int|
                    0 <= ci < cs.len() && 0 <= k < cs[ci].len() ==> ((#[trigger] cs[ci][k]) as int)
                        < n
                &&& forall|x: int| 0 <= x < n ==> (visited@[x] <==> #[trigger] covered(cs, x))
                &&& forall|ci: int, x: int|
                    0 <= ci < cs.len() && 0 <= x < n ==> (#[trigger] in_seq(cs[ci], x)
                        <==> connects(m, (cs[ci][0]) as int, x))
                &&& forall|ci1: int, ci2: int, x: int|
                    0 <= ci1 < cs.len() && 0 <= ci2 < cs.len() && ci1 != ci2 ==> !(
                    #[trigger] in_seq(cs[ci1], x) && #[trigger] in_seq(cs[ci2], x))
            }),
        decreases n - v,
    {
        if !visited[v] {
            let ghost cs_was = comps@.map_values(|c: Vec<usize>| c@);
            let ghost vis_was = visited@;
            let comp = bfs_from(g, &mut visited, v);
            comps.push(comp);
            proof {
                let cs = comps@.map_values(|c: Vec<usize>| c@);
                let ghost newc = comps@[comps@.len() - 1]@;
                assert(cs.len() == cs_was.len() + 1);
                assert(forall|ci: int| 0 <= ci < cs_was.len() ==> #[trigger] cs[ci] == cs_was[ci]);
                assert(cs[cs.len() - 1] == newc);
                // membership in an old component still means what it did
                assert forall|ci: int, x: int|
                    0 <= ci < cs.len() && 0 <= x < n implies (#[trigger] in_seq(cs[ci], x)
                        <==> connects(m, (cs[ci][0]) as int, x)) by {
                    if ci < cs_was.len() {
                        assert(in_seq(cs_was[ci], x) <==> connects(m, (cs_was[ci][0]) as int, x));
                    } else {
                        assert(cs[ci] == newc);
                        assert(in_seq(newc, x) <==> connects(m, v as int, x));
                        assert(newc[0] == v);
                    }
                }
                // the fresh component is disjoint from the old ones
                assert forall|ci1: int, ci2: int, x: int|
                    0 <= ci1 < cs.len() && 0 <= ci2 < cs.len() && ci1 != ci2 implies !(
                #[trigger] in_seq(cs[ci1], x) && #[trigger] in_seq(cs[ci2], x)) by {
                    if ci1 < cs_was.len() && ci2 < cs_was.len() {
                        assert(!(in_seq(cs_was[ci1], x) && in_seq(cs_was[ci2], x)));
                    } else {
                        let (co, cn): (int, int) = if ci1 < cs_was.len() {
                            (ci1, ci2)
                        } else {
                            (ci2, ci1)
                        };
                        if in_seq(cs[co], x) && in_seq(cs[cn], x) {
                            assert(in_seq(newc, x));
                            assert(!vis_was[x]) by {
                                assert(in_seq(newc, x) ==> !vis_was[x]);
                            }
                            assert(in_seq(cs_was[co], x));
                            assert(covered(cs_was, x));
                            assert(vis_was[x]);
                        }
                    }
                }
                assert forall|x: int| 0 <= x < n implies (visited@[x] <==> #[trigger] covered(
                    cs,
                    x,
                )) by {
                    if visited@[x] {
                        if vis_was[x] {
                            assert(covered(cs_was, x));
                            let ci = choose|ci: int|
                                0 <= ci < cs_was.len() && #[trigger] in_seq(cs_was[ci], x);
                            assert(in_seq(cs[ci], x));
                        } else {
                            assert(in_seq(newc, x));
                            assert(in_seq(cs[cs.len() - 1], x));
                        }
                    }
                    if covered(cs, x) {
                        let ci = choose|ci: int| 0 <= ci < cs.len() && #[trigger] in_seq(cs[ci], x);
                        if ci < cs_was.len() {
                            assert(covered(cs_was, x));
                            assert(vis_was[x]);
                        } else {
                            assert(in_seq(newc, x));
                        }
                    }
                }
            }
        }
        v = v + 1;
    }
    proof {
        let cs = comps@.map_values(|c: Vec<usize>| c@);
        assert(components_post(m, cs)) by {
            assert forall|ci: int, x: int, y: int|
                0 <= ci < cs.len() && #[trigger] in_seq(cs[ci], x) && #[trigger] in_seq(cs[ci], y)
                    implies connects(m, x, y) by {
                let k = choose|k: int| 0 <= k < cs[ci].len() && (#[trigger] cs[ci][k]) as int == x;
                assert(0 <= x < n);
                assert(connects(m, (cs[ci][0]) as int, x));
                assert(connects(m, (cs[ci][0]) as int, y));
                crate::paths::lemma_connects_sym(m, (cs[ci][0]) as int, x);
                crate::paths::lemma_connects_trans(m, x, (cs[ci][0]) as int, y);
            }
            assert forall|ci1: int, ci2: int, x: int, y: int|
                0 <= ci1 < cs.len() && 0 <= ci2 < cs.len() && ci1 != ci2 && #[trigger] in_seq(
                    cs[ci1],
                    x,
                ) && #[trigger] in_seq(cs[ci2], y) implies !connects(m, x, y) by {
                if connects(m, x, y) {
                    let k = choose|k: int|
                        0 <= k < cs[ci1].len() && (#[trigger] cs[ci1][k]) as int == x;
                    let k2 = choose|k2: int|
                        0 <= k2 < cs[ci2].len() && (#[trigger] cs[ci2][k2]) as int == y;
                    assert(0 <= x < n && 0 <= y < n);
                    assert(connects(m, (cs[ci1][0]) as int, x));
                    crate::paths::lemma_connects_trans(m, (cs[ci1][0]) as int, x, y);
                    assert(in_seq(cs[ci1], y));
                }
            }
        }
    }
    comps
}

/// Writes components of positions as components of labels.
fn label_components(g: &Graph, comps: Vec<Vec<usize>>) -> (r: Vec<Vec<u64>>)
    requires
        g.wf(),
        forall|ci: int, k: int|
            0 <= ci < comps@.len() && 0 <= k < comps@[ci]@.len() ==> ((
            #[trigger] comps@[ci]@[k]) as int) < g@.labels.len(),
    ensures
        labeled_components(
            g@,
            comps@.map_values(|c: Vec<usize>| c@),
            r@.map_values(|c: Vec<u64>| c@),
        ),
{
    let ghost m = g@;
    let nc = comps.len();
    let mut r: Vec<Vec<u64>> = Vec::new();
    let mut ci: usize = 0;
    while ci < nc
        invariant
            g.wf(),
            m == g@,
            nc == comps@.len(),
            ci <= nc,
            r@.len() == ci,
            forall|t: int, k: int|
                0 <= t < nc && 0 <= k < comps@[t]@.len() ==> ((#[trigger] comps@[t]@[k]) as int)
                    < m.labels.len(),
            forall|t: int|
                0 <= t < ci ==> (#[trigger] r@[t])@ == comps@[t]@.map_values(
                    |i: usize| m.labels[i as int],
                ),
        decreases nc - ci,
    {
        let c = &comps[ci];
        let cl = c.len();
        let mut row: Vec<u64> = Vec::new();
        let mut k: usize = 0;
        while k < cl
            invariant
                g.wf(),
                m == g@,
                ci < nc,
                nc == comps@.len(),
                c@ == comps@[ci as int]@,
                cl == c@.len(),
                k <= cl,
                row@.len() == k,
                forall|t: int, k2: int|
                    0 <= t < nc && 0 <= k2 < comps@[t]@.len() ==> ((
                    #[trigger] comps@[t]@[k2]) as int) < m.labels.len(),
                forall|t: int| 0 <= t < k ==> #[trigger] row@[t] == m.labels[c@[t] as int],
            decreases cl - k,
        {
            proof {
                assert(comps@[ci as int]@[k as int] == c@[k as int]);
            }
            row.push(g.label_at(c[k]));
            k = k + 1;
        }
        proof {
            assert(row@ =~= c@.map_values(|i: usize| m.labels[i as int]));
        }
        r.push(row);
        ci = ci + 1;
    }
    proof {
        let cs = comps@.map_values(|c: Vec<usize>| c@);
        let rs = r@.map_values(|c: Vec<u64>| c@);
        assert(rs.len() == cs.len());
        assert forall|t: int| 0 <= t < cs.len() implies #[trigger] rs[t] == cs[t].map_values(
            |i: usize| m.labels[i as int],
        ) by {
            assert(rs[t] == r@[t]@);
            assert(cs[t] == comps@[t]@);
        }
    }
    r
}

/// Frames are well-formed: each names a vertex and a scan position inside
/// that vertex's adjacency list.
pub open spec fn frames_ok(m: GraphModel, st: Seq<(usize, usize)>) -> bool {
    forall|t: int|
        0 <= t < st.len() ==> ((#[trigger] st[t]).0 as int) < m.labels.len() && st[t].1
            <= m.adj[st[t].0 as int].len()
}

/// Adjacency entries remaining to scan across the whole stack.
pub open spec fn stack_rem(m: GraphModel, st: Seq<(usize, usize)>) -> int
    decreases st.len(),
{
    if st.len() == 0 {
        0
    } else {
        stack_rem(m, st.drop_last()) + m.adj[st.last().0 as int].len() - st.last().1
    }
}

/// With well-formed frames the remaining-work measure is not negative.
proof fn lemma_stack_rem_nonneg(m: GraphModel, st: Seq<(usize, usize)>)
    requires
        frames_ok(m, st),
    ensures
        stack_rem(m, st) >= 0,
    decreases st.len(),
{
    if st.len() > 0 {
        assert(frames_ok(m, st.drop_last())) by {
            assert forall|t: int|
                0 <= t < st.drop_last().len() implies ((#[trigger] st.drop_last()[t]).0 as int)
                    < m.labels.len() && st.drop_last()[t].1 <= m.adj[st.drop_last()[t].0 as int].len() by {
                assert(st.drop_last()[t] == st[t]);
            }
        }
        lemma_stack_rem_nonneg(m, st.drop_last());
        assert(st[st.len() - 1].1 <= m.adj[st.last().0 as int].len());
    }
}

/// The vertex `x` owns some frame on the stack.
pub open spec fn on_stack(st: Seq<(usize, usize)>, x: int) -> bool {
    exists|t: int| 0 <= t < st.len() && ((#[trigger] st[t]).0 as int) == x
}

/// The scanned prefix of a frame's adjacency list leads to flagged
/// vertices only.
pub open spec fn frame_pref(m: GraphModel, vs: Seq<bool>, f: (usize, usize)) -> bool {
    forall|e: int| 0 <= e < f.1 ==> vs[(#[trigger] m.adj[f.0 as int][e]).0 as int]
}

/// One full traversal from `start` by depth-first search with an explicit
/// stack of (vertex, scan position) frames; same contract as the
/// breadth-first traversal, with depth-first discovery order.
fn dfs_from(g: &Graph, visited: &mut Vec<bool>, start: usize) -> (comp: Vec<usize>)
    requires
        g.wf(),
        old(visited)@.len() == g@.labels.len(),
        (start as int) < g@.labels.len(),
        !old(visited)@[start as int],
        closed_row(g@, old(visited)@),
    ensures
        final(visited)@.len() == old(visited)@.len(),
        forall|x: int|
            0 <= x < final(visited)@.len() ==> (#[trigger] final(visited)@[x] == (old(
                visited,
            )@[x] || in_seq(comp@, x))),
        closed_row(g@, final(visited)@),
        comp@.len() > 0,
        comp@[0] == start,
        nodup_seq(comp@),
        forall|k: int| 0 <= k < comp@.len() ==> ((#[trigger] comp@[k]) as int) < g@.labels.len(),
        forall|x: int| #[trigger] in_seq(comp@, x) ==> !old(visited)@[x],
        forall|x: int| 0 <= x < g@.labels.len() ==> (in_seq(comp@, x) <==> connects(
            g@,
            start as int,
            x,
        )),
        count_trues(final(visited)@) == count_trues(old(visited)@) + comp@.len(),
{
    let ghost m = g@;
    let n = g.size();
    let mut comp: Vec<usize> = Vec::new();
    proof {
        let ghost vs0 = old(visited)@;
        lemma_count_trues_set(vs0, start as int);
    }
    visited[start] = true;
    comp.push(start);
    proof {
        lemma_walk_single(m, start);
    }
    let mut stack: Vec<(usize, usize)> = Vec::new();
    stack.push((start, 0));
    proof {
        assert(comp@[0] == start);
        assert((stack@[0].0) as int == start as int);
        assert forall|x: int| #[trigger] in_seq(comp@, x) implies on_stack(stack@, x)
            || nbrs_visited(m, visited@, x) by {
            let t = choose|t: int| 0 <= t < comp@.len() && (#[trigger] comp@[t]) as int == x;
            assert(t == 0);
            assert(((stack@[0]).0) as int == x);
        }
    }
    while stack.len() != 0
        invariant
            g.wf(),
            m == g@,
            n == m.labels.len(),
            visited@.len() == n,
            (start as int) < n,
            closed_row(m, old(visited)@),
            !old(visited)@[start as int],
            comp@.len() > 0,
            comp@[0] == start,
            nodup_seq(comp@),
            forall|k: int| 0 <= k < comp@.len() ==> ((#[trigger] comp@[k]) as int) < n,
            forall|x: int|
                0 <= x < n ==> (#[trigger] visited@[x] == (old(visited)@[x] || in_seq(comp@, x))),
            forall|k: int|
                0 <= k < comp@.len() ==> connects(m, start as int, (#[trigger] comp@[k]) as int),
            forall|k: int| 0 <= k < comp@.len() ==> !old(visited)@[(#[trigger] comp@[k]) as int],
            count_trues(visited@) == count_trues(old(visited)@) + comp@.len(),
            frames_ok(m, stack@),
            forall|t: int| 0 <= t < stack@.len() ==> in_seq(comp@, ((#[trigger] stack@[t]).0) as int),
            forall|t: int| 0 <= t < stack@.len() ==> frame_pref(m, visited@, #[trigger] stack@[t]),
            forall|x: int|
                #[trigger] in_seq(comp@, x) ==> on_stack(stack@, x) || nbrs_visited(m, visited@, x),
        decreases n - count_trues(visited@), stack_rem(m, stack@), stack@.len(),
    {
        proof {
            lemma_count_trues_le(visited@);
            lemma_stack_rem_nonneg(m, stack@);
        }
        let top = stack.len() - 1;
        let (u, k) = stack[top];
        let lst = g.adj_at(u);
        let nl = lst.len();
        if k < nl {
            let (nb, _w) = lst[k];
            proof {
                assert(crate::graph::targets_below(m.adj[u as int], n as int));
                assert(m.adj[u as int][k as int].0 < n);
            }
            let ghost st_was = stack@;
            let ghost vs_was = visited@;
            let ghost comp_was = comp@;
            let fresh = !visited[nb];
            if fresh {
                visited[nb] = true;
                comp.push(nb);
                proof {
                    lemma_count_trues_set(vs_was, nb as int);
                    assert(comp@[comp@.len() - 1] == nb);
                    assert forall|x: int|
                        0 <= x < n implies (#[trigger] visited@[x] == (old(visited)@[x] || in_seq(
                        comp@,
                        x,
                    ))) by {
                        if x == nb as int {
                        } else {
                            assert(visited@[x] == vs_was[x]);
                            assert(in_seq(comp_was, x) == in_seq(comp@, x)) by {
                                if in_seq(comp_was, x) {
                                    let t = choose|t: int|
                                        0 <= t < comp_was.len() && (#[trigger] comp_was[t]) as int
                                            == x;
                                    assert((comp@[t]) as int == x);
                                }
                                if in_seq(comp@, x) {
                                    let t = choose|t: int|
                                        0 <= t < comp@.len() && (#[trigger] comp@[t]) as int == x;
                                    assert(t < comp_was.len());
                                    assert((comp_was[t]) as int == x);
                                }
                            }
                        }
                    }
                    assert(nodup_seq(comp@)) by {
                        assert forall|k1: int, k2: int|
                            0 <= k1 < comp@.len() && 0 <= k2 < comp@.len() && k1 != k2
                                implies (#[trigger] comp@[k1]) != (#[trigger] comp@[k2]) by {
                            if k1 < comp_was.len() && k2 < comp_was.len() {
                                assert(comp_was[k1] == comp@[k1] && comp_was[k2] == comp@[k2]);
                            } else if k1 < comp_was.len() {
                                assert(comp@[k2] == nb && comp_was[k1] == comp@[k1]);
                                assert(!vs_was[nb as int]);
                                assert(vs_was[comp_was[k1] as int]) by {
                                    assert(in_seq(comp_was, comp_was[k1] as int));
                                }
                            } else {
                                assert(comp@[k1] == nb && comp_was[k2] == comp@[k2]);
                                assert(!vs_was[nb as int]);
                                assert(vs_was[comp_was[k2] as int]) by {
                                    assert(in_seq(comp_was, comp_was[k2] as int));
                                }
                            }
                        }
                    }
                    assert(connects(m, start as int, nb as int)) by {
                        assert(in_seq(comp_was, u as int));
                        let t0 = choose|t0: int|
                            0 <= t0 < comp_was.len() && (#[trigger] comp_was[t0]) as int == u as int;
                        assert(connects(m, start as int, u as int));
                        let q = choose|q: Seq<usize>|
                            #[trigger] is_walk(m, q) && q.first() as int == start as int
                                && q.last() as int == u as int;
                        assert(adj_edge(m, u as int, nb as int, _w)) by {
                            assert((#[trigger] m.adj[u as int][k as int]).0 as int == nb as int
                                && m.adj[u as int][k as int].1 == _w);
                        }
                        lemma_walk_extend(m, q, nb, _w);
                    }
                }
            }
            let ghost vs_now = visited@;
            let ghost comp_now = comp@;
            stack[top] = (u, k + 1);
            if fresh {
                stack.push((nb, 0));
            }
            proof {
                let stf = stack@;
                assert(visited@[nb as int]);
                // frames stay well-formed and their scanned prefixes flagged
                assert forall|t: int|
                    0 <= t < stf.len() implies ((#[trigger] stf[t]).0 as int) < n && stf[t].1
                        <= m.adj[stf[t].0 as int].len() && in_seq(comp@, (stf[t].0) as int)
                        && frame_pref(m, visited@, stf[t]) by {
                    if t < st_was.len() - 1 {
                        assert(stf[t] == st_was[t]);
                        assert(in_seq(comp_was, (st_was[t].0) as int));
                        if in_seq(comp_was, (st_was[t].0) as int) {
                            let tt = choose|tt: int|
                                0 <= tt < comp_was.len() && (#[trigger] comp_was[tt]) as int
                                    == (st_was[t].0) as int;
                            assert((comp@[tt]) as int == (st_was[t].0) as int);
                        }
                        assert(frame_pref(m, vs_was, st_was[t]));
                        assert forall|e: int|
                            0 <= e < stf[t].1 implies visited@[(
                        #[trigger] m.adj[stf[t].0 as int][e]).0 as int] by {
                            assert(vs_was[(m.adj[st_was[t].0 as int][e]).0 as int]);
                        }
                    } else if t == st_was.len() - 1 {
                        assert(stf[t] == (u, (k + 1) as usize));
                        assert(in_seq(comp_was, u as int));
                        let tt = choose|tt: int|
                            0 <= tt < comp_was.len() && (#[trigger] comp_was[tt]) as int == u as int;
                        assert((comp@[tt]) as int == u as int);
                        assert(frame_pref(m, vs_was, st_was[t]));
                        assert forall|e: int|
                            0 <= e < k + 1 implies visited@[(
                        #[trigger] m.adj[u as int][e]).0 as int] by {
                            if e < k {
                                assert(vs_was[(m.adj[u as int][e]).0 as int]);
                            } else {
                                assert((m.adj[u as int][k as int]).0 == nb);
                            }
                        }
                    } else {
                        assert(stf[t] == ((nb, 0usize)));
                        assert(comp@[comp@.len() - 1] == nb);
                    }
                }
                // every collected vertex is still on the stack or done
                assert forall|x: int|
                    #[trigger] in_seq(comp@, x) implies on_stack(stack@, x) || nbrs_visited(
                    m,
                    visited@,
                    x,
                ) by {
                    if fresh && x == nb as int {
                        assert((stf[stf.len() - 1].0) as int == x);
                    } else {
                        assert(in_seq(comp_was, x)) by {
                            let t = choose|t: int|
                                0 <= t < comp@.len() && (#[trigger] comp@[t]) as int == x;
                            assert(t < comp_was.len());
                            assert((comp_was[t]) as int == x);
                        }
                        if on_stack(st_was, x) {
                            let t = choose|t: int|
                                0 <= t < st_was.len() && ((#[trigger] st_was[t]).0 as int) == x;
                            if t == st_was.len() - 1 {
                                assert((stf[t].0) as int == x);
                            } else {
                                assert(stf[t] == st_was[t]);
                            }
                            assert(on_stack(stf, x));
                        } else {
                            assert(nbrs_visited(m, vs_was, x));
                            assert forall|e: int|
                                0 <= e < m.adj[x].len() implies visited@[(
                            #[trigger] m.adj[x][e]).0 as int] by {
                                assert(vs_was[(m.adj[x][e]).0 as int]);
                            }
                        }
                    }
                }
                // the measure: either a fresh vertex was flagged, or the
                // top frame advanced
                if !fresh {
                    assert(stack@.drop_last() =~= st_was.drop_last());
                    assert(stack_rem(m, stack@) == stack_rem(m, st_was) - 1);
                    assert(visited@ == vs_was);
                }
                lemma_count_trues_le(visited@);
                lemma_stack_rem_nonneg(m, stack@);
            }
        } else {
            let ghost st_was = stack@;
            stack.pop();
            proof {
                assert(stack@ =~= st_was.drop_last());
                assert(stack_rem(m, st_was) == stack_rem(m, stack@) + m.adj[u as int].len() - k);
                assert forall|x: int|
                    #[trigger] in_seq(comp@, x) implies on_stack(stack@, x) || nbrs_visited(
                    m,
                    visited@,
                    x,
                ) by {
                    if on_stack(st_was, x) {
                        let t = choose|t: int|
                            0 <= t < st_was.len() && ((#[trigger] st_was[t]).0 as int) == x;
                        if t < st_was.len() - 1 {
                            assert((stack@[t].0) as int == x);
                            assert(on_stack(stack@, x));
                        } else {
                            assert(x == u as int);
                            assert(frame_pref(m, visited@, st_was[t]));
                            assert(nbrs_visited(m, visited@, u as int));
                        }
                    }
                }
                lemma_count_trues_le(visited@);
                lemma_stack_rem_nonneg(m, stack@);
            }
        }
    }
    proof {
        assert(closed_row(m, visited@)) by {
            assert forall|x: int, y: int|
                0 <= x < n && 0 <= y < n && visited@[x] && #[trigger] has_edge(m, x, y)
                    implies visited@[y] by {
                if old(visited)@[x] {
                    assert(old(visited)@[y]);
                } else {
                    assert(in_seq(comp@, x));
                    assert(nbrs_visited(m, visited@, x));
                    let w = choose|w: i64| #[trigger] adj_edge(m, x, y, w);
                    let e = choose|e: int|
                        0 <= e < m.adj[x].len() && (#[trigger] m.adj[x][e]).0 as int == y
                            && m.adj[x][e].1 == w;
                    assert(visited@[(m.adj[x][e]).0 as int]);
                }
            }
        }
        assert forall|x: int| 0 <= x < n implies (in_seq(comp@, x) <==> connects(
            m,
            start as int,
            x,
        )) by {
            if in_seq(comp@, x) {
                let t = choose|t: int| 0 <= t < comp@.len() && (#[trigger] comp@[t]) as int == x;
                assert(connects(m, start as int, (comp@[t]) as int));
            }
            if connects(m, start as int, x) {
                let q = choose|q: Seq<usize>|
                    #[trigger] is_walk(m, q) && q.first() as int == start as int && q.last() as int
                        == x;
                lemma_walk_stays(m, visited@, q);
                assert(visited@[x]);
                if old(visited)@[x] {
                    lemma_walk_reverse(m, q);
                    let q2 = choose|q2: Seq<usize>|
                        #[trigger] is_walk(m, q2) && q2.first() as int == x && q2.last() as int
                            == start as int;
                    lemma_walk_stays(m, old(visited)@, q2);
                    assert(false);
                }
            }
        }
    }
    comp
}

impl Graph {
    /// Connected components by depth-first search with an explicit stack;
    /// same partition as the breadth-first variant, with depth-first
    /// discovery order inside each component.
    pub fn get_connected_components_dfs(&self) -> (r: Vec<Vec<u64>>)
        requires
            self.wf(),
        ensures
            exists|cs: Seq<Seq<usize>>|
                #[trigger] components_post(self@, cs) && labeled_components(
                    self@,
                    cs,
                    r@.map_values(|c: Vec<u64>| c@),
                ),
    {
        let comps = collect_components_dfs(self);
        proof {
            let cs = comps@.map_values(|c: Vec<usize>| c@);
            assert forall|ci: int, k: int|
                0 <= ci < comps@.len() && 0 <= k < comps@[ci]@.len() implies ((
            #[trigger] comps@[ci]@[k]) as int) < self@.labels.len() by {
                assert(cs[ci] == comps@[ci]@);
                assert((cs[ci][k] as int) < self@.labels.len());
            }
        }
        label_components(self, comps)
    }
}

/// The scan loop behind the depth-first component listing.
fn collect_components_dfs(g: &Graph) -> (comps: Vec<Vec<usize>>)
    requires
        g.wf(),
    ensures
        components_post(g@, comps@.map_values(|c: Vec<usize>| c@)),
{
    let ghost m = g@;
    let n = g.size();
    let mut visited: Vec<bool> = Vec::new();
    let mut v0: usize = 0;
    while v0 < n
        invariant
            v0 <= n,
            visited@.len() == v0,
            forall|t: int| 0 <= t < v0 ==> !(#[trigger] visited@[t]),
        decreases n - v0,
    {
        visited.push(false);
        v0 = v0 + 1;
    }
    let mut comps: Vec<Vec<usize>> = Vec::new();
    let mut v: usize = 0;
    while v < n
        invariant
            g.wf(),
            m == g@,
            n == m.labels.len(),
            visited@.len() == n,
            v <= n,
            closed_row(m, visited@),
            forall|x: int| 0 <= x < v ==> visited@[x],
            ({
                let cs = comps@.map_values(|c: Vec<usize>| c@);
                &&& forall|ci: int|
                    0 <= ci < cs.len() ==> (#[trigger] cs[ci]).len() > 0 && nodup_seq(cs[ci])
                &&& forall|ci: int, k: int|
                    0 <= ci < cs.len() && 0 <= k < cs[ci].len() ==> ((#[trigger] cs[ci][k]) as int)
                        < n
                &&& forall|x: int| 0 <= x < n ==> (visited@[x] <==> #[trigger] covered(cs, x))
                &&& forall|ci: int, x: int|
                    0 <= ci < cs.len() && 0 <= x < n ==> (#[trigger] in_seq(cs[ci], x)
                        <==> connects(m, (cs[ci][0]) as int, x))
                &&& forall|ci1: int, ci2: int, x: int|
                    0 <= ci1 < cs.len() && 0 <= ci2 < cs.len() && ci1 != ci2 ==> !(
                    #[trigger] in_seq(cs[ci1], x) && #[trigger] in_seq(cs[ci2], x))
            }),
        decreases n - v,
    {
        if !visited[v] {
            let ghost cs_was = comps@.map_values(|c: Vec<usize>| c@);
            let ghost vis_was = visited@;
            let comp = dfs_from(g, &mut visited, v);
            comps.push(comp);
            proof {
                let cs = comps@.map_values(|c: Vec<usize>| c@);
                let ghost newc = comps@[comps@.len() - 1]@;
                assert(cs.len() == cs_was.len() + 1);
                assert(forall|ci: int| 0 <= ci < cs_was.len() ==> #[trigger] cs[ci] == cs_was[ci]);
                assert(cs[cs.len() - 1] == newc);
                // membership in an old component still means what it did
                assert forall|ci: int, x: int|
                    0 <= ci < cs.len() && 0 <= x < n implies (#[trigger] in_seq(cs[ci], x)
                        <==> connects(m, (cs[ci][0]) as int, x)) by {
                    if ci < cs_was.len() {
                        assert(in_seq(cs_was[ci], x) <==> connects(m, (cs_was[ci][0]) as int, x));
                    } else {
                        assert(cs[ci] == newc);
                        assert(in_seq(newc, x) <==> connects(m, v as int, x));
                        assert(newc[0] == v);
                    }
                }
                // the fresh component is disjoint from the old ones
                assert forall|ci1: int, ci2: int, x: int|
                    0 <= ci1 < cs.len() && 0 <= ci2 < cs.len() && ci1 != ci2 implies !(
                #[trigger] in_seq(cs[ci1], x) && #[trigger] in_seq(cs[ci2], x)) by {
                    if ci1 < cs_was.len() && ci2 < cs_was.len() {
                        assert(!(in_seq(cs_was[ci1], x) && in_seq(cs_was[ci2], x)));
                    } else {
                        let (co, cn): (int, int) = if ci1 < cs_was.len() {
                            (ci1, ci2)
                        } else {
                            (ci2, ci1)
                        };
                        if in_seq(cs[co], x) && in_seq(cs[cn], x) {
                            assert(in_seq(newc, x));
                            assert(!vis_was[x]) by {
                                assert(in_seq(newc, x) ==> !vis_was[x]);
                            }
                            assert(in_seq(cs_was[co], x));
                            assert(covered(cs_was, x));
                            assert(vis_was[x]);
                        }
                    }
                }
                assert forall|x: int| 0 <= x < n implies (visited@[x] <==> #[trigger] covered(
                    cs,
                    x,
                )) by {
                    if visited@[x] {
                        if vis_was[x] {
                            assert(covered(cs_was, x));
                            let ci = choose|ci: int|
                                0 <= ci < cs_was.len() && #[trigger] in_seq(cs_was[ci], x);
                            assert(in_seq(cs[ci], x));
                        } else {
                            assert(in_seq(newc, x));
                            assert(in_seq(cs[cs.len() - 1], x));
                        }
                    }
                    if covered(cs, x) {
                        let ci = choose|ci: int| 0 <= ci < cs.len() && #[trigger] in_seq(cs[ci], x);
                        if ci < cs_was.len() {
                            assert(covered(cs_was, x));
                            assert(vis_was[x]);
                        } else {
                            assert(in_seq(newc, x));
                        }
                    }
                }
            }
        }
        v = v + 1;
    }
    proof {
        let cs = comps@.map_values(|c: Vec<usize>| c@);
        assert(components_post(m, cs)) by {
            assert forall|ci: int, x: int, y: int|
                0 <= ci < cs.len() && #[trigger] in_seq(cs[ci], x) && #[trigger] in_seq(cs[ci], y)
                    implies connects(m, x, y) by {
                let k = choose|k: int| 0 <= k < cs[ci].len() && (#[trigger] cs[ci][k]) as int == x;
                assert(0 <= x < n);
                assert(connects(m, (cs[ci][0]) as int, x));
                assert(connects(m, (cs[ci][0]) as int, y));
                crate::paths::lemma_connects_sym(m, (cs[ci][0]) as int, x);
                crate::paths::lemma_connects_trans(m, x, (cs[ci][0]) as int, y);
            }
            assert forall|ci1: int, ci2: int, x: int, y: int|
                0 <= ci1 < cs.len() && 0 <= ci2 < cs.len() && ci1 != ci2 && #[trigger] in_seq(
                    cs[ci1],
                    x,
                ) && #[trigger] in_seq(cs[ci2], y) implies !connects(m, x, y) by {
                if connects(m, x, y) {
                    let k = choose|k: int|
                        0 <= k < cs[ci1].len() && (#[trigger] cs[ci1][k]) as int == x;
                    let k2 = choose|k2: int|
                        0 <= k2 < cs[ci2].len() && (#[trigger] cs[ci2][k2]) as int == y;
                    assert(0 <= x < n && 0 <= y < n);
                    assert(connects(m, (cs[ci1][0]) as int, x));
                    crate::paths::lemma_connects_trans(m, (cs[ci1][0]) as int, x, y);
                    assert(in_seq(cs[ci1], y));
                }
            }
        }
    }
    comps
}

/// When every edge's endpoints share a set, whole walks stay inside one
/// set: connectivity refines the partition.
pub(crate) proof fn lemma_connect_implies_same_set(
    m: GraphModel,
    ps: Seq<usize>,
    x: int,
    y: int,
)
    requires
        model_wf(m),
        crate::dsu::dsu_wf(ps),
        ps.len() == m.labels.len(),
        forall|a: int, b: int, w: i64|
            #[trigger] adj_edge(m, a, b, w) ==> crate::dsu::same_set(ps, a, b),
        connects(m, x, y),
        0 <= x < m.labels.len(),
        0 <= y < m.labels.len(),
    ensures
        crate::dsu::same_set(ps, x, y),
{
    let n = m.labels.len() as int;
    let vs = Seq::new(n as nat, |z: int| crate::dsu::same_set(ps, x, z));
    assert(vs[x]);
    assert forall|a: int, b: int|
        0 <= a < vs.len() && 0 <= b < vs.len() && vs[a] && #[trigger] has_edge(m, a, b)
            implies vs[b] by {
        let w = choose|w: i64| #[trigger] adj_edge(m, a, b, w);
        assert(crate::dsu::same_set(ps, a, b));
    }
    let q = choose|q: Seq<usize>|
        #[trigger] is_walk(m, q) && q.first() as int == x && q.last() as int == y;
    lemma_walk_stays(m, vs, q);
    assert(vs[y]);
}

/// Builds the disjoint-set partition of the vertices by uniting the two
/// endpoints of every edge: afterwards sharing a set is exactly being
/// joined by a walk.
fn uf_union_edges(g: &Graph) -> (d: crate::dsu::DSU)
    requires
        g.wf(),
    ensures
        d.wf(),
        d@.len() == g@.labels.len(),
        forall|x: int, y: int|
            0 <= x < g@.labels.len() && 0 <= y < g@.labels.len() ==> (#[trigger] crate::dsu::same_set(
                d@,
                x,
                y,
            ) <==> connects(g@, x, y)),
{
    let ghost m = g@;
    let n = g.size();
    let mut d = crate::dsu::DSU::new(n);
    proof {
        assert forall|x: int, y: int|
            0 <= x < n && 0 <= y < n && #[trigger] crate::dsu::same_set(d@, x, y)
                implies connects(m, x, y) by {
            assert(crate::dsu::root_of(d@, x) == x && crate::dsu::root_of(d@, y) == y);
            lemma_walk_single(m, x as usize);
        }
    }
    let mut i: usize = 0;
    while i < n
        invariant
            g.wf(),
            m == g@,
            n == m.labels.len(),
            d.wf(),
            d@.len() == n,
            i <= n,
            forall|x: int, y: int|
                0 <= x < n && 0 <= y < n && #[trigger] crate::dsu::same_set(d@, x, y) ==> connects(
                    m,
                    x,
                    y,
                ),
            forall|a: int, b: int, w: i64|
                #[trigger] adj_edge(m, a, b, w) && crate::graph::edge_done(m, i as int, 0, a, b, w)
                    ==> crate::dsu::same_set(d@, a, b),
        decreases n - i,
    {
        let lst = g.adj_at(i);
        let nl = lst.len();
        let mut k: usize = 0;
        while k < nl
            invariant
                g.wf(),
                m == g@,
                n == m.labels.len(),
                d.wf(),
                d@.len() == n,
                i < n,
                lst@ == m.adj[i as int],
                nl == lst@.len(),
                k <= nl,
                forall|x: int, y: int|
                    0 <= x < n && 0 <= y < n && #[trigger] crate::dsu::same_set(d@, x, y)
                        ==> connects(m, x, y),
                forall|a: int, b: int, w: i64|
                    #[trigger] adj_edge(m, a, b, w) && crate::graph::edge_done(
                        m,
                        i as int,
                        k as int,
                        a,
                        b,
                        w,
                    ) ==> crate::dsu::same_set(d@, a, b),
            decreases nl - k,
        {
            let (nb, _w) = lst[k];
            proof {
                assert(crate::graph::targets_below(m.adj[i as int], n as int));
                assert(m.adj[i as int][k as int].0 < n);
                assert(adj_edge(m, i as int, nb as int, _w)) by {
                    assert((#[trigger] m.adj[i as int][k as int]).0 as int == nb as int
                        && m.adj[i as int][k as int].1 == _w);
                }
            }
            let ghost ps_was = d@;
            d.union(i, nb);
            proof {
                // merging along a real edge keeps the refinement
                assert forall|x: int, y: int|
                    0 <= x < n && 0 <= y < n && #[trigger] crate::dsu::same_set(d@, x, y)
                        implies connects(m, x, y) by {
                    crate::dsu::lemma_root_idempotent(ps_was, x);
                    crate::dsu::lemma_root_idempotent(ps_was, y);
                    if crate::dsu::same_set(ps_was, x, y) {
                    } else {
                        assert(connects(m, i as int, nb as int)) by {
                            lemma_walk_single(m, i as usize);
                            let q = seq![i as usize];
                            lemma_walk_extend(m, q, nb, _w);
                        }
                        assert(crate::dsu::same_set(ps_was, x, i as int)
                            || crate::dsu::same_set(ps_was, x, nb as int));
                        assert(crate::dsu::same_set(ps_was, y, i as int)
                            || crate::dsu::same_set(ps_was, y, nb as int));
                        if crate::dsu::same_set(ps_was, x, i as int) {
                            assert(connects(m, x, i as int));
                        } else {
                            assert(connects(m, x, nb as int));
                            crate::paths::lemma_connects_sym(m, i as int, nb as int);
                            crate::paths::lemma_connects_trans(m, x, nb as int, i as int);
                        }
                        assert(connects(m, x, i as int));
                        if crate::dsu::same_set(ps_was, y, i as int) {
                            assert(connects(m, y, i as int));
                        } else {
                            assert(connects(m, y, nb as int));
                            crate::paths::lemma_connects_sym(m, i as int, nb as int);
                            crate::paths::lemma_connects_trans(m, y, nb as int, i as int);
                        }
                        crate::paths::lemma_connects_sym(m, y, i as int);
                        crate::paths::lemma_connects_trans(m, x, i as int, y);
                    }
                }
                assert forall|a: int, b: int, w: i64|
                    #[trigger] adj_edge(m, a, b, w) && crate::graph::edge_done(
                        m,
                        i as int,
                        k as int + 1,
                        a,
                        b,
                        w,
                    ) implies crate::dsu::same_set(d@, a, b) by {
                    if crate::graph::edge_done(m, i as int, k as int, a, b, w) {
                        assert(crate::dsu::same_set(ps_was, a, b));
                    } else {
                        assert(a == i as int);
                        assert(crate::graph::nodup_targets(m.adj[a]));
                        let ke = choose|ke: int|
                            0 <= ke < k as int + 1 && (#[trigger] m.adj[a][ke]).0 as int == b
                                && m.adj[a][ke].1 == w;
                        assert(ke == k as int) by {
                            if ke < k as int {
                                assert(crate::graph::edge_done(m, i as int, k as int, a, b, w));
                            }
                        }
                        assert(b == nb as int);
                    }
                }
            }
            k = k + 1;
        }
        proof {
            assert forall|a: int, b: int, w: i64|
                #[trigger] adj_edge(m, a, b, w) && crate::graph::edge_done(m, i as int + 1, 0, a, b, w)
                    implies crate::dsu::same_set(d@, a, b) by {
                if !crate::graph::edge_done(m, i as int, nl as int, a, b, w) {
                    assert(a == i as int);
                    let ke = choose|ke: int|
                        0 <= ke < m.adj[a].len() && (#[trigger] m.adj[a][ke]).0 as int == b
                            && m.adj[a][ke].1 == w;
                    assert(crate::graph::edge_done(m, i as int, nl as int, a, b, w));
                }
            }
        }
        i = i + 1;
    }
    proof {
        assert forall|a: int, b: int, w: i64| #[trigger] adj_edge(m, a, b, w)
            implies crate::dsu::same_set(d@, a, b) by {
            assert(crate::graph::edge_done(m, n as int, 0, a, b, w));
        }
        assert forall|x: int, y: int|
            0 <= x < n && 0 <= y < n && connects(m, x, y) implies #[trigger] crate::dsu::same_set(
            d@,
            x,
            y,
        ) by {
            lemma_connect_implies_same_set(m, d@, x, y);
        }
    }
    d
}

/// Lists each partition class, scanning representatives in position order
/// and members in position order.
fn group_by_root(g: &Graph, d: &mut crate::dsu::DSU) -> (comps: Vec<Vec<usize>>)
    requires
        g.wf(),
        old(d).wf(),
        old(d)@.len() == g@.labels.len(),
        forall|x: int, y: int|
            0 <= x < g@.labels.len() && 0 <= y < g@.labels.len() ==> (#[trigger] crate::dsu::same_set(
                old(d)@,
                x,
                y,
            ) <==> connects(g@, x, y)),
    ensures
        components_post(g@, comps@.map_values(|c: Vec<usize>| c@)),
{
    let ghost m = g@;
    let ghost ps0 = old(d)@;
    let n = g.size();
    let mut comps: Vec<Vec<usize>> = Vec::new();
    let mut rep: usize = 0;
    while rep < n
        invariant
            g.wf(),
            m == g@,
            n == m.labels.len(),
            d.wf(),
            d@.len() == n,
            crate::dsu::dsu_wf(ps0),
            ps0.len() == n,
            forall|j: int| crate::dsu::root_of(d@, j) == crate::dsu::root_of(ps0, j),
            forall|x: int, y: int|
                0 <= x < n && 0 <= y < n ==> (#[trigger] crate::dsu::same_set(ps0, x, y)
                    <==> connects(m, x, y)),
            rep <= n,
            ({
                let cs = comps@.map_values(|c: Vec<usize>| c@);
                &&& forall|ci: int|
                    0 <= ci < cs.len() ==> (#[trigger] cs[ci]).len() > 0 && nodup_seq(cs[ci])
                        && ((cs[ci][0]) as int) < rep && crate::dsu::root_of(
                        ps0,
                        (cs[ci][0]) as int,
                    ) == (cs[ci][0]) as int
                &&& forall|ci: int, k: int|
                    0 <= ci < cs.len() && 0 <= k < cs[ci].len() ==> ((#[trigger] cs[ci][k]) as int)
                        < n
                &&& forall|ci: int, x: int|
                    0 <= ci < cs.len() && 0 <= x < n ==> (#[trigger] in_seq(cs[ci], x)
                        <==> crate::dsu::root_of(ps0, x) == (cs[ci][0]) as int)
                &&& forall|r: int|
                    0 <= r < rep && crate::dsu::root_of(ps0, r) == r ==> exists|ci: int|
                        0 <= ci < cs.len() && ((#[trigger] cs[ci])[0]) as int == r
                &&& forall|ci1: int, ci2: int|
                    0 <= ci1 < cs.len() && 0 <= ci2 < cs.len() && ci1 < ci2 ==> (
                    #[trigger] cs[ci1])[0] < (#[trigger] cs[ci2])[0]
            }),
        decreases n - rep,
    {
        let r0 = d.find(rep);
        if r0 == rep {
            let ghost cs_was = comps@.map_values(|c: Vec<usize>| c@);
            let mut c: Vec<usize> = Vec::new();
            let mut x: usize = 0;
            while x < n
                invariant
                    g.wf(),
                    m == g@,
                    n == m.labels.len(),
                    d.wf(),
                    d@.len() == n,
                    crate::dsu::dsu_wf(ps0),
                    ps0.len() == n,
                    forall|j: int| crate::dsu::root_of(d@, j) == crate::dsu::root_of(ps0, j),
                    rep < n,
                    crate::dsu::root_of(ps0, rep as int) == rep as int,
                    x <= n,
                    forall|k1: int, k2: int|
                        0 <= k1 < k2 < c@.len() ==> (#[trigger] c@[k1]) < (#[trigger] c@[k2]),
                    forall|k: int| 0 <= k < c@.len() ==> ((#[trigger] c@[k]) as int) < x,
                    forall|z: int|
                        0 <= z < x ==> (in_seq(c@, z) <==> crate::dsu::root_of(ps0, z) == rep as int),
                    x > rep ==> c@.len() > 0 && (c@[0]) as int == rep as int,
                decreases n - x,
            {
                let rx = d.find(x);
                if rx == rep {
                    let ghost c_was = c@;
                    c.push(x);
                    proof {
                        assert(c@[c@.len() - 1] == x);
                        assert forall|z: int|
                            0 <= z < x + 1 implies (in_seq(c@, z) <==> crate::dsu::root_of(
                            ps0,
                            z,
                        ) == rep as int) by {
                            if z < x {
                                assert(in_seq(c_was, z) == in_seq(c@, z)) by {
                                    if in_seq(c_was, z) {
                                        let t = choose|t: int|
                                            0 <= t < c_was.len() && (#[trigger] c_was[t]) as int
                                                == z;
                                        assert((c@[t]) as int == z);
                                    }
                                    if in_seq(c@, z) {
                                        let t = choose|t: int|
                                            0 <= t < c@.len() && (#[trigger] c@[t]) as int == z;
                                        assert(t < c_was.len()) by {
                                            if t == c@.len() - 1 {
                                                assert((c@[t]) as int == x as int);
                                            }
                                        }
                                        assert((c_was[t]) as int == z);
                                    }
                                }
                            } else {
                                assert((c@[c@.len() - 1]) as int == z);
                            }
                        }
                        if x == rep {
                            assert((c@[0]) as int == rep as int) by {
                                if c_was.len() > 0 {
                                    assert(((c_was[0]) as int) < rep as int);
                                    assert(in_seq(c_was, (c_was[0]) as int));
                                    crate::dsu::lemma_root_idempotent(ps0, (c_was[0]) as int);
                                    assert(false);
                                }
                            }
                        } else {
                            assert(x > rep) by {
                                if x < rep {
                                    crate::dsu::lemma_root_idempotent(ps0, x as int);
                                    assert(crate::dsu::root_of(ps0, x as int) <= x as int);
                                    assert(false);
                                }
                            }
                            assert((c@[0]) == (c_was[0]));
                        }
                    }
                } else {
                    proof {
                        assert forall|z: int|
                            0 <= z < x + 1 implies (in_seq(c@, z) <==> crate::dsu::root_of(
                            ps0,
                            z,
                        ) == rep as int) by {
                            if z == x as int {
                                if in_seq(c@, z) {
                                    let t = choose|t: int|
                                        0 <= t < c@.len() && (#[trigger] c@[t]) as int == z;
                                    assert(((c@[t]) as int) < x as int);
                                    assert(false);
                                }
                            }
                        }
                        if x == rep {
                            assert(false);
                        }
                    }
                }
                x = x + 1;
            }
            comps.push(c);
            proof {
                let cs = comps@.map_values(|c2: Vec<usize>| c2@);
                let newc = comps@[comps@.len() - 1]@;
                assert(cs.len() == cs_was.len() + 1);
                assert(forall|ci: int| 0 <= ci < cs_was.len() ==> #[trigger] cs[ci] == cs_was[ci]);
                assert(cs[cs.len() - 1] == newc);
                assert(newc.len() > 0 && (newc[0]) as int == rep as int);
                assert(nodup_seq(newc)) by {
                    assert forall|k1: int, k2: int|
                        0 <= k1 < newc.len() && 0 <= k2 < newc.len() && k1 != k2
                            implies (#[trigger] newc[k1]) != (#[trigger] newc[k2]) by {
                        if k1 < k2 {
                            assert(newc[k1] < newc[k2]);
                        } else {
                            assert(newc[k2] < newc[k1]);
                        }
                    }
                }
                assert forall|ci: int, x2: int|
                    0 <= ci < cs.len() && 0 <= x2 < n implies (#[trigger] in_seq(cs[ci], x2)
                        <==> crate::dsu::root_of(ps0, x2) == (cs[ci][0]) as int) by {
                    if ci < cs_was.len() {
                        assert(in_seq(cs_was[ci], x2) <==> crate::dsu::root_of(ps0, x2)
                            == (cs_was[ci][0]) as int);
                    } else {
                        assert(cs[ci] == newc);
                        assert(in_seq(newc, x2) <==> crate::dsu::root_of(ps0, x2) == rep as int);
                    }
                }
                assert forall|r: int|
                    0 <= r < rep + 1 && crate::dsu::root_of(ps0, r) == r implies exists|ci: int|
                        0 <= ci < cs.len() && ((#[trigger] cs[ci])[0]) as int == r by {
                    if r < rep {
                        let ci = choose|ci: int|
                            0 <= ci < cs_was.len() && ((#[trigger] cs_was[ci])[0]) as int == r;
                        assert(((cs[ci])[0]) as int == r);
                    } else {
                        assert(((cs[cs.len() - 1])[0]) as int == r);
                    }
                }
                assert forall|ci1: int, ci2: int|
                    0 <= ci1 < cs.len() && 0 <= ci2 < cs.len() && ci1 < ci2 implies (
                #[trigger] cs[ci1])[0] < (#[trigger] cs[ci2])[0] by {
                    if ci2 < cs_was.len() {
                        assert(cs[ci1] == cs_was[ci1] && cs[ci2] == cs_was[ci2]);
                    } else {
                        assert(cs[ci2] == newc);
                        assert((((cs_was[ci1])[0]) as int) < (rep as int));
                    }
                }
            }
        } else {
            proof {
                crate::dsu::lemma_root_idempotent(ps0, rep as int);
                let cs = comps@.map_values(|c2: Vec<usize>| c2@);
                assert forall|r: int|
                    0 <= r < rep + 1 && crate::dsu::root_of(ps0, r) == r implies exists|ci: int|
                        0 <= ci < cs.len() && ((#[trigger] cs[ci])[0]) as int == r by {
                    if r < rep {
                        let ci = choose|ci: int|
                            0 <= ci < cs.len() && ((#[trigger] cs[ci])[0]) as int == r;
                    }
                }
            }
        }
        rep = rep + 1;
    }
    proof {
        let cs = comps@.map_values(|c: Vec<usize>| c@);
        assert(components_post(m, cs)) by {
            assert forall|x: int| 0 <= x < n implies #[trigger] covered(cs, x) by {
                crate::dsu::lemma_root_idempotent(ps0, x);
                let r = crate::dsu::root_of(ps0, x);
                let ci = choose|ci: int| 0 <= ci < cs.len() && ((#[trigger] cs[ci])[0]) as int == r;
                assert(in_seq(cs[ci], x));
            }
            assert forall|ci1: int, ci2: int, x: int|
                0 <= ci1 < cs.len() && 0 <= ci2 < cs.len() && ci1 != ci2 implies !(
            #[trigger] in_seq(cs[ci1], x) && #[trigger] in_seq(cs[ci2], x)) by {
                if in_seq(cs[ci1], x) && in_seq(cs[ci2], x) {
                    let k = choose|k: int|
                        0 <= k < cs[ci1].len() && (#[trigger] cs[ci1][k]) as int == x;
                    assert(0 <= x < n);
                    assert(crate::dsu::root_of(ps0, x) == (cs[ci1][0]) as int);
                    assert(crate::dsu::root_of(ps0, x) == (cs[ci2][0]) as int);
                    assert(in_seq(cs[ci1], (cs[ci1][0]) as int));
                    assert(in_seq(cs[ci2], (cs[ci1][0]) as int));
                    assert((cs[ci2][0]) == (cs[ci1][0]));
                    // two components would share their representative
                    assert(crate::dsu::root_of(ps0, (cs[ci1][0]) as int) == (cs[ci1][0]) as int);
                    assert(false) by {
                        lemma_distinct_reps(cs, ci1, ci2);
                    }
                }
            }
            assert forall|ci: int, x: int, y: int|
                0 <= ci < cs.len() && #[trigger] in_seq(cs[ci], x) && #[trigger] in_seq(cs[ci], y)
                    implies connects(m, x, y) by {
                let k = choose|k: int| 0 <= k < cs[ci].len() && (#[trigger] cs[ci][k]) as int == x;
                let k2 = choose|k2: int|
                    0 <= k2 < cs[ci].len() && (#[trigger] cs[ci][k2]) as int == y;
                assert(0 <= x < n && 0 <= y < n);
                assert(crate::dsu::same_set(ps0, x, y));
            }
            assert forall|ci1: int, ci2: int, x: int, y: int|
                0 <= ci1 < cs.len() && 0 <= ci2 < cs.len() && ci1 != ci2 && #[trigger] in_seq(
                    cs[ci1],
                    x,
                ) && #[trigger] in_seq(cs[ci2], y) implies !connects(m, x, y) by {
                let k = choose|k: int| 0 <= k < cs[ci1].len() && (#[trigger] cs[ci1][k]) as int == x;
                let k2 = choose|k2: int|
                    0 <= k2 < cs[ci2].len() && (#[trigger] cs[ci2][k2]) as int == y;
                assert(0 <= x < n && 0 <= y < n);
                if connects(m, x, y) {
                    assert(crate::dsu::same_set(ps0, x, y));
                    assert((cs[ci1][0]) == (cs[ci2][0]));
                    lemma_distinct_reps(cs, ci1, ci2);
                }
            }
        }
    }
    comps
}

/// Distinct components in the scan have distinct representatives.
proof fn lemma_distinct_reps(cs: Seq<Seq<usize>>, ci1: int, ci2: int)
    requires
        0 <= ci1 < cs.len(),
        0 <= ci2 < cs.len(),
        ci1 != ci2,
        forall|ci: int| 0 <= ci < cs.len() ==> (#[trigger] cs[ci]).len() > 0,
        forall|k1: int, k2: int|
            0 <= k1 < cs.len() && 0 <= k2 < cs.len() && k1 < k2 ==> (#[trigger] cs[k1])[0] < (
            #[trigger] cs[k2])[0],
    ensures
        cs[ci1][0] != cs[ci2][0],
{
}

impl Graph {
    /// Connected components by disjoint-set union: every edge's endpoints
    /// are united, then the classes are listed by representative in
    /// position order.  Same partition as the traversal variants.
    pub fn get_connected_components_union_find(&self) -> (r: Vec<Vec<u64>>)
        requires
            self.wf(),
        ensures
            exists|cs: Seq<Seq<usize>>|
                #[trigger] components_post(self@, cs) && labeled_components(
                    self@,
                    cs,
                    r@.map_values(|c: Vec<u64>| c@),
                ),
    {
        let mut d = uf_union_edges(self);
        let comps = group_by_root(self, &mut d);
        proof {
            let cs = comps@.map_values(|c: Vec<usize>| c@);
            assert forall|ci: int, k: int|
                0 <= ci < comps@.len() && 0 <= k < comps@[ci]@.len() implies ((
            #[trigger] comps@[ci]@[k]) as int) < self@.labels.len() by {
                assert(cs[ci] == comps@[ci]@);
                assert((cs[ci][k] as int) < self@.labels.len());
            }
        }
        label_components(self, comps)
    }
}

} // verus!
