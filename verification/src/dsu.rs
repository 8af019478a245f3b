//! Disjoint-set union over vertex positions, with iterative path
//! compression.  Sets are linked by root index (the smaller root wins), so
//! parent pointers strictly decrease toward the root; that makes every
//! chain finite and keeps each class's representative equal to its least
//! member.

use vstd::prelude::*;

verus! {

/// Parent pointers never point upward: the root of a class is its least
/// member.
pub open spec fn dsu_wf(ps: Seq<usize>) -> bool {
    forall|i: int| 0 <= i < ps.len() ==> (#[trigger] ps[i]) as int <= i
}

/// The representative reached by following parent pointers from `i`.
pub open spec fn root_of(ps: Seq<usize>, i: int) -> int
    decreases i,
{
    if 0 <= i < ps.len() && (ps[i] as int) < i {
        root_of(ps, ps[i] as int)
    } else {
        i
    }
}

/// Two positions are in the same set.
pub open spec fn same_set(ps: Seq<usize>, i: int, j: int) -> bool {
    root_of(ps, i) == root_of(ps, j)
}

/// A root resolves to itself.
pub proof fn lemma_root_idempotent(ps: Seq<usize>, i: int)
    requires
        dsu_wf(ps),
        0 <= i < ps.len(),
    ensures
        0 <= root_of(ps, i) <= i,
        root_of(ps, i) < ps.len(),
        ps[root_of(ps, i)] as int == root_of(ps, i),
        root_of(ps, root_of(ps, i)) == root_of(ps, i),
    decreases i,
{
    if (ps[i] as int) < i {
        lemma_root_idempotent(ps, ps[i] as int);
    }
}

/// Redirecting one position straight to its root changes no class.
proof fn lemma_compress(ps: Seq<usize>, x: int, r: usize)
    requires
        dsu_wf(ps),
        0 <= x < ps.len(),
        root_of(ps, x) == r as int,
    ensures
        dsu_wf(ps.update(x, r)),
        forall|j: int| root_of(#[trigger] ps.update(x, r), j) == root_of(ps, j),
{
    lemma_root_idempotent(ps, x);
    let ps2 = ps.update(x, r);
    assert forall|j: int| root_of(#[trigger] ps.update(x, r), j) == root_of(ps, j) by {
        lemma_compress_one(ps, x, r, j);
    }
}

/// Helper for `lemma_compress`, by induction on the queried position.
proof fn lemma_compress_one(ps: Seq<usize>, x: int, r: usize, j: int)
    requires
        dsu_wf(ps),
        0 <= x < ps.len(),
        root_of(ps, x) == r as int,
    ensures
        root_of(ps.update(x, r), j) == root_of(ps, j),
    decreases j,
{
    lemma_root_idempotent(ps, x);
    let ps2 = ps.update(x, r);
    if 0 <= j < ps.len() {
        if j == x {
            if (r as int) < j {
                assert(ps2[j] == r);
                lemma_compress_one(ps, x, r, r as int);
                assert(root_of(ps, r as int) == r as int);
            } else {
                assert(r as int == j);
                assert(root_of(ps, j) == j);
            }
        } else {
            assert(ps2[j] == ps[j]);
            if (ps[j] as int) < j {
                lemma_compress_one(ps, x, r, ps[j] as int);
            }
        }
    }
}

/// Linking root `hi` under the smaller root `lo` merges exactly their two
/// classes, with `lo` as the new representative.
proof fn lemma_link(ps: Seq<usize>, lo: usize, hi: usize)
    requires
        dsu_wf(ps),
        (lo as int) < ps.len(),
        (hi as int) < ps.len(),
        ps[lo as int] == lo,
        ps[hi as int] == hi,
        lo < hi,
    ensures
        dsu_wf(ps.update(hi as int, lo)),
        forall|j: int|
            root_of(#[trigger] ps.update(hi as int, lo), j) == if root_of(ps, j) == hi as int {
                lo as int
            } else {
                root_of(ps, j)
            },
{
    assert forall|j: int|
        root_of(#[trigger] ps.update(hi as int, lo), j) == if root_of(ps, j) == hi as int {
            lo as int
        } else {
            root_of(ps, j)
        } by {
        lemma_link_one(ps, lo, hi, j);
    }
}

/// Helper for `lemma_link`, by induction on the queried position.
proof fn lemma_link_one(ps: Seq<usize>, lo: usize, hi: usize, j: int)
    requires
        dsu_wf(ps),
        (lo as int) < ps.len(),
        (hi as int) < ps.len(),
        ps[lo as int] == lo,
        ps[hi as int] == hi,
        lo < hi,
    ensures
        root_of(ps.update(hi as int, lo), j) == if root_of(ps, j) == hi as int {
            lo as int
        } else {
            root_of(ps, j)
        },
    decreases j,
{
    let ps2 = ps.update(hi as int, lo);
    if 0 <= j < ps.len() {
        if j == hi as int {
            assert(ps2[j] == lo);
            assert(root_of(ps, j) == j);
            assert(root_of(ps2, lo as int) == lo as int) by {
                assert(ps2[lo as int] == lo);
            }
        } else {
            assert(ps2[j] == ps[j]);
            if (ps[j] as int) < j {
                lemma_link_one(ps, lo, hi, ps[j] as int);
            } else {
                assert(root_of(ps, j) == j && j != hi as int);
            }
        }
    }
}

/// Disjoint-set union over the positions `0 .. len`.
pub struct DSU {
    parent: Vec<usize>,
}

impl View for DSU {
    type V = Seq<usize>;

    closed spec fn view(&self) -> Seq<usize> {
        self.parent@
    }
}

impl DSU {
    /// The structure's invariant.
    pub open spec fn wf(self) -> bool {
        dsu_wf(self@)
    }

    /// Creates `n` singleton sets.
    pub fn new(n: usize) -> (d: DSU)
        ensures
            d.wf(),
            d@.len() == n,
            forall|i: int| 0 <= i < n ==> root_of(d@, i) == i,
    {
        let mut parent: Vec<usize> = Vec::new();
        let mut i: usize = 0;
        while i < n
            invariant
                i <= n,
                parent@.len() == i,
                forall|t: int| 0 <= t < i ==> (#[trigger] parent@[t]) == t,
            decreases n - i,
        {
            parent.push(i);
            i = i + 1;
        }
        let d = DSU { parent };
        d
    }

    /// Representative of `i`'s set, compressing the followed chain; no
    /// set changes.
    pub fn find(&mut self, i: usize) -> (r: usize)
        requires
            old(self).wf(),
            (i as int) < old(self)@.len(),
        ensures
            final(self).wf(),
            final(self)@.len() == old(self)@.len(),
            r as int == root_of(old(self)@, i as int),
            forall|j: int| root_of(final(self)@, j) == root_of(old(self)@, j),
    {
        let ghost ps0 = self@;
        let mut cur = i;
        while self.parent[cur] != cur
            invariant
                self.wf(),
                self@ == ps0,
                (cur as int) < self@.len(),
                root_of(self@, cur as int) == root_of(ps0, i as int),
            decreases cur,
        {
            cur = self.parent[cur];
        }
        let root = cur;
        proof {
            assert(root_of(ps0, root as int) == root as int);
            lemma_root_idempotent(ps0, i as int);
        }
        let mut cur2 = i;
        while self.parent[cur2] != cur2
            invariant
                self.wf(),
                self@.len() == ps0.len(),
                (cur2 as int) < self@.len(),
                root_of(self@, cur2 as int) == root as int,
                (root as int) <= cur2 as int,
                forall|j: int| root_of(self@, j) == root_of(ps0, j),
            decreases cur2,
        {
            let nxt = self.parent[cur2];
            proof {
                assert((nxt as int) < cur2 as int);
                assert(root_of(self@, nxt as int) == root as int);
                lemma_root_idempotent(self@, nxt as int);
                lemma_compress(self@, cur2 as int, root);
            }
            let ghost ps_cur = self@;
            self.parent[cur2] = root;
            proof {
                assert(self@ == ps_cur.update(cur2 as int, root));
                assert(root_of(self@, nxt as int) == root_of(ps_cur, nxt as int));
            }
            cur2 = nxt;
        }
        root
    }

    /// Joins the sets of `i` and `j`; reports whether they were separate.
    /// The smaller of the two representatives represents the merged set.
    pub fn union(&mut self, i: usize, j: usize) -> (r: bool)
        requires
            old(self).wf(),
            (i as int) < old(self)@.len(),
            (j as int) < old(self)@.len(),
        ensures
            final(self).wf(),
            final(self)@.len() == old(self)@.len(),
            r == (root_of(old(self)@, i as int) != root_of(old(self)@, j as int)),
            forall|x: int|
                root_of(final(self)@, x) == if root_of(old(self)@, x) == root_of(old(self)@, i as int)
                    || root_of(old(self)@, x) == root_of(old(self)@, j as int) {
                    vstd::math::min(
                        root_of(old(self)@, i as int),
                        root_of(old(self)@, j as int),
                    )
                } else {
                    root_of(old(self)@, x)
                },
    {
        let ghost ps0 = self@;
        let ri = self.find(i);
        let rj = self.find(j);
        if ri == rj {
            proof {
                assert forall|x: int|
                    root_of(self@, x) == if root_of(ps0, x) == root_of(ps0, i as int)
                        || root_of(ps0, x) == root_of(ps0, j as int) {
                        vstd::math::min(root_of(ps0, i as int), root_of(ps0, j as int))
                    } else {
                        root_of(ps0, x)
                    } by {
                    lemma_root_idempotent(ps0, i as int);
                }
            }
            return false;
        }
        let (lo, hi) = if ri < rj {
            (ri, rj)
        } else {
            (rj, ri)
        };
        proof {
            lemma_root_idempotent(ps0, i as int);
            lemma_root_idempotent(ps0, j as int);
            assert(self@[lo as int] == lo && self@[hi as int] == hi) by {
                lemma_root_idempotent(self@, lo as int);
                lemma_root_idempotent(self@, hi as int);
                assert(root_of(self@, lo as int) == root_of(ps0, lo as int));
                assert(root_of(ps0, lo as int) == lo as int);
                assert(root_of(self@, hi as int) == hi as int);
            }
            lemma_link(self@, lo, hi);
        }
        let ghost ps1 = self@;
        self.parent[hi] = lo;
        proof {
            assert(self@ == ps1.update(hi as int, lo));
        }
        true
    }
}

} // verus!
