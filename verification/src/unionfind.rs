//! Union-find over a graph's vertex domain: a `parent` map and a `rank` map
//! allocated through the graph's property-map facility, with union by rank
//! and path halving on find.
//!
//! The model of the structure is a ghost representative map: two slots are
//! in the same set exactly when they share a representative. Find never
//! changes the partition; union merges exactly the two queried sets.

use vstd::prelude::*;

use crate::graph::Graph;
use crate::graph::VertexIndex;
use crate::props::PropVec;
use core::marker::PhantomData;

verus! {

/// How many of the first `k` slots of the parent map are roots.
pub open spec fn roots_upto(p: Seq<usize>, k: int) -> int
    decreases k,
{
    if k <= 0 {
        0
    } else {
        roots_upto(p, k - 1) + if p[k - 1] as int == k - 1 {
            1int
        } else {
            0int
        }
    }
}

proof fn lemma_roots_bounds(p: Seq<usize>, k: int)
    ensures
        0 <= roots_upto(p, k),
        roots_upto(p, k) <= k || k < 0,
    decreases k,
{
    if k > 0 {
        lemma_roots_bounds(p, k - 1);
    }
}

proof fn lemma_roots_mono(p: Seq<usize>, j: int, k: int)
    requires
        j <= k,
    ensures
        roots_upto(p, j) <= roots_upto(p, k),
    decreases k - j,
{
    if j < k {
        lemma_roots_mono(p, j, k - 1);
    }
}

/// Re-pointing slot `idx` to a value other than itself removes one root if
/// `idx` was a root below `k`, and no root otherwise.
proof fn lemma_roots_update(p: Seq<usize>, idx: int, v: usize, k: int)
    requires
        0 <= idx < p.len(),
        k <= p.len(),
        v as int != idx,
    ensures
        roots_upto(p.update(idx, v), k) == roots_upto(p, k) - if p[idx] as int == idx && idx
            < k {
            1int
        } else {
            0int
        },
    decreases k,
{
    if k > 0 {
        lemma_roots_update(p, idx, v, k - 1);
        if k - 1 == idx {
            assert(p.update(idx, v)[k - 1] == v);
        } else {
            assert(p.update(idx, v)[k - 1] == p[k - 1]);
        }
    }
}

/// Two distinct roots make the root count at least two.
proof fn lemma_two_roots(p: Seq<usize>, a: int, b: int)
    requires
        0 <= a < b < p.len(),
        p[a] as int == a,
        p[b] as int == b,
    ensures
        roots_upto(p, p.len() as int) >= 2,
{
    lemma_roots_bounds(p, a);
    assert(roots_upto(p, a + 1) >= 1);
    lemma_roots_mono(p, a + 1, b);
    assert(roots_upto(p, b + 1) >= 2);
    lemma_roots_mono(p, b + 1, p.len() as int);
}

/// An identity prefix of the parent map is all roots.
proof fn lemma_roots_identity(p: Seq<usize>, k: int)
    requires
        forall|j: int| 0 <= j < k ==> (#[trigger] p[j]) as int == j,
    ensures
        roots_upto(p, k) == (if k >= 0 {
            k
        } else {
            0int
        }),
    decreases k,
{
    if k > 0 {
        lemma_roots_identity(p, k - 1);
    }
}

/// A disjoint-set structure over a graph's vertex domain.
pub struct UnionFind<G: Graph> {
    parent: PropVec<usize>,
    rank: PropVec<usize>,
    rep: Ghost<Seq<int>>,
    _graph: PhantomData<G>,
}

impl<G: Graph> UnionFind<G> {
    /// The number of slots: the graph's vertex domain size at creation.
    pub closed spec fn domain(&self) -> int {
        self.parent@.len() as int
    }

    /// The representative of slot `i`: the model of the partition.
    pub closed spec fn rep_of(&self, i: int) -> int {
        self.rep@[i]
    }

    /// Whether two vertices currently belong to one set.
    pub open spec fn same_set(&self, u: G::Vertex, v: G::Vertex) -> bool {
        self.rep_of(G::vindex(u)) == self.rep_of(G::vindex(v))
    }

    /// The representation invariant: parent pointers stay in range and
    /// agree with the representative map, ranks strictly increase along
    /// parent pointers, and every rank leaves room for the remaining roots.
    pub closed spec fn wf(&self) -> bool {
        &&& self.rank@.len() == self.domain()
        &&& self.rep@.len() == self.domain()
        &&& (forall|i: int|
            0 <= i < self.domain() ==> ((#[trigger] self.parent@[i]) as int) < self.domain())
        &&& (forall|i: int|
            0 <= i < self.domain() ==> 0 <= #[trigger] self.rep@[i] < self.domain())
        &&& (forall|i: int|
            0 <= i < self.domain() ==> self.rep@[(#[trigger] self.parent@[i]) as int]
                == self.rep@[i])
        &&& (forall|i: int|
            0 <= i < self.domain() && (#[trigger] self.parent@[i]) as int == i
                ==> self.rep@[i] == i)
        &&& (forall|i: int|
            0 <= i < self.domain() && (#[trigger] self.parent@[i]) as int != i
                ==> self.rank@[i] < self.rank@[self.parent@[i] as int])
        &&& (forall|i: int|
            0 <= i < self.domain() ==> (#[trigger] self.rank@[i]) as int + roots_upto(
                self.parent@,
                self.domain(),
            ) <= self.domain())
    }

    /// Re-seeds every slot as a singleton set, without reallocating.
    #[verifier::loop_isolation(false)]
    fn seed(&mut self)
        requires
            old(self).rank@.len() == old(self).parent@.len(),
        ensures
            final(self).wf(),
            final(self).domain() == old(self).domain(),
            forall|i: int| 0 <= i < final(self).domain() ==> final(self).rep_of(i) == i,
    {
        let n = self.parent.len();
        let mut k: usize = 0;
        while k < n
            invariant
                k <= n,
                self.parent@.len() == n,
                self.rank@.len() == n,
                forall|j: int|
                    0 <= j < k ==> (#[trigger] self.parent@[j]) as int == j && self.rank@[j]
                        == 0,
            decreases n - k,
        {
            let ghost oldp = self.parent@;
            let ghost oldr = self.rank@;
            let ghost k0 = k as int;
            self.parent.set(k, k);
            self.rank.set(k, 0);
            k = k + 1;
            proof {
                assert forall|j: int| 0 <= j < k implies ((#[trigger] self.parent@[j]) as int)
                    == j && self.rank@[j] == 0 by {
                    if j < k0 {
                        assert(self.parent@[j] == oldp[j]);
                        assert(self.rank@[j] == oldr[j]);
                    } else {
                        assert(j == k0);
                        assert(self.parent@[j] as int == j);
                        assert(self.rank@[j] == 0);
                    }
                }
            }
        }
        proof {
            self.rep@ = Seq::new(n as nat, |i: int| i);
            lemma_roots_identity(self.parent@, n as int);
            assert(roots_upto(self.parent@, self.domain()) == n as int);
            assert forall|i: int| 0 <= i < self.domain() implies #[trigger] self.rep@[i]
                == i by {
            }
            assert(self.rank@.len() == self.domain());
            assert(self.rep@.len() == self.domain());
            assert forall|i: int| 0 <= i < self.domain() implies ((
            #[trigger] self.parent@[i]) as int) < self.domain() && (self.parent@[i] as int) == i
                && self.rank@[i] == 0 by {
            }
            assert(forall|i: int|
                0 <= i < self.domain() ==> 0 <= #[trigger] self.rep@[i] < self.domain());
            assert(forall|i: int|
                0 <= i < self.domain() ==> self.rep@[(#[trigger] self.parent@[i]) as int]
                    == self.rep@[i]);
            assert(forall|i: int|
                0 <= i < self.domain() && (#[trigger] self.parent@[i]) as int == i
                    ==> self.rep@[i] == i);
            assert(forall|i: int|
                0 <= i < self.domain() && (#[trigger] self.parent@[i]) as int != i
                    ==> self.rank@[i] < self.rank@[self.parent@[i] as int]);
            assert forall|i: int|
                0 <= i < self.domain() implies (#[trigger] self.rank@[i]) as int + roots_upto(
                self.parent@,
                self.domain(),
            ) <= self.domain() by {
                assert((self.parent@[i] as int) == i);
            }
            assert(self.wf());
        }
    }

    /// Follows parent pointers to the root, halving the path: every visited
    /// slot is re-pointed at its grandparent. The partition is unchanged
    /// and the returned slot is its set's representative, a root.
    #[verifier::loop_isolation(false)]
    fn find_index(&mut self, start: usize) -> (r: usize)
        requires
            old(self).wf(),
            (start as int) < old(self).domain(),
        ensures
            final(self).wf(),
            final(self).domain() == old(self).domain(),
            final(self).rep@ == old(self).rep@,
            r as int == old(self).rep@[start as int],
            (final(self).parent@[r as int]) as int == r as int,
            forall|x: int|
                0 <= x < final(self).domain() ==> (((#[trigger] final(self).parent@[x]) as int
                    == x) <==> (old(self).parent@[x] as int == x)),
    {
        let mut i = start;
        loop
            invariant
                self.wf(),
                self.domain() == old(self).domain(),
                self.rep@ == old(self).rep@,
                self.rank@ == old(self).rank@,
                (i as int) < self.domain(),
                self.rep@[i as int] == old(self).rep@[start as int],
                forall|x: int|
                    0 <= x < self.domain() ==> (((#[trigger] self.parent@[x]) as int == x)
                        <==> (old(self).parent@[x] as int == x)),
            decreases self.domain() - self.rank@[i as int],
        {
            proof {
                lemma_roots_bounds(self.parent@, self.domain());
            }
            let p = *self.parent.get(i);
            if p == i {
                return i;
            }
            let gp = *self.parent.get(p);
            proof {
                assert(self.rank@[i as int] < self.rank@[p as int]);
                if (self.parent@[p as int]) as int != p as int {
                    assert(self.rank@[p as int] < self.rank@[gp as int]);
                }
                assert(gp != i);
                lemma_roots_update(self.parent@, i as int, gp, self.domain());
            }
            let ghost oldp = self.parent@;
            self.parent.set(i, gp);
            proof {
                assert(roots_upto(self.parent@, self.domain()) == roots_upto(
                    oldp,
                    self.domain(),
                ));
                assert(self.rep@[gp as int] == self.rep@[i as int]);
            }
            i = p;
        }
    }

    /// Merges the sets of `u` and `v`, attaching the lower-rank root under
    /// the higher-rank one; a no-op when they already share a set. Exactly
    /// the two queried sets are merged; every other set is untouched.
    #[verifier::loop_isolation(false)]
    pub fn union(&mut self, u: G::Vertex, v: G::Vertex)
        requires
            old(self).wf(),
            0 <= G::vindex(u) < old(self).domain(),
            0 <= G::vindex(v) < old(self).domain(),
        ensures
            final(self).wf(),
            final(self).domain() == old(self).domain(),
            forall|x: int, y: int|
                0 <= x < final(self).domain() && 0 <= y < final(self).domain() ==> ((
                #[trigger] final(self).rep_of(x) == #[trigger] final(self).rep_of(y)) <==> {
                    ||| old(self).rep_of(x) == old(self).rep_of(y)
                    ||| (old(self).rep_of(x) == old(self).rep_of(G::vindex(u)) && old(
                        self,
                    ).rep_of(y) == old(self).rep_of(G::vindex(v)))
                    ||| (old(self).rep_of(x) == old(self).rep_of(G::vindex(v)) && old(
                        self,
                    ).rep_of(y) == old(self).rep_of(G::vindex(u)))
                }),
    {
        let iu = G::vertex_index(u);
        let iv = G::vertex_index(v);
        let ru = self.find_index(iu);
        let rv = self.find_index(iv);
        if ru == rv {
            return ;
        }
        let ghost oldrep = self.rep@;
        let ghost n = self.domain();
        proof {
            assert(oldrep[ru as int] == ru as int);
            assert(oldrep[rv as int] == rv as int);
        }
        let rku = *self.rank.get(ru);
        let rkv = *self.rank.get(rv);
        if rku < rkv {
            self.attach(ru, rv);
        } else if rkv < rku {
            self.attach(rv, ru);
        } else {
            let nn = self.parent.len();
            proof {
                if (ru as int) < rv as int {
                    lemma_two_roots(self.parent@, ru as int, rv as int);
                } else {
                    lemma_two_roots(self.parent@, rv as int, ru as int);
                }
                lemma_roots_bounds(self.parent@, n);
                assert(rkv as int + 2 <= nn as int);
            }
            let bumped = rkv + 1;
            self.rank.set(rv, bumped);
            self.attach(ru, rv);
        }
    }

    /// Re-points root `a` at root `b` and remaps `a`'s set onto `b`'s
    /// representative.
    fn attach(&mut self, a: usize, b: usize)
        requires
            (a as int) < old(self).domain(),
            (b as int) < old(self).domain(),
            a != b,
            old(self).rank@.len() == old(self).parent@.len(),
            old(self).rep@.len() == old(self).parent@.len(),
            old(self).parent@[a as int] as int == a as int,
            old(self).parent@[b as int] as int == b as int,
            old(self).rank@[a as int] < old(self).rank@[b as int],
            forall|i: int|
                0 <= i < old(self).domain() ==> ((#[trigger] old(self).parent@[i]) as int) < old(
                    self,
                ).domain(),
            forall|i: int|
                0 <= i < old(self).domain() ==> 0 <= #[trigger] old(self).rep@[i] < old(
                    self,
                ).domain(),
            forall|i: int|
                0 <= i < old(self).domain() ==> old(self).rep@[(#[trigger] old(
                    self,
                ).parent@[i]) as int] == old(self).rep@[i],
            forall|i: int|
                0 <= i < old(self).domain() && (#[trigger] old(self).parent@[i]) as int == i
                    ==> old(self).rep@[i] == i,
            forall|i: int|
                0 <= i < old(self).domain() && (#[trigger] old(self).parent@[i]) as int != i
                    ==> old(self).rank@[i] < old(self).rank@[old(self).parent@[i] as int],
            forall|i: int|
                0 <= i < old(self).domain() ==> (#[trigger] old(self).rank@[i]) as int
                    + roots_upto(old(self).parent@, old(self).domain()) - 1 <= old(
                    self,
                ).domain(),
        ensures
            final(self).wf(),
            final(self).domain() == old(self).domain(),
            forall|x: int|
                0 <= x < final(self).domain() ==> final(self).rep_of(x) == (if old(
                    self,
                ).rep_of(x) == a as int {
                    b as int
                } else {
                    old(self).rep_of(x)
                }),
    {
        let ghost n = self.domain();
        let ghost oldrep = self.rep@;
        proof {
            lemma_roots_update(self.parent@, a as int, b, n);
        }
        self.parent.set(a, b);
        proof {
            self.rep@ = Seq::new(n as nat, |x: int|
                if oldrep[x] == a as int {
                    b as int
                } else {
                    oldrep[x]
                });
            assert(oldrep[a as int] == a as int);
            assert(oldrep[b as int] == b as int);
            assert forall|i: int|
                0 <= i < n implies self.rep@[(#[trigger] self.parent@[i]) as int]
                == self.rep@[i] by {
                if i == a as int {
                    assert(self.parent@[i] as int == b as int);
                } else {
                    assert(self.parent@[i] == old(self).parent@[i]);
                    assert(oldrep[self.parent@[i] as int] == oldrep[i]);
                }
            }
            assert forall|i: int|
                0 <= i < n && (#[trigger] self.parent@[i]) as int == i implies self.rep@[i]
                == i by {
                assert(i != a as int);
                assert(old(self).parent@[i] as int == i);
                assert(oldrep[i] == i);
            }
        }
    }

    /// Whether `u` and `v` are in one set; compresses paths as it looks, so
    /// it takes the structure exclusively, but the partition is unchanged.
    pub fn in_same_set(&mut self, u: G::Vertex, v: G::Vertex) -> (r: bool)
        requires
            old(self).wf(),
            0 <= G::vindex(u) < old(self).domain(),
            0 <= G::vindex(v) < old(self).domain(),
        ensures
            final(self).wf(),
            final(self).domain() == old(self).domain(),
            forall|i: int|
                0 <= i < final(self).domain() ==> final(self).rep_of(i) == old(self).rep_of(i),
            r == old(self).same_set(u, v),
    {
        let ru = self.find_index(G::vertex_index(u));
        let rv = self.find_index(G::vertex_index(v));
        ru == rv
    }

    /// Re-seeds every vertex of `g`'s domain as a singleton set, without
    /// reallocating the backing property maps.
    pub fn reset(&mut self, g: &G)
        requires
            old(self).wf(),
            g.inv(),
            g.vertex_domain() == old(self).domain(),
        ensures
            final(self).wf(),
            final(self).domain() == old(self).domain(),
            forall|i: int| 0 <= i < final(self).domain() ==> final(self).rep_of(i) == i,
    {
        self.seed();
    }
}

/// Equips every graph with a union-find factory over its vertex domain.
pub trait WithUnionFind: Graph {
    /// A disjoint-set structure in which every slot of this graph's vertex
    /// domain starts as a singleton set.
    fn new_unionfind(&self) -> (ds: UnionFind<Self>)
        requires
            self.inv(),
        ensures
            ds.wf(),
            ds.domain() == self.vertex_domain(),
            forall|i: int| 0 <= i < ds.domain() ==> ds.rep_of(i) == i,
    {
        let n = self.vertex_domain_size();
        let parent: PropVec<usize> = PropVec::new_filled(n, 0);
        let rank: PropVec<usize> = PropVec::new_filled(n, 0);
        let mut ds = UnionFind { parent, rank, rep: Ghost(Seq::empty()), _graph: PhantomData };
        ds.seed();
        ds
    }
}

impl<G: Graph> WithUnionFind for G {

}

} // verus!
