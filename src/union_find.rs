use vstd::prelude::*;
use vstd::set_lib::{lemma_int_range, lemma_len_subset, set_int_range};

verus! {

/// A disjoint-set forest over the elements `0..n`, merged by size.
///
/// Each element's parent link leads to the representative of its set, a root
/// whose parent is itself. No path compression is done.
pub struct UnionFind {
    parent: Vec<usize>,
    size: Vec<usize>,
    nsets: usize,
    reps: Ghost<Seq<int>>,
    depth: Ghost<Seq<nat>>,
}

impl UnionFind {
    /// Number of elements.
    pub closed spec fn n(&self) -> nat {
        self.parent@.len()
    }

    /// The representative of `x`'s set.
    pub closed spec fn rep(&self, x: int) -> int {
        self.reps@[x]
    }

    /// The elements whose representative is `r`.
    pub open spec fn members(&self, r: int) -> Set<int> {
        Set::new(|y: int| 0 <= y < self.n() && self.rep(y) == r)
    }

    /// The representatives, one for each set.
    pub open spec fn roots(&self) -> Set<int> {
        Set::new(|y: int| 0 <= y < self.n() && self.rep(y) == y)
    }

    pub closed spec fn wf(&self) -> bool {
        let n = self.parent@.len();
        &&& self.size@.len() == n
        &&& self.reps@.len() == n
        &&& self.depth@.len() == n
        &&& forall|x: int| 0 <= x < n ==> #[trigger] self.parent@[x] < n
        &&& forall|x: int| 0 <= x < n ==> 0 <= #[trigger] self.reps@[x] < n
        &&& forall|x: int|
            0 <= x < n ==> (#[trigger] self.parent@[x] == x <==> self.reps@[x] == x)
        &&& forall|x: int|
            0 <= x < n ==> #[trigger] self.reps@[self.reps@[x]] == self.reps@[x]
        &&& forall|x: int|
            0 <= x < n && #[trigger] self.parent@[x] != x ==> {
                &&& self.reps@[self.parent@[x] as int] == self.reps@[x]
                &&& self.depth@[self.parent@[x] as int] < self.depth@[x]
            }
        &&& forall|r: int|
            0 <= r < n && #[trigger] self.reps@[r] == r ==> self.size@[r] == self.members(
                r,
            ).len()
        &&& self.nsets == self.roots().len()
    }

    proof fn lemma_finite(&self, r: int)
        requires
            self.wf(),
        ensures
            self.members(r).finite(),
            self.members(r).len() <= self.n(),
            self.roots().finite(),
            self.roots().len() <= self.n(),
    {
        lemma_int_range(0, self.n() as int);
        lemma_len_subset(self.members(r), set_int_range(0, self.n() as int));
        lemma_len_subset(self.roots(), set_int_range(0, self.n() as int));
    }

    /// There are finitely many representatives.
    pub proof fn lemma_roots_finite(&self)
        requires
            self.wf(),
        ensures
            self.roots().finite(),
            self.roots().len() <= self.n(),
    {
        self.lemma_finite(0);
    }

    /// Makes `n` singleton sets: each element is its own representative.
    pub fn new(nsets: usize) -> (r: Self)
        ensures
            r.wf(),
            r.n() == nsets,
            forall|x: int| 0 <= x < nsets ==> #[trigger] r.rep(x) == x,
            r.roots().len() == nsets,
    {
        let mut parent: Vec<usize> = Vec::with_capacity(nsets);
        let mut size: Vec<usize> = Vec::with_capacity(nsets);
        let mut i: usize = 0;
        while i < nsets
            invariant
                i <= nsets,
                parent@.len() == i,
                size@.len() == i,
                forall|x: int| 0 <= x < i ==> #[trigger] parent@[x] == x,
                forall|x: int| 0 <= x < i ==> #[trigger] size@[x] == 1,
            decreases nsets - i,
        {
            parent.push(i);
            size.push(1);
            i += 1;
        }
        let ghost reps = Seq::new(nsets as nat, |x: int| x);
        let ghost depth = Seq::new(nsets as nat, |x: int| 0nat);
        let r = UnionFind { parent, size, nsets, reps: Ghost(reps), depth: Ghost(depth) };
        proof {
            assert forall|x: int| 0 <= x < nsets && #[trigger] r.reps@[x] == x implies r.size@[x]
                == r.members(x).len() by {
                assert(r.members(x) =~= set![x]);
            }
            assert(r.roots() =~= set_int_range(0, nsets as int));
            lemma_int_range(0, nsets as int);
        }
        r
    }

    /// Number of elements.
    pub fn len(&self) -> (r: usize)
        ensures
            r == self.n(),
    {
        self.parent.len()
    }

    /// Number of disjoint sets.
    pub fn set_count(&self) -> (r: usize)
        requires
            self.wf(),
        ensures
            r == self.roots().len(),
    {
        self.nsets
    }

    /// The representative of `idx`'s set, found by following parent links.
    pub fn find(&self, idx: usize) -> (r: usize)
        requires
            self.wf(),
            idx < self.n(),
        ensures
            r == self.rep(idx as int),
            self.rep(r as int) == r,
    {
        let mut cur = idx;
        while cur != self.parent[cur]
            invariant
                self.wf(),
                cur < self.n(),
                self.reps@[cur as int] == self.reps@[idx as int],
            decreases self.depth@[cur as int],
        {
            cur = self.parent[cur];
        }
        cur
    }

    /// The number of elements in `idx`'s set.
    pub fn size(&self, idx: usize) -> (r: usize)
        requires
            self.wf(),
            idx < self.n(),
        ensures
            r == self.members(self.rep(idx as int)).len(),
    {
        let root = self.find(idx);
        self.size[root]
    }

    /// Merges the sets of `x` and `y`: the root of the smaller set goes under
    /// the root of the larger, and on equal sizes `y`'s root goes under `x`'s.
    /// Nothing changes when both are already in one set.
    pub fn union(&mut self, x: usize, y: usize)
        requires
            old(self).wf(),
            x < old(self).n(),
            y < old(self).n(),
        ensures
            final(self).wf(),
            final(self).n() == old(self).n(),
            final(self).rep(x as int) == final(self).rep(y as int),
            old(self).rep(x as int) == old(self).rep(y as int) ==> {
                &&& forall|z: int| 0 <= z < old(self).n() ==> #[trigger] final(self).rep(z) == old(self).rep(z)
                &&& final(self).roots().len() == old(self).roots().len()
            },
            old(self).rep(x as int) != old(self).rep(y as int) ==> {
                let rx = old(self).rep(x as int);
                let ry = old(self).rep(y as int);
                let (winner, loser) = if old(self).members(rx).len() < old(self).members(ry).len() {
                    (ry, rx)
                } else {
                    (rx, ry)
                };
                &&& forall|z: int|
                    0 <= z < old(self).n() ==> #[trigger] final(self).rep(z) == if old(self).rep(z)
                        == loser {
                        winner
                    } else {
                        old(self).rep(z)
                    }
                &&& final(self).roots().len() == old(self).roots().len() - 1
            },
    {
        if x == y {
            return ;
        }
        let x_root = self.find(x);
        let y_root = self.find(y);
        if x_root == y_root {
            return ;
        }
        let (winner, loser) = if self.size[x_root] < self.size[y_root] {
            (y_root, x_root)
        } else {
            (x_root, y_root)
        };
        let n = self.parent.len();
        let ghost old_self = *self;
        proof {
            old_self.lemma_finite(winner as int);
            old_self.lemma_finite(loser as int);
            assert(old_self.members(winner as int).disjoint(old_self.members(loser as int)));
            vstd::set_lib::lemma_set_disjoint_lens(
                old_self.members(winner as int),
                old_self.members(loser as int),
            );
            lemma_int_range(0, old_self.n() as int);
            lemma_len_subset(
                old_self.members(winner as int) + old_self.members(loser as int),
                set_int_range(0, old_self.n() as int),
            );
            assert(old_self.n() == n);
            old_self.lemma_finite(0);
            assert(old_self.roots().contains(loser as int));
            assert(old_self.roots().remove(loser as int).len() + 1 == old_self.roots().len());
        }
        let merged = self.size[winner] + self.size[loser];
        self.parent.set(loser, winner);
        self.size.set(winner, merged);
        self.nsets = self.nsets - 1;
        proof {
            let w = winner as int;
            let l = loser as int;
            let d = old_self.depth@[w];
            self.reps = Ghost(
                Seq::new(old_self.n(), |z: int| if old_self.reps@[z] == l { w } else { old_self.reps@[z] }),
            );
            self.depth = Ghost(
                Seq::new(
                    old_self.n(),
                    |z: int| if old_self.reps@[z] == l { old_self.depth@[z] + d + 1 } else { old_self.depth@[z] },
                ),
            );
            let nn = self.n() as int;
            assert forall|z: int| 0 <= z < nn implies (#[trigger] self.parent@[z] == z <==> self.reps@[z] == z) by {
                if z == l {
                } else {
                    assert(old_self.parent@[z] == self.parent@[z]);
                }
            }
            assert forall|z: int| 0 <= z < nn && #[trigger] self.parent@[z] != z implies {
                &&& self.reps@[self.parent@[z] as int] == self.reps@[z]
                &&& self.depth@[self.parent@[z] as int] < self.depth@[z]
            } by {
                if z == l {
                } else {
                    assert(old_self.parent@[z] == self.parent@[z]);
                }
            }
            assert forall|z: int| 0 <= z < nn implies #[trigger] self.reps@[self.reps@[z]] == self.reps@[z] by {
                assert(old_self.reps@[old_self.reps@[z]] == old_self.reps@[z]);
            }
            assert(self.members(w) =~= old_self.members(w) + old_self.members(l));
            assert forall|r: int|
                0 <= r < nn && #[trigger] self.reps@[r] == r implies self.size@[r]
                == self.members(r).len() by {
                if r != w {
                    assert(self.members(r) =~= old_self.members(r));
                }
            }
            assert(self.roots() =~= old_self.roots().remove(l));
            old_self.lemma_finite(0);
            assert(old_self.roots().contains(l));
            assert(self.nsets == self.roots().len());
        }
    }
}

/// Looking up a representative's own representative gives it back.
pub proof fn lemma_rep_of_rep(uf: &UnionFind, x: int)
    requires
        uf.wf(),
        0 <= x < uf.n(),
    ensures
        uf.rep(uf.rep(x)) == uf.rep(x),
        0 <= uf.rep(x) < uf.n(),
{
}

/// Every element belongs to the set of its own representative.
pub proof fn lemma_member_of_own_set(uf: &UnionFind, x: int)
    requires
        uf.wf(),
        0 <= x < uf.n(),
    ensures
        uf.members(uf.rep(x)).contains(x),
        uf.roots().contains(uf.rep(x)),
{
}

} // verus!
