//! Disjoint sets over `0..n` with path compression and union by rank.
use vstd::prelude::*;
use vstd::arithmetic::power2::*;

verus! {

/// Number of entries of `s` equal to `r`.
pub open spec fn count_eq(s: Seq<int>, r: int) -> nat
    decreases s.len(),
{
    if s.len() == 0 {
        0
    } else {
        count_eq(s.drop_last(), r) + if s.last() == r { 1nat } else { 0nat }
    }
}

/// `s` with every entry equal to `from` replaced by `to`.
pub open spec fn redirect(s: Seq<int>, from: int, to: int) -> Seq<int> {
    Seq::new(s.len(), |i: int| if s[i] == from { to } else { s[i] })
}

pub proof fn lemma_count_eq_le(s: Seq<int>, r: int)
    ensures
        count_eq(s, r) <= s.len(),
    decreases s.len(),
{
    if s.len() > 0 {
        lemma_count_eq_le(s.drop_last(), r);
    }
}

pub proof fn lemma_count_redirect(s: Seq<int>, from: int, to: int, z: int)
    requires
        from != to,
    ensures
        count_eq(redirect(s, from, to), to) == count_eq(s, to) + count_eq(s, from),
        z != from && z != to ==> count_eq(redirect(s, from, to), z) == count_eq(s, z),
    decreases s.len(),
{
    if s.len() > 0 {
        assert(redirect(s, from, to).drop_last() =~= redirect(s.drop_last(), from, to));
        lemma_count_redirect(s.drop_last(), from, to, z);
    }
}

pub struct UnionFind {
    pub parent: Vec<i32>,
    pub rank: Vec<u8>,
    /// The representative of every element.
    pub rep: Ghost<Seq<int>>,
}

impl UnionFind {
    pub open spec fn size(&self) -> int {
        self.parent@.len() as int
    }

    pub open spec fn is_root(&self, e: int) -> bool {
        self.parent@[e] as int == e
    }

    pub open spec fn inv(&self) -> bool {
        let n = self.parent@.len();
        let rep = self.rep@;
        &&& self.rank@.len() == n
        &&& rep.len() == n
        &&& n <= i32::MAX
        &&& forall|e: int| 0 <= e < n ==> 0 <= #[trigger] self.parent@[e] < n
        &&& forall|e: int| 0 <= e < n ==> 0 <= #[trigger] rep[e] < n
        &&& forall|e: int| 0 <= e < n ==> #[trigger] self.parent@[rep[e]] as int == rep[e]
        &&& forall|e: int| 0 <= e < n && #[trigger] self.parent@[e] as int == e ==> rep[e] == e
        &&& forall|e: int|
            0 <= e < n && #[trigger] self.parent@[e] as int != e ==> {
                &&& rep[self.parent@[e] as int] == rep[e]
                &&& self.rank@[self.parent@[e] as int] > self.rank@[e]
                &&& self.rank@[rep[e]] > self.rank@[e]
            }
        &&& forall|r: int|
            0 <= r < n && #[trigger] self.parent@[r] as int == r ==> pow2(self.rank@[r] as nat)
                <= count_eq(rep, r)
    }

    /// Every element in its own set.
    pub fn new(size: usize) -> (uf: UnionFind)
        requires
            size <= i32::MAX,
        ensures
            uf.inv(),
            uf.size() == size,
            uf.rep@ == Seq::new(size as nat, |i: int| i),
    {
        let mut parent: Vec<i32> = Vec::new();
        let mut rank: Vec<u8> = Vec::new();
        let mut i: usize = 0;
        while i < size
            invariant
                i <= size <= i32::MAX,
                parent@ == Seq::new(i as nat, |k: int| k as i32),
                rank@ == Seq::new(i as nat, |k: int| 0u8),
            decreases size - i,
        {
            parent.push(i as i32);
            rank.push(0);
            i += 1;
        }
        let ghost rep = Seq::new(size as nat, |k: int| k);
        proof {
            assert forall|r: int| 0 <= r < size implies pow2(rank@[r] as nat) <= count_eq(rep, r) by {
                lemma_count_singleton(rep, r);
                lemma2_to64();
            }
        }
        UnionFind { parent, rank, rep: Ghost(rep) }
    }

    /// The representative of `x`, compressing the path from `x` to it.
    pub fn find(&mut self, x: i32) -> (r: i32)
        requires
            old(self).inv(),
            0 <= x < old(self).size(),
        ensures
            final(self).inv(),
            final(self).size() == old(self).size(),
            final(self).rep@ == old(self).rep@,
            final(self).rank@ == old(self).rank@,
            r as int == old(self).rep@[x as int],
        decreases 256 - old(self).rank@[x as int],
    {
        let p = self.parent[x as usize];
        if p != x {
            let r = self.find(p);
            proof {
                assert(self.parent@[r as int] as int == r);
                assert(old(self).rank@[old(self).rep@[x as int]] > old(self).rank@[x as int]);
                assert(self.rep@[x as int] != x as int);
                assert(self.parent@[x as int] as int != x as int);
            }
            self.parent.set(x as usize, r);
            proof {
                let n = self.parent@.len();
                let rep = self.rep@;
                assert forall|e: int| 0 <= e < n implies #[trigger] self.parent@[rep[e]] as int == rep[e] by {
                    if rep[e] == x as int {
                        assert(old(self).parent@[rep[e]] as int == rep[e]);
                    }
                }
                assert forall|e: int| 0 <= e < n && #[trigger] self.parent@[e] as int == e implies rep[e] == e by {
                }
                assert forall|e: int| 0 <= e < n && #[trigger] self.parent@[e] as int != e implies {
                    &&& rep[self.parent@[e] as int] == rep[e]
                    &&& self.rank@[self.parent@[e] as int] > self.rank@[e]
                    &&& self.rank@[rep[e]] > self.rank@[e]
                } by {
                }
                assert forall|q: int| 0 <= q < n && #[trigger] self.parent@[q] as int == q implies pow2(self.rank@[q] as nat)
                    <= count_eq(rep, q) by {
                }
            }
            r
        } else {
            p
        }
    }
}

impl UnionFind {
    /// Every rank stays below 31: a root of rank `r` has at least `2^r`
    /// members, and there are at most `i32::MAX` elements.
    pub proof fn lemma_rank_small(&self, e: int)
        requires
            self.inv(),
            0 <= e < self.size(),
        ensures
            self.rank@[e] < 31,
    {
        let r = self.rep@[e];
        assert(self.parent@[r] as int == r);
        lemma_count_eq_le(self.rep@, r);
        lemma2_to64();
        if self.rank@[r] >= 31 {
            if self.rank@[r] > 31 {
                lemma_pow2_strictly_increases(31, self.rank@[r] as nat);
            }
        }
        if self.parent@[e] as int != e {
            assert(self.rank@[r] > self.rank@[e]);
        }
    }

    /// Merges the sets of `x` and `y`; the representative of the higher-ranked
    /// root survives (the root of `x` on a tie).
    pub fn union(&mut self, x: i32, y: i32)
        requires
            old(self).inv(),
            0 <= x < old(self).size(),
            0 <= y < old(self).size(),
        ensures
            final(self).inv(),
            final(self).size() == old(self).size(),
            final(self).rep@ == redirect(old(self).rep@, old(self).rep@[y as int], old(self).rep@[x as int])
                || final(self).rep@ == redirect(old(self).rep@, old(self).rep@[x as int], old(self).rep@[y as int]),
    {
        let ghost rep0 = self.rep@;
        let rx = self.find(x);
        let ry = self.find(y);
        if rx == ry {
            assert(redirect(rep0, rep0[y as int], rep0[x as int]) =~= rep0);
            return;
        }
        let ghost n = self.parent@.len();
        let ghost rank0 = self.rank@;
        let ghost parent0 = self.parent@;
        proof {
            assert(self.parent@[rx as int] as int == rx);
            assert(self.parent@[ry as int] as int == ry);
            lemma_count_redirect(rep0, rx as int, ry as int, 0);
            lemma_count_redirect(rep0, ry as int, rx as int, 0);
        }
        let kx = self.rank[rx as usize];
        let ky = self.rank[ry as usize];
        if kx < ky {
            self.parent.set(rx as usize, ry);
            let ghost rep1 = redirect(rep0, rx as int, ry as int);
            self.rep = Ghost(rep1);
            proof {
                assert forall|z: int| 0 <= z < n && #[trigger] self.parent@[z] as int == z implies pow2(
                    self.rank@[z] as nat,
                ) <= count_eq(rep1, z) by {
                    lemma_count_redirect(rep0, rx as int, ry as int, z);
                    assert(parent0[z] as int == z);
                }
                self.lemma_inv_after_link(rep0, parent0, rank0, rx as int, ry as int);
            }
        } else if ky < kx {
            self.parent.set(ry as usize, rx);
            let ghost rep1 = redirect(rep0, ry as int, rx as int);
            self.rep = Ghost(rep1);
            proof {
                assert forall|z: int| 0 <= z < n && #[trigger] self.parent@[z] as int == z implies pow2(
                    self.rank@[z] as nat,
                ) <= count_eq(rep1, z) by {
                    lemma_count_redirect(rep0, ry as int, rx as int, z);
                    assert(parent0[z] as int == z);
                }
                self.lemma_inv_after_link(rep0, parent0, rank0, ry as int, rx as int);
            }
        } else {
            proof {
                self.lemma_rank_small(rx as int);
            }
            self.parent.set(ry as usize, rx);
            self.rank.set(rx as usize, kx + 1);
            let ghost rep1 = redirect(rep0, ry as int, rx as int);
            self.rep = Ghost(rep1);
            proof {
                assert forall|z: int| 0 <= z < n && #[trigger] self.parent@[z] as int == z implies pow2(
                    self.rank@[z] as nat,
                ) <= count_eq(rep1, z) by {
                    lemma_count_redirect(rep0, ry as int, rx as int, z);
                    assert(parent0[z] as int == z);
                    if z == rx as int {
                        lemma_pow2_unfold((kx + 1) as nat);
                    }
                }
                self.lemma_inv_after_link(rep0, parent0, rank0, ry as int, rx as int);
            }
        }
    }

    /// The structural part of the invariant after root `loser` is hung under
    /// root `winner`, whose rank is now above the loser's and no lower than before.
    proof fn lemma_inv_after_link(
        &self,
        rep0: Seq<int>,
        parent0: Seq<i32>,
        rank0: Seq<u8>,
        loser: int,
        winner: int,
    )
        requires
            loser != winner,
            0 <= loser < parent0.len(),
            0 <= winner < parent0.len(),
            parent0.len() <= i32::MAX,
            rank0.len() == parent0.len(),
            rep0.len() == parent0.len(),
            forall|e: int| 0 <= e < parent0.len() ==> 0 <= #[trigger] parent0[e] < parent0.len(),
            forall|e: int| 0 <= e < parent0.len() ==> 0 <= #[trigger] rep0[e] < parent0.len(),
            forall|e: int| 0 <= e < parent0.len() ==> #[trigger] parent0[rep0[e]] as int == rep0[e],
            forall|e: int| 0 <= e < parent0.len() && #[trigger] parent0[e] as int == e ==> rep0[e] == e,
            forall|e: int|
                0 <= e < parent0.len() && #[trigger] parent0[e] as int != e ==> {
                    &&& rep0[parent0[e] as int] == rep0[e]
                    &&& rank0[parent0[e] as int] > rank0[e]
                    &&& rank0[rep0[e]] > rank0[e]
                },
            parent0[loser] as int == loser,
            parent0[winner] as int == winner,
            self.parent@ == parent0.update(loser, winner as i32),
            self.rank@.len() == rank0.len(),
            forall|e: int| 0 <= e < rank0.len() && e != winner ==> self.rank@[e] == rank0[e],
            self.rank@[winner] >= rank0[winner],
            self.rank@[winner] > rank0[loser],
            self.rep@ == redirect(rep0, loser, winner),
            forall|r: int|
                0 <= r < parent0.len() && #[trigger] self.parent@[r] as int == r ==> pow2(
                    self.rank@[r] as nat,
                ) <= count_eq(self.rep@, r),
        ensures
            self.inv(),
    {
        let n = parent0.len();
        let rep = self.rep@;
        assert forall|e: int| 0 <= e < n implies 0 <= #[trigger] self.parent@[e] < n by {}
        assert forall|e: int| 0 <= e < n implies 0 <= #[trigger] rep[e] < n by {}
        assert forall|e: int| 0 <= e < n implies #[trigger] self.parent@[rep[e]] as int == rep[e] by {
            assert(parent0[rep0[e]] as int == rep0[e]);
        }
        assert forall|e: int| 0 <= e < n && #[trigger] self.parent@[e] as int == e implies rep[e] == e by {
            assert(parent0[e] as int == e);
        }
        assert forall|e: int| 0 <= e < n && #[trigger] self.parent@[e] as int != e implies {
            &&& rep[self.parent@[e] as int] == rep[e]
            &&& self.rank@[self.parent@[e] as int] > self.rank@[e]
            &&& self.rank@[rep[e]] > self.rank@[e]
        } by {
            if e == loser {
                assert(rep0[loser] == loser);
                assert(rep0[winner] == winner);
            } else {
                assert(parent0[e] as int != e);
                let pe = parent0[e] as int;
                assert(rep0[pe] == rep0[e]);
                assert(rank0[rep0[e]] > rank0[e]);
                if rep0[e] == loser {
                    assert(rank0[loser] > rank0[e]);
                }
            }
        }
    }
}

proof fn lemma_count_singleton(rep: Seq<int>, r: int)
    requires
        0 <= r < rep.len(),
        rep == Seq::new(rep.len(), |k: int| k),
    ensures
        count_eq(rep, r) >= 1,
    decreases rep.len(),
{
    if rep.len() - 1 != r {
        assert(rep.drop_last() =~= Seq::new(rep.drop_last().len(), |k: int| k));
        lemma_count_singleton(rep.drop_last(), r);
    }
}

} // verus!
