use vstd::prelude::*;

verus! {

/// Disjoint-set forest over the elements `0 .. n - 1`, with union by rank and
/// full path compression in `find`.
///
/// The ghost field `rep` carries the partition that the contracts speak of:
/// it maps every element to the root of its class, so two elements belong to
/// one class exactly when their `rep` entries are equal.
pub struct UnionFind {
    pub parent: Vec<usize>,
    pub rank: Vec<usize>,
    pub rep: Ghost<Seq<int>>,
}

impl UnionFind {
    pub open spec fn n(&self) -> int {
        self.parent@.len() as int
    }

    /// The elements that are their own parent.
    pub open spec fn roots(&self) -> Set<int> {
        Set::new(|i: int| 0 <= i < self.n() && self.parent@[i] as int == i)
    }

    pub open spec fn wf(&self) -> bool {
        &&& self.rank@.len() == self.n()
        &&& self.rep@.len() == self.n()
        &&& forall|i: int| 0 <= i < self.n() ==> (#[trigger] self.parent@[i]) < self.n()
        &&& forall|i: int| 0 <= i < self.n() ==> 0 <= #[trigger] self.rep@[i] < self.n()
        // parent links stay inside the class
        &&& forall|i: int|
            0 <= i < self.n() ==> self.rep@[#[trigger] self.parent@[i] as int] == self.rep@[i]
        // the roots are exactly the elements that represent themselves
        &&& forall|i: int|
            0 <= i < self.n() ==> ((#[trigger] self.parent@[i] as int) == i <==> self.rep@[i] == i)
        // representatives are idempotent
        &&& forall|i: int| 0 <= i < self.n() ==> self.rep@[#[trigger] self.rep@[i]] == self.rep@[i]
        // rank strictly increases along parent links
        &&& forall|i: int|
            0 <= i < self.n() && (#[trigger] self.parent@[i] as int) != i ==> self.rank@[i]
                < self.rank@[self.parent@[i] as int]
        // no rank exceeds that of the class representative
        &&& forall|i: int|
            0 <= i < self.n() ==> self.rank@[i] <= self.rank@[#[trigger] self.rep@[i]]
        // counting: every rank plus the number of surviving roots fits in n
        &&& self.roots().finite()
        &&& forall|i: int|
            0 <= i < self.n() ==> (#[trigger] self.rank@[i]) + self.roots().len() <= self.n()
    }

    /// `x` and `y` belong to one class of the partition.
    pub open spec fn same_set(&self, x: int, y: int) -> bool {
        self.rep@[x] == self.rep@[y]
    }

    /// A fresh structure: every element is the singleton root of its own class.
    pub fn new(size: usize) -> (uf: UnionFind)
        ensures
            uf.wf(),
            uf.n() == size,
            forall|i: int| 0 <= i < size ==> uf.rep@[i] == i,
    {
        let mut parent: Vec<usize> = Vec::new();
        let mut i: usize = 0;
        while i < size
            invariant
                i <= size,
                parent@.len() == i,
                forall|k: int| 0 <= k < i ==> (#[trigger] parent@[k]) as int == k,
            decreases size - i,
        {
            parent.push(i);
            i = i + 1;
        }
        let mut rank: Vec<usize> = Vec::new();
        let mut j: usize = 0;
        while j < size
            invariant
                j <= size,
                rank@.len() == j,
                forall|k: int| 0 <= k < j ==> (#[trigger] rank@[k]) == 0,
            decreases size - j,
        {
            rank.push(0);
            j = j + 1;
        }
        let ghost rep = Seq::new(size as nat, |i: int| i);
        let uf = UnionFind { parent, rank, rep: Ghost(rep) };
        proof {
            assert(uf.roots() =~= vstd::set_lib::set_int_range(0, size as int));
            vstd::set_lib::lemma_int_range(0, size as int);
        }
        uf
    }

    /// Returns the representative of `x`'s class, rewriting every link on the
    /// way to point directly at it. The partition itself never changes.
    pub fn find(&mut self, x: usize) -> (r: usize)
        requires
            old(self).wf(),
            x < old(self).n(),
        ensures
            final(self).wf(),
            final(self).n() == old(self).n(),
            final(self).rep@ == old(self).rep@,
            final(self).rank@ == old(self).rank@,
            final(self).roots() == old(self).roots(),
            r as int == old(self).rep@[x as int],
            r < old(self).n(),
            final(self).parent@[r as int] as int == r as int,
            old(self).parent@[old(self).parent@[x as int] as int] == old(self).parent@[x as int]
                ==> final(self).parent@ == old(self).parent@,
        decreases
                old(self).rank@[old(self).rep@[x as int]] - old(self).rank@[x as int],
    {
        let p = self.parent[x];
        if p == x {
            x
        } else {
            let ghost pre = *self;
            let r = self.find(p);
            let ghost mid = *self;
            self.parent[x] = r;
            proof {
                assert(mid.rep@[x as int] == mid.rep@[p as int]);
                assert(self.parent@ =~= mid.parent@.update(x as int, r));
                // the rewritten link keeps every well-formedness clause
                assert(self.rep@[r as int] == r as int);
                assert(r as int != x as int);
                assert(mid.rank@[p as int] <= mid.rank@[mid.rep@[p as int]]);
                assert(self.rank@[x as int] < self.rank@[r as int]);
                assert(self.roots() =~= mid.roots());
                if pre.parent@[p as int] == p {
                    assert(self.parent@ =~= pre.parent@);
                }
            }
            r
        }
    }

    /// Joins the classes of `x` and `y`. Afterwards two elements share a class
    /// exactly when they already did, or when one sat with `x` and the other
    /// with `y`. Joining an already-joined pair changes no class and no rank;
    /// and if moreover both arguments point at most one link away from their
    /// roots, the parent structure is left untouched as well.
    pub fn union(&mut self, x: usize, y: usize)
        requires
            old(self).wf(),
            x < old(self).n(),
            y < old(self).n(),
        ensures
            final(self).wf(),
            final(self).n() == old(self).n(),
            forall|a: int, b: int|
                0 <= a < old(self).n() && 0 <= b < old(self).n() ==> (final(self).same_set(a, b)
                    <==> (old(self).same_set(a, b)
                        || (old(self).same_set(a, x as int) && old(self).same_set(y as int, b))
                        || (old(self).same_set(a, y as int) && old(self).same_set(x as int, b)))),
            old(self).same_set(x as int, y as int) ==> final(self).rep@ == old(self).rep@
                && final(self).rank@ == old(self).rank@,
            old(self).same_set(x as int, y as int) && old(self).parent@[old(self).parent@[x as int] as int]
                == old(self).parent@[x as int] && old(self).parent@[old(self).parent@[y as int] as int]
                == old(self).parent@[y as int] ==> final(self).parent@ == old(self).parent@
                && final(self).rank@ == old(self).rank@,
    {
        let rx = self.find(x);
        let ry = self.find(y);
        proof {
            assert(self.roots().contains(rx as int));
        }
        if rx == ry {
        } else {
            let ghost mid = *self;
            proof {
                assert(mid.parent@[rx as int] as int == rx as int);
                assert(mid.parent@[ry as int] as int == ry as int);
            }
            let rank_x = self.rank[rx];
            let rank_y = self.rank[ry];
            let (winner, loser) = if rank_x < rank_y {
                (ry, rx)
            } else {
                (rx, ry)
            };
            if rank_x == rank_y {
                proof {
                    // two distinct roots survive here, so the rank fits below n
                    lemma_two_roots(mid.roots(), rx as int, ry as int);
                    assert(mid.rank@[rx as int] + 2 <= mid.n());
                    assert(self.parent.len() == self.parent@.len());
                    assert(mid.n() <= usize::MAX);
                }
                self.rank[rx] = rank_x + 1;
            }
            self.parent[loser] = winner;
            let ghost merged = Seq::new(
                mid.rep@.len(),
                |i: int|
                    if mid.rep@[i] == loser as int {
                        winner as int
                    } else {
                        mid.rep@[i]
                    },
            );
            proof {
                self.rep = Ghost(merged);
                lemma_union_link_wf(mid, *self, x as int, y as int, winner as int, loser as int);
            }
        }
    }
}

/// Disjoint-set forest over `0 .. n - 1` that always links the larger root id
/// under the smaller and shortens chains by path halving. This is the merge
/// policy of a compare-and-swap union under concurrent writers, where the
/// numeric id is the global tie-break; run to completion it leaves every
/// class represented by one fixed root, so the resulting partition is the
/// same whichever order the unions arrive in.
pub struct MinIdUnionFind {
    pub parent: Vec<usize>,
    pub rep: Ghost<Seq<int>>,
}

impl MinIdUnionFind {
    pub open spec fn n(&self) -> int {
        self.parent@.len() as int
    }

    pub open spec fn wf(&self) -> bool {
        &&& self.rep@.len() == self.n()
        // links only ever point towards smaller ids
        &&& forall|i: int| 0 <= i < self.n() ==> (#[trigger] self.parent@[i]) <= i
        &&& forall|i: int| 0 <= i < self.n() ==> 0 <= #[trigger] self.rep@[i] < self.n()
        // so every class is represented by its smallest member
        &&& forall|i: int| 0 <= i < self.n() ==> #[trigger] self.rep@[i] <= i
        // parent links stay inside the class
        &&& forall|i: int|
            0 <= i < self.n() ==> self.rep@[#[trigger] self.parent@[i] as int] == self.rep@[i]
        // the roots are exactly the elements that represent themselves
        &&& forall|i: int|
            0 <= i < self.n() ==> ((#[trigger] self.parent@[i] as int) == i <==> self.rep@[i] == i)
        // representatives are idempotent
        &&& forall|i: int| 0 <= i < self.n() ==> self.rep@[#[trigger] self.rep@[i]] == self.rep@[i]
    }

    /// `x` and `y` belong to one class of the partition.
    pub open spec fn same_set(&self, x: int, y: int) -> bool {
        self.rep@[x] == self.rep@[y]
    }

    /// A fresh structure: every element is the singleton root of its own class.
    pub fn new(size: usize) -> (uf: MinIdUnionFind)
        ensures
            uf.wf(),
            uf.n() == size,
            forall|i: int| 0 <= i < size ==> uf.rep@[i] == i,
    {
        let mut parent: Vec<usize> = Vec::new();
        let mut i: usize = 0;
        while i < size
            invariant
                i <= size,
                parent@.len() == i,
                forall|k: int| 0 <= k < i ==> (#[trigger] parent@[k]) as int == k,
            decreases size - i,
        {
            parent.push(i);
            i = i + 1;
        }
        let ghost rep = Seq::new(size as nat, |i: int| i);
        MinIdUnionFind { parent, rep: Ghost(rep) }
    }

    /// Walks to the root of `x`'s class, halving the path as it goes: each
    /// visited node is re-pointed at its grandparent. The partition itself
    /// never changes.
    pub fn find(&mut self, x: usize) -> (r: usize)
        requires
            old(self).wf(),
            x < old(self).n(),
        ensures
            final(self).wf(),
            final(self).n() == old(self).n(),
            final(self).rep@ == old(self).rep@,
            r as int == old(self).rep@[x as int],
            r < old(self).n(),
            final(self).parent@[r as int] as int == r as int,
    {
        let mut cur = x;
        loop
            invariant
                self.wf(),
                self.n() == old(self).n(),
                self.rep@ == old(self).rep@,
                cur < self.n(),
                self.rep@[cur as int] == self.rep@[x as int],
            decreases cur,
        {
            let p = self.parent[cur];
            if p == cur {
                proof {
                    assert(self.rep@[cur as int] == cur as int);
                    assert(self.parent@[cur as int] as int == cur as int);
                }
                return cur;
            }
            let gp = self.parent[p];
            let ghost mid = *self;
            self.parent[cur] = gp;
            proof {
                assert(self.parent@ =~= mid.parent@.update(cur as int, gp));
                assert(mid.rep@[gp as int] == mid.rep@[p as int]);
                assert(gp < cur);
            }
            cur = gp;
        }
    }

    /// Joins the classes of `x` and `y` by linking the larger of the two roots
    /// under the smaller. Afterwards two elements share a class exactly when
    /// they already did, or when one sat with `x` and the other with `y`;
    /// joining an already-joined pair changes no class.
    pub fn union(&mut self, x: usize, y: usize)
        requires
            old(self).wf(),
            x < old(self).n(),
            y < old(self).n(),
        ensures
            final(self).wf(),
            final(self).n() == old(self).n(),
            forall|a: int, b: int|
                0 <= a < old(self).n() && 0 <= b < old(self).n() ==> (final(self).same_set(a, b)
                    <==> (old(self).same_set(a, b)
                        || (old(self).same_set(a, x as int) && old(self).same_set(y as int, b))
                        || (old(self).same_set(a, y as int) && old(self).same_set(x as int, b)))),
            old(self).same_set(x as int, y as int) ==> final(self).rep@ == old(self).rep@,
    {
        let rx = self.find(x);
        let ry = self.find(y);
        if rx != ry {
            let ghost mid = *self;
            let (smaller, larger) = if rx < ry {
                (rx, ry)
            } else {
                (ry, rx)
            };
            self.parent[larger] = smaller;
            let ghost merged = Seq::new(
                mid.rep@.len(),
                |i: int|
                    if mid.rep@[i] == larger as int {
                        smaller as int
                    } else {
                        mid.rep@[i]
                    },
            );
            proof {
                self.rep = Ghost(merged);
                lemma_minid_link_wf(mid, *self, x as int, y as int, smaller as int, larger as int);
            }
        }
    }
}

/// After `find` has exposed two distinct roots and the larger was linked
/// under the smaller, the structure is well-formed again and its partition is
/// the join of the two classes.
proof fn lemma_minid_link_wf(
    mid: MinIdUnionFind,
    post: MinIdUnionFind,
    x: int,
    y: int,
    winner: int,
    loser: int,
)
    requires
        mid.wf(),
        0 <= x < mid.n(),
        0 <= y < mid.n(),
        mid.rep@[x] != mid.rep@[y],
        winner == mid.rep@[x] && loser == mid.rep@[y] || winner == mid.rep@[y] && loser
            == mid.rep@[x],
        winner < loser,
        post.parent@ == mid.parent@.update(loser, winner as usize),
        post.rep@ == Seq::new(
            mid.rep@.len(),
            |i: int|
                if mid.rep@[i] == loser {
                    winner
                } else {
                    mid.rep@[i]
                },
        ),
        mid.parent@[winner] as int == winner,
        mid.parent@[loser] as int == loser,
    ensures
        post.wf(),
        post.n() == mid.n(),
        forall|a: int, b: int|
            0 <= a < mid.n() && 0 <= b < mid.n() ==> (post.same_set(a, b) <==> (mid.same_set(a, b)
                || (mid.same_set(a, x) && mid.same_set(y, b)) || (mid.same_set(a, y)
                && mid.same_set(x, b)))),
{
    let n = mid.n();
    assert(post.n() == n);
    assert(post.rep@.len() == n);
    assert(mid.rep@[winner] == winner && mid.rep@[loser] == loser);
    assert(post.rep@[winner] == winner && post.rep@[loser] == winner);
    assert forall|i: int| 0 <= i < n implies #[trigger] post.rep@[i] <= i by {
        if mid.rep@[i] == loser {
            assert(post.rep@[i] == winner);
            assert(mid.rep@[i] <= i);
        } else {
            assert(post.rep@[i] == mid.rep@[i]);
        }
    }
    assert forall|i: int|
        0 <= i < n implies post.rep@[#[trigger] post.parent@[i] as int] == post.rep@[i] by {
        if i == loser {
            assert(post.parent@[i] as int == winner);
            assert(post.rep@[i] == winner);
        } else {
            assert(post.parent@[i] == mid.parent@[i]);
            assert(mid.rep@[mid.parent@[i] as int] == mid.rep@[i]);
        }
    }
    assert forall|i: int|
        0 <= i < n implies ((#[trigger] post.parent@[i] as int) == i <==> post.rep@[i] == i) by {
        if i == loser {
            assert(post.parent@[i] as int == winner && winner != i);
            assert(post.rep@[i] == winner && winner != i);
        } else {
            assert(post.parent@[i] == mid.parent@[i]);
            if mid.rep@[i] == loser {
                assert(post.rep@[i] == winner);
                assert(mid.rep@[i] != i);
                assert(mid.parent@[i] as int != i);
                assert(mid.rep@[winner] == winner);
                assert(post.rep@[i] != i);
            } else {
                assert(post.rep@[i] == mid.rep@[i]);
            }
        }
    }
    assert forall|i: int| 0 <= i < n implies post.rep@[#[trigger] post.rep@[i]] == post.rep@[i] by {
        if mid.rep@[i] == loser {
            assert(post.rep@[i] == winner);
        } else {
            assert(post.rep@[i] == mid.rep@[i]);
            assert(mid.rep@[mid.rep@[i]] == mid.rep@[i]);
            assert(mid.rep@[i] != loser ==> post.rep@[mid.rep@[i]] == mid.rep@[i]);
        }
    }
    assert(post.wf());
    assert forall|a: int, b: int|
        0 <= a < n && 0 <= b < n implies (post.same_set(a, b) <==> (mid.same_set(a, b) || (
    mid.same_set(a, x) && mid.same_set(y, b)) || (mid.same_set(a, y) && mid.same_set(x, b)))) by {
        assert(post.rep@[a] == if mid.rep@[a] == loser {
            winner
        } else {
            mid.rep@[a]
        });
        assert(post.rep@[b] == if mid.rep@[b] == loser {
            winner
        } else {
            mid.rep@[b]
        });
    }
}

/// A finite set holding two distinct elements has at least two elements.
proof fn lemma_two_roots(s: Set<int>, a: int, b: int)
    requires
        s.finite(),
        s.contains(a),
        s.contains(b),
        a != b,
    ensures
        s.len() >= 2,
{
    vstd::set::axiom_set_remove_len(s, a);
    vstd::set::axiom_set_remove_finite(s, a);
    assert(s.remove(a).contains(b));
    vstd::set::axiom_set_remove_len(s.remove(a), b);
}

/// After `find` has exposed two distinct roots and the loser was linked under
/// the winner, the structure is well-formed again and its partition is the
/// join of the two classes.
proof fn lemma_union_link_wf(
    mid: UnionFind,
    post: UnionFind,
    x: int,
    y: int,
    winner: int,
    loser: int,
)
    requires
        mid.wf(),
        0 <= x < mid.n(),
        0 <= y < mid.n(),
        mid.rep@[x] != mid.rep@[y],
        winner == mid.rep@[x] && loser == mid.rep@[y] || winner == mid.rep@[y] && loser
            == mid.rep@[x],
        post.parent@ == mid.parent@.update(loser, winner as usize),
        post.rep@ == Seq::new(
            mid.rep@.len(),
            |i: int|
                if mid.rep@[i] == loser {
                    winner
                } else {
                    mid.rep@[i]
                },
        ),
        mid.parent@[winner] as int == winner,
        mid.parent@[loser] as int == loser,
        // ranks: either untouched with the loser's strictly below the
        // winner's, or the winner's bumped by one after a tie
        (post.rank@ == mid.rank@ && mid.rank@[loser] < mid.rank@[winner]) || (post.rank@
            == mid.rank@.update(winner, (mid.rank@[winner] + 1) as usize) && mid.rank@[winner]
            == mid.rank@[loser] && mid.rank@[winner] + 2 <= mid.n()),
    ensures
        post.wf(),
        post.n() == mid.n(),
        forall|a: int, b: int|
            0 <= a < mid.n() && 0 <= b < mid.n() ==> (post.same_set(a, b) <==> (mid.same_set(a, b)
                || (mid.same_set(a, x) && mid.same_set(y, b)) || (mid.same_set(a, y)
                && mid.same_set(x, b)))),
{
    let n = mid.n();
    assert(mid.parent.len() == mid.parent@.len());
    assert(n <= usize::MAX);
    assert(winner != loser);
    assert(post.n() == n);
    assert(post.rep@.len() == n);
    assert(mid.rep@[winner] == winner && mid.rep@[loser] == loser);
    assert(post.rep@[winner] == winner && post.rep@[loser] == winner);
    // the loser's root is no longer a root, everything else is unchanged
    assert(post.roots() =~= mid.roots().remove(loser));
    vstd::set::axiom_set_remove_len(mid.roots(), loser);
    vstd::set::axiom_set_remove_finite(mid.roots(), loser);
    assert(mid.roots().contains(loser));
    assert forall|i: int| 0 <= i < n implies (#[trigger] post.rank@[i]) + post.roots().len()
        <= n by {
        assert(mid.rank@[i] + mid.roots().len() <= n);
    }
    let tie = !(post.rank@ == mid.rank@ && mid.rank@[loser] < mid.rank@[winner]);
    assert forall|i: int|
        0 <= i < n && (#[trigger] post.parent@[i] as int) != i implies post.rank@[i]
        < post.rank@[post.parent@[i] as int] by {
        let p = post.parent@[i] as int;
        if i == loser {
            assert(p == winner);
            if tie {
                assert(post.rank@[loser] == mid.rank@[loser]);
                assert(post.rank@[winner] == mid.rank@[winner] + 1);
            }
        } else {
            assert(post.parent@[i] == mid.parent@[i]);
            assert(mid.rank@[i] < mid.rank@[p]);
            assert(i != winner);
            assert(post.rank@[i] == mid.rank@[i]);
            if tie && p != winner {
                assert(post.rank@[p] == mid.rank@[p]);
            }
        }
    }
    assert forall|i: int| 0 <= i < n implies post.rank@[i] <= post.rank@[#[trigger] post.rep@[i]] by {
        if mid.rep@[i] == loser {
            assert(post.rep@[i] == winner);
            assert(i != winner);
            assert(post.rank@[i] == mid.rank@[i]);
            assert(mid.rank@[i] <= mid.rank@[loser]);
            assert(mid.rank@[loser] <= mid.rank@[winner]);
            assert(mid.rank@[winner] <= post.rank@[winner]);
        } else {
            assert(post.rep@[i] == mid.rep@[i]);
            assert(mid.rank@[i] <= mid.rank@[mid.rep@[i]]);
            if i != winner {
                assert(post.rank@[i] == mid.rank@[i]);
            }
            if mid.rep@[i] != winner {
                assert(post.rank@[mid.rep@[i]] == mid.rank@[mid.rep@[i]]);
            } else {
                assert(mid.rank@[winner] <= post.rank@[winner]);
            }
            if i == winner {
                assert(mid.rep@[winner] == winner);
                assert(post.rep@[i] == winner);
            }
        }
    }
    assert forall|i: int|
        0 <= i < n implies post.rep@[#[trigger] post.parent@[i] as int] == post.rep@[i] by {
        if i == loser {
            assert(post.parent@[i] as int == winner);
            assert(post.rep@[winner] == winner);
            assert(post.rep@[i] == winner);
        } else {
            assert(post.parent@[i] == mid.parent@[i]);
            assert(mid.rep@[mid.parent@[i] as int] == mid.rep@[i]);
        }
    }
    assert forall|i: int|
        0 <= i < n implies ((#[trigger] post.parent@[i] as int) == i <==> post.rep@[i] == i) by {
        if i == loser {
            assert(post.parent@[i] as int == winner && winner != i);
            assert(post.rep@[i] == winner && winner != i);
        } else {
            assert(post.parent@[i] == mid.parent@[i]);
            if mid.rep@[i] == loser {
                assert(post.rep@[i] == winner);
                assert(mid.rep@[i] != i);
                assert(mid.parent@[i] as int != i);
                assert(post.rep@[i] == winner && winner != loser);
                assert(mid.rep@[winner] == winner);
                assert(post.rep@[i] != i);
            } else {
                assert(post.rep@[i] == mid.rep@[i]);
            }
        }
    }
    assert forall|i: int| 0 <= i < n implies post.rep@[#[trigger] post.rep@[i]] == post.rep@[i] by {
        if mid.rep@[i] == loser {
            assert(post.rep@[i] == winner);
        } else {
            assert(post.rep@[i] == mid.rep@[i]);
            assert(mid.rep@[mid.rep@[i]] == mid.rep@[i]);
            assert(mid.rep@[i] != loser ==> post.rep@[mid.rep@[i]] == mid.rep@[i]);
        }
    }
    assert(post.wf());
    assert forall|a: int, b: int|
        0 <= a < n && 0 <= b < n implies (post.same_set(a, b) <==> (mid.same_set(a, b) || (
    mid.same_set(a, x) && mid.same_set(y, b)) || (mid.same_set(a, y) && mid.same_set(x, b)))) by {
        assert(post.rep@[a] == if mid.rep@[a] == loser {
            winner
        } else {
            mid.rep@[a]
        });
        assert(post.rep@[b] == if mid.rep@[b] == loser {
            winner
        } else {
            mid.rep@[b]
        });
    }
}

} // verus!
