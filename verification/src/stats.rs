use vstd::prelude::*;

use crate::bfs::count_unreached;

verus! {

/// The largest entry other than the `-1` sentinel, or zero if every entry is
/// the sentinel.
pub open spec fn max_finite(s: Seq<i32>) -> int
    decreases s.len(),
{
    if s.len() == 0 {
        0
    } else {
        let m = max_finite(s.drop_last());
        if s.last() != -1 && s.last() > m {
            s.last() as int
        } else {
            m
        }
    }
}

/// Counts a distance vector's reached and unreached nodes and its largest
/// finite distance.
pub fn bfs_stats(dist: &Vec<i32>) -> (r: (usize, usize, i32))
    requires
        forall|v: int| 0 <= v < dist@.len() ==> (#[trigger] dist@[v]) as int >= -1,
    ensures
        r.0 + r.1 == dist@.len(),
        r.1 as nat == count_unreached(dist@),
        r.2 as int == max_finite(dist@),
{
    let n = dist.len();
    let mut reached: usize = 0;
    let mut unreached: usize = 0;
    let mut max_dist: i32 = 0;
    let mut i: usize = 0;
    proof {
        assert(dist@.take(0) =~= Seq::<i32>::empty());
    }
    while i < n
        invariant
            i <= n,
            n == dist@.len(),
            forall|v: int| 0 <= v < dist@.len() ==> (#[trigger] dist@[v]) as int >= -1,
            reached + unreached == i,
            unreached as nat == count_unreached(dist@.take(i as int)),
            max_dist as int == max_finite(dist@.take(i as int)),
            max_dist >= 0,
        decreases n - i,
    {
        let d = dist[i];
        proof {
            assert(dist@.take(i as int + 1).drop_last() =~= dist@.take(i as int));
            assert(dist@.take(i as int + 1).last() == dist@[i as int]);
        }
        if d == -1 {
            unreached = unreached + 1;
        } else {
            reached = reached + 1;
            if d > max_dist {
                max_dist = d;
            }
        }
        i = i + 1;
    }
    proof {
        assert(dist@.take(n as int) =~= dist@);
    }
    (reached, unreached, max_dist)
}

/// The number of distinct values in the sequence.
pub open spec fn num_distinct(s: Seq<usize>) -> nat
    decreases s.len(),
{
    if s.len() == 0 {
        0
    } else {
        num_distinct(s.drop_last()) + (if s.drop_last().contains(s.last()) {
            0nat
        } else {
            1nat
        })
    }
}

/// Counts the distinct labels of a component vector whose labels are node
/// ids, such as either weakly-connected-component labeling returns.
pub fn count_components(labels: &Vec<usize>) -> (r: usize)
    requires
        forall|i: int| 0 <= i < labels@.len() ==> (#[trigger] labels@[i]) < labels@.len(),
    ensures
        r as nat == num_distinct(labels@),
{
    let n = labels.len();
    let mut seen: Vec<bool> = Vec::new();
    let mut t: usize = 0;
    while t < n
        invariant
            t <= n,
            seen@.len() == t,
            forall|j: int| 0 <= j < t ==> !(#[trigger] seen@[j]),
        decreases n - t,
    {
        seen.push(false);
        t = t + 1;
    }
    let mut count: usize = 0;
    let mut i: usize = 0;
    proof {
        assert(labels@.take(0) =~= Seq::<usize>::empty());
    }
    while i < n
        invariant
            i <= n,
            n == labels@.len(),
            seen@.len() == n,
            forall|j: int| 0 <= j < labels@.len() ==> (#[trigger] labels@[j]) < labels@.len(),
            count as nat == num_distinct(labels@.take(i as int)),
            count <= i,
            forall|v: int|
                0 <= v < n ==> ((#[trigger] seen@[v]) <==> labels@.take(i as int).contains(
                    v as usize,
                )),
        decreases n - i,
    {
        let l = labels[i];
        let ghost seen0 = seen@;
        let ghost prefix = labels@.take(i as int);
        proof {
            assert(labels@.take(i as int + 1).drop_last() =~= prefix);
            assert(labels@.take(i as int + 1).last() == labels@[i as int]);
        }
        if !seen[l] {
            count = count + 1;
            seen[l] = true;
        }
        proof {
            assert forall|v: int| 0 <= v < n implies ((#[trigger] seen@[v]) <==> labels@.take(
                i as int + 1,
            ).contains(v as usize)) by {
                let longer = labels@.take(i as int + 1);
                if v == l as int {
                    assert(longer[i as int] == l);
                    assert(longer.contains(l));
                    assert(seen@[v]);
                } else {
                    assert(seen@[v] == seen0[v]);
                    if prefix.contains(v as usize) {
                        let w = choose|w: int| 0 <= w < prefix.len() && prefix[w] == v as usize;
                        assert(longer[w] == v as usize);
                        assert(longer.contains(v as usize));
                    }
                    if longer.contains(v as usize) {
                        let w = choose|w: int|
                            0 <= w < longer.len() && longer[w] == v as usize;
                        assert(w < prefix.len());
                        assert(prefix[w] == v as usize);
                        assert(prefix.contains(v as usize));
                    }
                }
            }
        }
        i = i + 1;
    }
    proof {
        assert(labels@.take(n as int) =~= labels@);
    }
    count
}

} // verus!
