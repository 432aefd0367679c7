use vstd::prelude::*;

verus! {

/// How many entries of the mask are set.
pub open spec fn count_marked(s: Seq<bool>) -> nat
    decreases s.len(),
{
    if s.len() == 0 {
        0
    } else {
        (if s.last() {
            1nat
        } else {
            0nat
        }) + count_marked(s.drop_last())
    }
}

proof fn lemma_count_marked_update(s: Seq<bool>, v: int)
    requires
        0 <= v < s.len(),
        !s[v],
    ensures
        count_marked(s.update(v, true)) == count_marked(s) + 1,
    decreases s.len(),
{
    let t = s.update(v, true);
    if v == s.len() - 1 {
        assert(t.drop_last() =~= s.drop_last());
    } else {
        assert(t.drop_last() =~= s.drop_last().update(v, true));
        lemma_count_marked_update(s.drop_last(), v);
    }
}

proof fn lemma_count_marked_all(s: Seq<bool>)
    requires
        forall|j: int| 0 <= j < s.len() ==> s[j],
    ensures
        count_marked(s) == s.len(),
    decreases s.len(),
{
    if s.len() > 0 {
        lemma_count_marked_all(s.drop_last());
    }
}

/// A mask with fewer marks than entries leaves some entry unmarked.
proof fn lemma_unmarked_exists(s: Seq<bool>)
    requires
        count_marked(s) < s.len(),
    ensures
        exists|j: int| 0 <= j < s.len() && !s[j],
{
    if forall|j: int| 0 <= j < s.len() ==> s[j] {
        lemma_count_marked_all(s);
    }
}

/// The `k` nodes with the highest scores, as `(node id, score)` pairs in
/// descending score order, ties broken towards the smaller id; asking for
/// more nodes than there are scores returns them all. Every listed node
/// carries its own score, no node is listed twice, and no unlisted node
/// scores above the last listed one.
pub fn top_nodes(scores: &Vec<u64>, k: usize) -> (r: Vec<(usize, u64)>)
    ensures
        r@.len() == (if k < scores@.len() {
            k as int
        } else {
            scores@.len() as int
        }),
        forall|i: int|
            0 <= i < r@.len() ==> (#[trigger] r@[i]).0 < scores@.len() && scores@[r@[i].0 as int]
                == r@[i].1,
        forall|i1: int, i2: int| 0 <= i1 < i2 < r@.len() ==> r@[i1].1 >= r@[i2].1,
        forall|i1: int, i2: int| 0 <= i1 < i2 < r@.len() ==> r@[i1].0 != r@[i2].0,
        forall|j: int|
            0 <= j < scores@.len() && (forall|i: int|
                0 <= i < r@.len() ==> (#[trigger] r@[i]).0 != j) ==> (r@.len() == 0 || (
            #[trigger] scores@[j]) <= r@[r@.len() - 1].1),
{
    let n = scores.len();
    let limit = if k < n {
        k
    } else {
        n
    };
    let mut picked: Vec<bool> = Vec::new();
    let mut t: usize = 0;
    while t < n
        invariant
            t <= n,
            picked@.len() == t,
            forall|j: int| 0 <= j < t ==> !(#[trigger] picked@[j]),
        decreases n - t,
    {
        picked.push(false);
        t = t + 1;
    }
    proof {
        lemma_count_marked_none(picked@);
    }
    let mut out: Vec<(usize, u64)> = Vec::new();
    while out.len() < limit
        invariant
            n == scores@.len(),
            limit <= n,
            picked@.len() == n,
            out@.len() <= limit,
            count_marked(picked@) == out@.len(),
            forall|i: int|
                0 <= i < out@.len() ==> (#[trigger] out@[i]).0 < n && picked@[out@[i].0 as int]
                    && scores@[out@[i].0 as int] == out@[i].1,
            forall|j: int|
                0 <= j < n ==> ((#[trigger] picked@[j]) <==> exists|i: int|
                    0 <= i < out@.len() && (#[trigger] out@[i]).0 == j),
            forall|i1: int, i2: int| 0 <= i1 < i2 < out@.len() ==> out@[i1].1 >= out@[i2].1,
            forall|i1: int, i2: int| 0 <= i1 < i2 < out@.len() ==> out@[i1].0 != out@[i2].0,
            forall|j: int|
                0 <= j < n && !(#[trigger] picked@[j]) ==> (out@.len() == 0 || scores@[j]
                    <= out@[out@.len() - 1].1),
        decreases limit - out.len(),
    {
        let mut best: usize = 0;
        let mut found = false;
        let mut j: usize = 0;
        while j < n
            invariant
                j <= n,
                n == scores@.len(),
                picked@.len() == n,
                found ==> best < n && !picked@[best as int],
                forall|jj: int|
                    0 <= jj < j && !(#[trigger] picked@[jj]) ==> found && scores@[jj]
                        <= scores@[best as int],
            decreases n - j,
        {
            if !picked[j] && (!found || scores[j] > scores[best]) {
                best = j;
                found = true;
            }
            j = j + 1;
        }
        proof {
            lemma_unmarked_exists(picked@);
            let w = choose|w: int| 0 <= w < picked@.len() && !picked@[w];
            assert(found);
        }
        let ghost out0 = out@;
        let ghost picked0 = picked@;
        out.push((best, scores[best]));
        picked[best] = true;
        proof {
            assert(picked@ =~= picked0.update(best as int, true));
            lemma_count_marked_update(picked0, best as int);
            assert(out@[out0.len() as int] == (best, scores@[best as int]));
            // membership carries over and gains exactly the chosen node
            assert forall|w: int| 0 <= w < n implies ((#[trigger] picked@[w]) <==> exists|i: int|
                0 <= i < out@.len() && (#[trigger] out@[i]).0 == w) by {
                if w == best as int {
                } else {
                    if picked0[w] {
                        let i = choose|i: int| 0 <= i < out0.len() && (#[trigger] out0[i]).0 == w;
                        assert(out@[i].0 == w);
                    }
                    if exists|i: int| 0 <= i < out@.len() && (#[trigger] out@[i]).0 == w {
                        let i = choose|i: int|
                            0 <= i < out@.len() && (#[trigger] out@[i]).0 == w;
                        assert(i < out0.len());
                        assert(out0[i].0 == w);
                    }
                }
            }
        }
    }
    proof {
        assert forall|j: int|
            0 <= j < n && (forall|i: int|
                0 <= i < out@.len() ==> (#[trigger] out@[i]).0 != j) implies (out@.len() == 0 || (
        scores@[j]) <= out@[out@.len() - 1].1) by {
            if picked@[j] {
                let i = choose|i: int| 0 <= i < out@.len() && (#[trigger] out@[i]).0 == j;
                assert(out@[i].0 == j);
            }
        }
    }
    out
}

proof fn lemma_count_marked_none(s: Seq<bool>)
    requires
        forall|j: int| 0 <= j < s.len() ==> !(#[trigger] s[j]),
    ensures
        count_marked(s) == 0,
    decreases s.len(),
{
    if s.len() > 0 {
        lemma_count_marked_none(s.drop_last());
    }
}

} // verus!
