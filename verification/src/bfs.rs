use vstd::prelude::*;

use crate::graph::Graph;

verus! {

/// The distance labeling before any level has been expanded: the source at
/// distance zero, every other node unreached.
pub open spec fn bfs_init(n: nat, source: int) -> Seq<int> {
    Seq::new(n, |v: int| if v == source { 0 } else { -1 })
}

/// One synchronous frontier expansion: a node still unreached gains distance
/// `level` exactly when some node at distance `level - 1` has an edge to it.
pub open spec fn bfs_step(g: &Graph, dist: Seq<int>, level: int) -> Seq<int> {
    Seq::new(
        dist.len(),
        |v: int|
            if dist[v] != -1 {
                dist[v]
            } else if exists|u: int|
                0 <= u < dist.len() && dist[u] == level - 1 && g.has_edge(u, v) {
                level
            } else {
                -1
            },
    )
}

/// The distance labeling after `k` synchronous frontier expansions from `source`.
pub open spec fn bfs_upto(g: &Graph, source: int, k: nat) -> Seq<int>
    decreases k,
{
    if k == 0 {
        bfs_init(g.num_nodes as nat, source)
    } else {
        bfs_step(g, bfs_upto(g, source, (k - 1) as nat), k as int)
    }
}

/// The breadth-first distance labeling from `source`: `num_nodes` expansions
/// always suffice, so this is the stable labeling. Entry `v` is the least
/// number of edges on a directed walk from `source` to `v`, or `-1` if no
/// such walk exists; `lemma_bfs_spec_shortest` proves that reading.
pub open spec fn bfs_spec(g: &Graph, source: int) -> Seq<int> {
    bfs_upto(g, source, g.num_nodes as nat)
}

pub proof fn lemma_bfs_upto_len(g: &Graph, source: int, k: nat)
    ensures
        bfs_upto(g, source, k).len() == g.num_nodes,
    decreases k,
{
    if k > 0 {
        lemma_bfs_upto_len(g, source, (k - 1) as nat);
    }
}

/// Every entry of the labeling after `k` expansions is `-1` or a level in
/// `0 .. k`, zero being reserved for the source.
pub proof fn lemma_bfs_values(g: &Graph, source: int, k: nat)
    ensures
        bfs_upto(g, source, k).len() == g.num_nodes,
        forall|v: int|
            0 <= v < g.num_nodes ==> bfs_upto(g, source, k)[v] == -1 || (0 <= bfs_upto(
                g,
                source,
                k,
            )[v] <= k),
        forall|v: int|
            0 <= v < g.num_nodes ==> (bfs_upto(g, source, k)[v] == 0 <==> v == source),
    decreases k,
{
    lemma_bfs_upto_len(g, source, k);
    if k > 0 {
        lemma_bfs_values(g, source, (k - 1) as nat);
    }
}

/// Once an expansion adds nothing at level `k`, every later labeling equals
/// the one after `k` expansions.
pub proof fn lemma_bfs_stable(g: &Graph, source: int, k: nat, j: nat)
    requires
        1 <= k <= j,
        forall|v: int| 0 <= v < g.num_nodes ==> bfs_upto(g, source, k)[v] != k,
    ensures
        bfs_upto(g, source, j) == bfs_upto(g, source, k),
    decreases j,
{
    lemma_bfs_values(g, source, k);
    if j > k {
        lemma_bfs_stable(g, source, k, (j - 1) as nat);
        let prev = bfs_upto(g, source, (j - 1) as nat);
        let cur = bfs_upto(g, source, j);
        assert forall|v: int| 0 <= v < g.num_nodes implies cur[v] == prev[v] by {
            if prev[v] == -1 {
                assert(forall|u: int|
                    0 <= u < prev.len() ==> prev[u] != j - 1);
            }
        }
        assert(cur =~= prev);
    }
}

/// A labeling that (a) gives level zero to the source alone, (b) is closed
/// under edges with unit increase, and (c) gives every positive level a
/// predecessor one level below, is the breadth-first labeling itself, as long
/// as its finite entries stay below `num_nodes`.
pub proof fn lemma_bfs_characterization(g: &Graph, source: int, dist: Seq<int>)
    requires
        g.wf(),
        0 <= source < g.num_nodes,
        dist.len() == g.num_nodes,
        forall|v: int| 0 <= v < dist.len() ==> dist[v] == -1 || 0 <= dist[v] < g.num_nodes,
        forall|v: int| 0 <= v < dist.len() ==> (dist[v] == 0 <==> v == source),
        forall|u: int, v: int|
            0 <= u < dist.len() && 0 <= v < dist.len() && dist[u] != -1 && g.has_edge(u, v)
                ==> dist[v] != -1 && dist[v] <= dist[u] + 1,
        forall|v: int|
            0 <= v < dist.len() && dist[v] >= 1 ==> exists|u: int|
                0 <= u < dist.len() && g.has_edge(u, v) && dist[u] == dist[v] - 1,
    ensures
        dist == bfs_spec(g, source),
{
    lemma_bfs_char_upto(g, source, dist, g.num_nodes as nat);
    lemma_bfs_upto_len(g, source, g.num_nodes as nat);
    assert forall|v: int| 0 <= v < dist.len() implies bfs_spec(g, source)[v] == dist[v] by {
        if dist[v] != -1 {
            assert(0 <= dist[v] <= g.num_nodes);
        }
    }
    assert(dist =~= bfs_spec(g, source));
}

proof fn lemma_bfs_char_upto(g: &Graph, source: int, dist: Seq<int>, k: nat)
    requires
        g.wf(),
        0 <= source < g.num_nodes,
        dist.len() == g.num_nodes,
        forall|v: int| 0 <= v < dist.len() ==> dist[v] == -1 || 0 <= dist[v] < g.num_nodes,
        forall|v: int| 0 <= v < dist.len() ==> (dist[v] == 0 <==> v == source),
        forall|u: int, v: int|
            0 <= u < dist.len() && 0 <= v < dist.len() && dist[u] != -1 && g.has_edge(u, v)
                ==> dist[v] != -1 && dist[v] <= dist[u] + 1,
        forall|v: int|
            0 <= v < dist.len() && dist[v] >= 1 ==> exists|u: int|
                0 <= u < dist.len() && g.has_edge(u, v) && dist[u] == dist[v] - 1,
    ensures
        forall|v: int|
            0 <= v < dist.len() ==> bfs_upto(g, source, k)[v] == (if 0 <= dist[v] <= k {
                dist[v]
            } else {
                -1
            }),
    decreases k,
{
    lemma_bfs_upto_len(g, source, k);
    if k == 0 {
    } else {
        let km1 = (k - 1) as nat;
        lemma_bfs_char_upto(g, source, dist, km1);
        let prev = bfs_upto(g, source, km1);
        let cur = bfs_upto(g, source, k);
        assert forall|v: int| 0 <= v < dist.len() implies cur[v] == (if 0 <= dist[v] <= k {
            dist[v]
        } else {
            -1
        }) by {
            if 0 <= dist[v] <= k - 1 {
                // already present one step earlier, kept by the expansion
                assert(prev[v] == dist[v]);
            } else if dist[v] == k {
                // a predecessor at level k - 1 forces the assignment
                assert(prev[v] == -1);
                let u = choose|u: int|
                    0 <= u < dist.len() && g.has_edge(u, v) && dist[u] == dist[v] - 1;
                assert(prev[u] == k - 1);
                assert(0 <= u < prev.len() && prev[u] == k - 1 && g.has_edge(u, v));
            } else {
                // not yet owed: no predecessor of v can sit at level k - 1
                assert(prev[v] == -1);
                assert forall|u: int|
                    0 <= u < prev.len() && prev[u] == k - 1 implies !g.has_edge(u, v) by {
                    assert(dist[u] == k - 1);
                    if g.has_edge(u, v) {
                        assert(dist[v] != -1 && dist[v] <= k);
                    }
                }
            }
        }
    }
}

/// A `Vec<i32>` distance vector, seen as a sequence of mathematical integers.
pub open spec fn view_i32(s: Seq<i32>) -> Seq<int> {
    s.map_values(|x: i32| x as int)
}

/// How many entries of a distance vector are still `-1`.
pub open spec fn count_unreached(s: Seq<i32>) -> nat
    decreases s.len(),
{
    if s.len() == 0 {
        0
    } else {
        (if s[s.len() - 1] == -1 {
            1nat
        } else {
            0nat
        }) + count_unreached(s.drop_last())
    }
}

proof fn lemma_count_unreached_update(s: Seq<i32>, v: int, x: i32)
    requires
        0 <= v < s.len(),
        s[v] == -1,
        x != -1,
    ensures
        count_unreached(s.update(v, x)) + 1 == count_unreached(s),
    decreases s.len(),
{
    let t = s.update(v, x);
    if v == s.len() - 1 {
        assert(t.drop_last() =~= s.drop_last());
    } else {
        assert(t.drop_last() =~= s.drop_last().update(v, x));
        lemma_count_unreached_update(s.drop_last(), v, x);
    }
}

/// `v` occurs among the first `len` entries of `q`.
pub open spec fn in_queue(q: Seq<usize>, v: int) -> bool {
    exists|k: int| 0 <= k < q.len() && (#[trigger] q[k]) == v
}

#[verifier::rlimit(100)]
pub fn bfs_sequential(graph: &Graph, source: usize) -> (r: Vec<i32>)
    requires
        graph.wf(),
        source < graph.num_nodes,
        graph.num_nodes <= i32::MAX as usize,
    ensures
        r@.len() == graph.num_nodes,
        view_i32(r@) == bfs_spec(graph, source as int),
        forall|v: int| 0 <= v < r@.len() ==> r@[v] as int == bfs_spec(graph, source as int)[v],
{
    let n = graph.num_nodes;
    let mut dist: Vec<i32> = Vec::new();
    let mut i: usize = 0;
    while i < n
        invariant
            i <= n,
            dist@.len() == i,
            forall|v: int| 0 <= v < i ==> dist@[v] == -1i32,
        decreases n - i,
    {
        dist.push(-1);
        i = i + 1;
    }
    let ghost dist0 = dist@;
    proof {
        lemma_count_all_unreached(dist0);
    }
    dist[source] = 0;
    let mut queue: Vec<usize> = Vec::new();
    queue.push(source);
    let mut head: usize = 0;
    proof {
        assert(dist@ =~= dist0.update(source as int, 0i32));
        lemma_count_unreached_update(dist0, source as int, 0i32);
        assert(queue@[0] == source);
        assert forall|v: int| 0 <= v < n implies ((dist@[v] != -1i32) <==> in_queue(queue@, v)) by {
            if v == source as int {
                assert(queue@[0] == source);
            } else if in_queue(queue@, v) {
                let k = choose|k: int| 0 <= k < queue@.len() && queue@[k] == v;
                assert(k == 0);
            }
        }
    }
    while head < queue.len()
        invariant
            dist@.len() == n,
            head <= queue@.len(),
            queue@.len() + count_unreached(dist@) == n,
            forall|k: int| 0 <= k < queue@.len() ==> (#[trigger] queue@[k]) < n,
            forall|v: int| 0 <= v < n ==> ((dist@[v] != -1i32) <==> in_queue(queue@, v)),
            forall|k1: int, k2: int|
                0 <= k1 < k2 < queue@.len() ==> queue@[k1] != queue@[k2],
            forall|k1: int, k2: int|
                0 <= k1 <= k2 < queue@.len() ==> dist@[#[trigger] queue@[k1] as int]
                    <= dist@[#[trigger] queue@[k2] as int],
            head < queue@.len() ==> dist@[queue@[queue@.len() - 1] as int] as int <= dist@[queue@[head as int] as int] as int + 1,
            forall|k: int, v: int|
                0 <= k < head && 0 <= v < n && #[trigger] graph.has_edge(queue@[k] as int, v)
                    ==> dist@[v] != -1i32 && dist@[v] as int <= dist@[queue@[k] as int] as int + 1,
            forall|v: int|
                0 <= v < n && dist@[v] as int >= 1 ==> exists|u: int|
                    0 <= u < n && graph.has_edge(u, v) && dist@[u] as int == dist@[v] as int - 1,
            queue@.len() >= 1,
            queue@[0] == source,
            forall|v: int| 0 <= v < n ==> ((dist@[v] == 0i32) <==> v == source as int),
            forall|k: int| 0 <= k < queue@.len() ==> dist@[#[trigger] queue@[k] as int] as int <= k,
            forall|v: int| 0 <= v < n ==> dist@[v] as int >= -1,
        decreases n - head,
    {
        let u = queue[head];
        head = head + 1;
        let du = dist[u];
        let ghost head0 = head as int;
        let ghost q0 = queue@;
        let deg = graph.edges[u].len();
        let mut j: usize = 0;
        while j < deg
            invariant
                j <= deg,
                deg == graph.edges@[u as int]@.len(),
                1 <= head <= queue@.len(),
                head == head0,
                u == queue@[head - 1],
                dist@[u as int] == du,
                0 <= du as int <= head - 1,
                dist@.len() == n,
                queue@.len() + count_unreached(dist@) == n,
                forall|k: int| 0 <= k < queue@.len() ==> (#[trigger] queue@[k]) < n,
                forall|v: int| 0 <= v < n ==> ((dist@[v] != -1i32) <==> in_queue(queue@, v)),
                forall|k1: int, k2: int|
                    0 <= k1 < k2 < queue@.len() ==> queue@[k1] != queue@[k2],
                forall|k1: int, k2: int|
                    0 <= k1 <= k2 < queue@.len() ==> dist@[#[trigger] queue@[k1] as int]
                        <= dist@[#[trigger] queue@[k2] as int],
                forall|k: int|
                    0 <= k < queue@.len() ==> dist@[#[trigger] queue@[k] as int] as int <= du as int
                        + 1,
                forall|k: int, v: int|
                    0 <= k < head - 1 && 0 <= v < n && #[trigger] graph.has_edge(queue@[k] as int, v)
                        ==> dist@[v] != -1i32 && dist@[v] as int <= dist@[queue@[k] as int] as int
                        + 1,
                forall|jj: int|
                    0 <= jj < j ==> dist@[#[trigger] graph.edges@[u as int]@[jj] as int] != -1i32
                        && dist@[graph.edges@[u as int]@[jj] as int] as int <= du as int + 1,
                forall|v: int|
                    0 <= v < n && dist@[v] as int >= 1 ==> exists|uu: int|
                        0 <= uu < n && graph.has_edge(uu, v) && dist@[uu] as int == dist@[v] as int
                            - 1,
                queue@.len() >= 1,
                queue@[0] == source,
                forall|v: int| 0 <= v < n ==> ((dist@[v] == 0i32) <==> v == source as int),
                forall|k: int|
                    0 <= k < queue@.len() ==> dist@[#[trigger] queue@[k] as int] as int <= k,
                forall|v: int| 0 <= v < n ==> dist@[v] as int >= -1,
            decreases deg - j,
        {
            let v = graph.edges[u][j];
            assert(v < n);
            if dist[v] == -1 {
                let ghost dist0 = dist@;
                let ghost q1 = queue@;
                dist[v] = du + 1;
                queue.push(v);
                proof {
                    lemma_count_unreached_update(dist0, v as int, (du + 1) as i32);
                    assert(dist@ =~= dist0.update(v as int, (du + 1) as i32));
                    // the new node was claimed through the edge (u, v)
                    assert(graph.has_edge(u as int, v as int));
                    assert forall|w: int| 0 <= w < n implies ((dist@[w] != -1i32) <==> in_queue(
                        queue@,
                        w,
                    )) by {
                        if w == v as int {
                            assert(queue@[q1.len() as int] == v);
                        } else {
                            if in_queue(q1, w) {
                                let k = choose|k: int| 0 <= k < q1.len() && q1[k] == w;
                                assert(queue@[k] == w);
                            }
                            if in_queue(queue@, w) {
                                let k = choose|k: int| 0 <= k < queue@.len() && queue@[k] == w;
                                assert(k < q1.len());
                            }
                        }
                    }
                    // a processed node cannot have an edge into the fresh node
                    assert forall|k: int, w: int|
                        0 <= k < head - 1 && 0 <= w < n && #[trigger] graph.has_edge(
                            queue@[k] as int,
                            w,
                        ) implies dist@[w] != -1i32 && dist@[w] as int <= dist@[queue@[k] as int] as int
                        + 1 by {
                        assert(queue@[k] == q1[k]);
                        assert(dist0[w] != -1i32);
                        assert(w != v as int);
                    }
                }
            } else {
                proof {
                    // the neighbour is already discovered, hence already in the
                    // queue and bounded by the level window
                    let k = choose|k: int| 0 <= k < queue@.len() && queue@[k] == v;
                    assert(dist@[v as int] as int <= du as int + 1);
                }
            }
            j = j + 1;
        }
        proof {
            // the whole-queue level bound restores the two-level window
            if head < queue@.len() {
                assert(dist@[queue@[head as int] as int] >= dist@[queue@[head - 1] as int]);
            }
        }
    }
    proof {
        let dm = view_i32(dist@);
        assert forall|v: int| 0 <= v < n implies dm[v] == dist@[v] as int by {}
        assert forall|v: int| 0 <= v < n implies dm[v] == -1 || 0 <= dm[v] < n by {
            if dist@[v] != -1i32 {
                let k = choose|k: int| 0 <= k < queue@.len() && queue@[k] == v;
                assert(dist@[queue@[k] as int] as int <= k);
                assert(queue@.len() <= n);
            }
        }
        assert forall|uu: int, v: int|
            0 <= uu < n && 0 <= v < n && dm[uu] != -1 && graph.has_edge(uu, v) implies dm[v] != -1
            && dm[v] <= dm[uu] + 1 by {
            let k = choose|k: int| 0 <= k < queue@.len() && queue@[k] == uu;
            assert(graph.has_edge(queue@[k] as int, v));
        }
        lemma_bfs_characterization(graph, source as int, dm);
    }
    dist
}

/// The rows handed back by the gather pass, each seen as a sequence.
pub open spec fn rows_view(rows: Seq<Vec<usize>>) -> Seq<Seq<usize>> {
    rows.map_values(|r: Vec<usize>| r@)
}

/// `v` occurs somewhere in the gathered rows.
pub open spec fn in_rows(rows: Seq<Seq<usize>>, v: int) -> bool {
    exists|x: int, y: int|
        0 <= x < rows.len() && 0 <= y < rows[x].len() && (#[trigger] rows[x][y]) == v
}

/// Level-synchronous breadth-first search: the adjacency rows of the current
/// frontier are gathered by a pool of worker threads, and the claim pass then
/// assigns the next level to each node reached for the first time, exactly
/// once. Returns the same distance vector as `bfs_sequential`.
#[verifier::rlimit(100)]
pub fn bfs_parallel(graph: &Graph, source: usize, num_threads: usize) -> (r: Vec<i32>)
    requires
        graph.wf(),
        source < graph.num_nodes,
        graph.num_nodes <= i32::MAX as usize,
    ensures
        r@.len() == graph.num_nodes,
        view_i32(r@) == bfs_spec(graph, source as int),
        forall|v: int| 0 <= v < r@.len() ==> r@[v] as int == bfs_spec(graph, source as int)[v],
{
    let n = graph.num_nodes;
    let mut dist: Vec<i32> = Vec::new();
    let mut i: usize = 0;
    while i < n
        invariant
            i <= n,
            dist@.len() == i,
            forall|v: int| 0 <= v < i ==> dist@[v] == -1i32,
        decreases n - i,
    {
        dist.push(-1);
        i = i + 1;
    }
    let ghost dist00 = dist@;
    proof {
        lemma_count_all_unreached(dist00);
    }
    dist[source] = 0;
    let mut frontier: Vec<usize> = Vec::new();
    frontier.push(source);
    let mut level: i32 = 0;
    proof {
        assert(dist@ =~= dist00.update(source as int, 0i32));
        lemma_count_unreached_update(dist00, source as int, 0i32);
        assert(view_i32(dist@) =~= bfs_upto(graph, source as int, 0nat));
        assert forall|v: int| 0 <= v < n implies (in_queue(frontier@, v) <==> dist@[v] as int
            == level as int) by {
            if v == source as int {
                assert(frontier@[0] == source);
            } else if in_queue(frontier@, v) {
                let k = choose|k: int| 0 <= k < frontier@.len() && frontier@[k] == v;
                assert(k == 0);
            }
        }
    }
    while frontier.len() > 0
        invariant
            dist@.len() == n,
            0 <= level as int <= n,
            view_i32(dist@) == bfs_upto(graph, source as int, level as nat),
            forall|k: int| 0 <= k < frontier@.len() ==> (#[trigger] frontier@[k]) < n,
            forall|k1: int, k2: int|
                0 <= k1 < k2 < frontier@.len() ==> frontier@[k1] != frontier@[k2],
            forall|v: int|
                0 <= v < n ==> (in_queue(frontier@, v) <==> dist@[v] as int == level as int),
            n - count_unreached(dist@) >= level as int + frontier@.len(),
            level as int == 0 ==> frontier@.len() > 0,
        decreases count_unreached(dist@) + (if frontier@.len() > 0 {
            1int
        } else {
            0int
        }),
    {
        proof {
            lemma_bfs_values(graph, source as int, level as nat);
        }
        let ghost level0 = level as int;
        level = level + 1;
        let rows = crate::parallel::par_gather_rows(graph, &frontier, num_threads);
        let ghost rv = rows_view(rows@);
        let ghost dist_pre = dist@;
        proof {
            assert forall|v: int| 0 <= v < n implies dist_pre[v] as int <= level0 by {
                assert(view_i32(dist_pre)[v] == dist_pre[v] as int);
                assert(view_i32(dist_pre)[v] == bfs_upto(graph, source as int, level0 as nat)[v]);
            }
        }
        let mut next: Vec<usize> = Vec::new();
        let mut a: usize = 0;
        while a < rows.len()
            invariant
                a <= rows@.len(),
                rv == rows_view(rows@),
                rv.len() == frontier@.len(),
                forall|x: int| 0 <= x < rv.len() ==> rv[x] == graph.edges@[frontier@[x] as int]@,
                forall|k: int| 0 <= k < frontier@.len() ==> (#[trigger] frontier@[k]) < n,
                level as int == level0 + 1,
                1 <= level as int <= n,
                dist@.len() == n,
                dist_pre.len() == n,
                forall|v: int| 0 <= v < n ==> dist_pre[v] as int <= level0,
                forall|v: int|
                    0 <= v < n ==> (in_queue(frontier@, v) <==> dist_pre[v] as int == level0),
                forall|v: int|
                    0 <= v < n && dist@[v] != (#[trigger] dist_pre[v]) ==> dist_pre[v] == -1i32
                        && dist@[v] == level && in_rows(rv, v),
                forall|x: int, y: int|
                    0 <= x < a && 0 <= y < rv[x].len() ==> dist@[#[trigger] rv[x][y] as int]
                        != -1i32,
                forall|v: int|
                    0 <= v < n ==> (in_queue(next@, v) <==> ((#[trigger] dist_pre[v]) == -1i32
                        && dist@[v] == level)),
                forall|k1: int, k2: int| 0 <= k1 < k2 < next@.len() ==> next@[k1] != next@[k2],
                forall|k: int| 0 <= k < next@.len() ==> (#[trigger] next@[k]) < n,
                count_unreached(dist@) + next@.len() == count_unreached(dist_pre),
                n - count_unreached(dist_pre) >= level0 + frontier@.len(),
            decreases rows@.len() - a,
        {
            let deg = rows[a].len();
            let mut b: usize = 0;
            while b < deg
                invariant
                    b <= deg,
                    a < rows@.len(),
                    deg == rv[a as int].len(),
                    rv == rows_view(rows@),
                    rv.len() == frontier@.len(),
                    forall|x: int|
                        0 <= x < rv.len() ==> rv[x] == graph.edges@[frontier@[x] as int]@,
                    forall|k: int| 0 <= k < frontier@.len() ==> (#[trigger] frontier@[k]) < n,
                    level as int == level0 + 1,
                    1 <= level as int <= n,
                    dist@.len() == n,
                    dist_pre.len() == n,
                    forall|v: int| 0 <= v < n ==> dist_pre[v] as int <= level0,
                    forall|v: int|
                        0 <= v < n ==> (in_queue(frontier@, v) <==> dist_pre[v] as int == level0),
                    forall|v: int|
                        0 <= v < n && dist@[v] != (#[trigger] dist_pre[v]) ==> dist_pre[v] == -1i32
                            && dist@[v] == level && in_rows(rv, v),
                    forall|x: int, y: int|
                        0 <= x < a && 0 <= y < rv[x].len() ==> dist@[#[trigger] rv[x][y] as int]
                            != -1i32,
                    forall|y: int|
                        0 <= y < b ==> dist@[#[trigger] rv[a as int][y] as int] != -1i32,
                    forall|v: int|
                        0 <= v < n ==> (in_queue(next@, v) <==> ((#[trigger] dist_pre[v]) == -1i32
                            && dist@[v] == level)),
                    forall|k1: int, k2: int| 0 <= k1 < k2 < next@.len() ==> next@[k1] != next@[k2],
                    forall|k: int| 0 <= k < next@.len() ==> (#[trigger] next@[k]) < n,
                    count_unreached(dist@) + next@.len() == count_unreached(dist_pre),
                    n - count_unreached(dist_pre) >= level0 + frontier@.len(),
                decreases deg - b,
            {
                let v = rows[a][b];
                assert(rv[a as int][b as int] == v);
                assert(v < n) by {
                    assert(rv[a as int] == graph.edges@[frontier@[a as int] as int]@);
                }
                if dist[v] == -1 {
                    let ghost dist1 = dist@;
                    let ghost next1 = next@;
                    proof {
                        assert(forall|w: int|
                            0 <= w < n ==> (in_queue(next@, w) <==> ((#[trigger] dist_pre[w])
                                == -1i32 && dist@[w] == level)));
                        assert(next1 == next@ && dist1 == dist@);
                        assert(forall|w: int|
                            0 <= w < n ==> (in_queue(next1, w) <==> ((#[trigger] dist_pre[w])
                                == -1i32 && dist1[w] == level)));
                    }
                    dist[v] = level;
                    next.push(v);
                    proof {
                        assert(dist@ =~= dist1.update(v as int, level));
                        lemma_count_unreached_update(dist1, v as int, level);
                        assert((a as int) < rv.len() && (b as int) < rv[a as int].len()
                            && rv[a as int][b as int] == v as int);
                        assert(in_rows(rv, v as int));
                        // the claimed node was still unreached, so it cannot
                        // already sit in the next frontier
                        assert(dist_pre[v as int] == -1i32);
                        assert(dist1[v as int] != level);
                        assert(!in_queue(next1, v as int));
                        assert forall|k1: int, k2: int|
                            0 <= k1 < k2 < next@.len() implies next@[k1] != next@[k2] by {
                            if k2 == next1.len() as int {
                                assert(next@[k1] == next1[k1]);
                            } else {
                                assert(next@[k1] == next1[k1] && next@[k2] == next1[k2]);
                            }
                        }
                        assert forall|w: int| 0 <= w < n implies (in_queue(next@, w) <==> (
                        dist_pre[w] == -1i32 && dist@[w] == level)) by {
                            if w == v as int {
                                assert(dist1[w] == -1i32);
                                assert(dist_pre[w] == -1i32);
                                assert(next@[next1.len() as int] == v);
                                assert(in_queue(next@, w));
                                assert(dist@[w] == level);
                            } else {
                                assert(dist@[w] == dist1[w]);
                                if in_queue(next1, w) {
                                    let k = choose|k: int|
                                        0 <= k < next1.len() && next1[k] == w;
                                    assert(next@[k] == w);
                                    assert(in_queue(next@, w));
                                }
                                if in_queue(next@, w) {
                                    let k = choose|k: int|
                                        0 <= k < next@.len() && next@[k] == w;
                                    assert(k < next1.len());
                                    assert(in_queue(next1, w));
                                    assert(dist_pre[w] == -1i32 && dist1[w] == level);
                                }
                            }
                        }
                    }
                }
                b = b + 1;
            }
            a = a + 1;
        }
        proof {
            // the claim pass has carried out exactly one synchronous expansion
            let dm_pre = view_i32(dist_pre);
            let dm = view_i32(dist@);
            let stepped = bfs_step(graph, dm_pre, level as int);
            assert forall|v: int| 0 <= v < n implies dm[v] == stepped[v] by {
                if dist_pre[v] != -1i32 {
                    assert(dist@[v] == dist_pre[v]);
                } else {
                    if dist@[v] != dist_pre[v] {
                        // claimed: some gathered row, hence some frontier node
                        // at the previous level, has an edge to v
                        let (x, y) = choose|x: int, y: int|
                            0 <= x < rv.len() && 0 <= y < rv[x].len() && rv[x][y] == v;
                        let u = frontier@[x] as int;
                        assert(graph.edges@[u]@[y] == v);
                        assert(graph.has_edge(u, v));
                        assert(in_queue(frontier@, u));
                        assert(dm_pre[u] == level as int - 1);
                        assert(stepped[v] == level as int);
                    } else {
                        // unclaimed: no frontier node reaches v
                        assert(dm[v] == -1);
                        assert forall|u: int|
                            0 <= u < n && dm_pre[u] == level as int - 1 implies !graph.has_edge(
                            u,
                            v,
                        ) by {
                            if graph.has_edge(u, v) {
                                assert(in_queue(frontier@, u));
                                let x = choose|x: int|
                                    0 <= x < frontier@.len() && frontier@[x] == u;
                                let y = choose|y: int|
                                    0 <= y < graph.edges@[u]@.len() && graph.edges@[u]@[y] == v;
                                assert(rv[x][y] == v);
                                assert(dist@[v as int] != -1i32);
                            }
                        }
                        assert(stepped[v] == -1);
                    }
                }
            }
            assert(dm =~= stepped);
            assert(dm == bfs_upto(graph, source as int, level as nat));
            lemma_bfs_values(graph, source as int, level as nat);
            // the next frontier is exactly the set of nodes at the new level
            assert forall|v: int| 0 <= v < n implies (in_queue(next@, v) <==> dist@[v] as int
                == level as int) by {
                if dist@[v] as int == level as int {
                    assert(dist_pre[v] as int <= level as int - 1);
                    assert(dist@[v] != dist_pre[v]);
                }
            }
        }
        frontier = next;
    }
    proof {
        let lv = level as nat;
        assert forall|v: int| 0 <= v < n implies bfs_upto(graph, source as int, lv)[v]
            != level as int by {
            if view_i32(dist@)[v] == level as int {
                assert(in_queue(frontier@, v));
            }
        }
        if (level as int) < n {
            lemma_bfs_stable(graph, source as int, lv, n as nat);
        }
        assert(view_i32(dist@) == bfs_spec(graph, source as int));
    }
    dist
}

/// Sequential and parallel breadth-first search agree: the distance vector is
/// a function of the graph and the source alone, so any two runs, whatever
/// their mode or worker count, return equal vectors.
pub proof fn lemma_bfs_modes_agree(g: &Graph, source: int, d_seq: Seq<int>, d_par: Seq<int>)
    requires
        d_seq == bfs_spec(g, source),
        d_par == bfs_spec(g, source),
    ensures
        d_seq == d_par,
{
}

/// A source with no incident edges at all keeps distance zero while every
/// other node stays unreached.
/// `p` is a walk from `x` to `y` along directed edges.
pub open spec fn is_dwalk(g: &Graph, p: Seq<int>, x: int, y: int) -> bool {
    &&& p.len() >= 1
    &&& p[0] == x
    &&& p[p.len() - 1] == y
    &&& forall|i: int| 0 <= i < p.len() - 1 ==> g.has_edge(#[trigger] p[i], p[i + 1])
}

/// Some directed walk of at most `k` edges leads from `s` to `v`.
pub open spec fn reaches_in(g: &Graph, s: int, v: int, k: int) -> bool {
    exists|p: Seq<int>| is_dwalk(g, p, s, v) && p.len() - 1 <= k
}

proof fn lemma_bfs_reaches(g: &Graph, source: int, k: nat)
    requires
        g.wf(),
        0 <= source < g.num_nodes,
    ensures
        forall|v: int|
            0 <= v < g.num_nodes ==> ((bfs_upto(g, source, k)[v] == -1) <==> !reaches_in(
                g,
                source,
                v,
                k as int,
            )),
        forall|v: int|
            0 <= v < g.num_nodes && bfs_upto(g, source, k)[v] >= 0 ==> reaches_in(
                g,
                source,
                v,
                bfs_upto(g, source, k)[v],
            ) && !reaches_in(g, source, v, bfs_upto(g, source, k)[v] - 1),
    decreases k,
{
    lemma_bfs_values(g, source, k);
    if k == 0 {
        assert forall|v: int| 0 <= v < g.num_nodes implies ((bfs_upto(g, source, 0)[v] == -1)
            <==> !reaches_in(g, source, v, 0)) by {
            if v == source {
                let p = seq![source];
                assert(is_dwalk(g, p, source, source) && p.len() - 1 <= 0);
            } else if reaches_in(g, source, v, 0) {
                let p = choose|p: Seq<int>| is_dwalk(g, p, source, v) && p.len() - 1 <= 0;
                assert(p.len() == 1);
            }
        }
        assert forall|v: int|
            0 <= v < g.num_nodes && bfs_upto(g, source, 0)[v] >= 0 implies reaches_in(
            g,
            source,
            v,
            bfs_upto(g, source, 0)[v],
        ) by {
            assert(v == source);
            let p = seq![source];
            assert(is_dwalk(g, p, source, source) && p.len() - 1 <= 0);
        }
    } else {
        let km1 = (k - 1) as nat;
        lemma_bfs_reaches(g, source, km1);
        lemma_bfs_values(g, source, km1);
        let prev = bfs_upto(g, source, km1);
        let cur = bfs_upto(g, source, k);
        assert forall|v: int|
            0 <= v < g.num_nodes && cur[v] != -1 implies reaches_in(g, source, v, cur[v])
            && !reaches_in(g, source, v, cur[v] - 1) by {
            if prev[v] != -1 {
                assert(cur[v] == prev[v]);
            } else {
                // freshly assigned: a predecessor at the previous level
                // supplies the walk, and an earlier walk would have marked
                // the node one expansion sooner
                assert(cur[v] == k);
                let u = choose|u: int|
                    0 <= u < prev.len() && prev[u] == k - 1 && g.has_edge(u, v);
                let p = choose|p: Seq<int>| is_dwalk(g, p, source, u) && p.len() - 1 <= k - 1;
                let q = p.push(v);
                assert(q[q.len() - 1] == v);
                assert forall|i: int| 0 <= i < q.len() - 1 implies g.has_edge(
                    #[trigger] q[i],
                    q[i + 1],
                ) by {
                    if i < p.len() - 1 {
                        assert(q[i] == p[i] && q[i + 1] == p[i + 1]);
                    } else {
                        assert(q[i] == p[p.len() - 1] && q[i + 1] == v);
                    }
                }
                assert(is_dwalk(g, q, source, v) && q.len() - 1 <= k as int);
                assert(reaches_in(g, source, v, k as int));
            }
        }
        assert forall|v: int| 0 <= v < g.num_nodes implies ((cur[v] == -1) <==> !reaches_in(
            g,
            source,
            v,
            k as int,
        )) by {
            if cur[v] != -1 {
                assert(reaches_in(g, source, v, cur[v]));
                let p = choose|p: Seq<int>| is_dwalk(g, p, source, v) && p.len() - 1 <= cur[v];
                assert(is_dwalk(g, p, source, v) && p.len() - 1 <= k as int);
            } else {
                // unmarked: no walk of at most k edges can exist, since its
                // second-to-last node would already carry a level and would
                // have handed one on
                assert(prev[v] == -1);
                if reaches_in(g, source, v, k as int) {
                    let p = choose|p: Seq<int>|
                        is_dwalk(g, p, source, v) && p.len() - 1 <= k as int;
                    if p.len() - 1 <= k - 1 {
                        assert(reaches_in(g, source, v, k as int - 1));
                    } else {
                        assert(p.len() - 1 == k);
                        let u = p[p.len() - 2];
                        let pu = p.drop_last();
                        assert(pu[pu.len() - 1] == u);
                        assert forall|i: int| 0 <= i < pu.len() - 1 implies g.has_edge(
                            #[trigger] pu[i],
                            pu[i + 1],
                        ) by {
                            assert(pu[i] == p[i] && pu[i + 1] == p[i + 1]);
                        }
                        assert(g.has_edge(u, v));
                        assert(0 <= u < g.num_nodes);
                        assert(is_dwalk(g, pu, source, u) && pu.len() - 1 <= k - 1);
                        assert(reaches_in(g, source, u, k as int - 1));
                        assert(prev[u] != -1);
                        let du = prev[u];
                        assert(0 <= du <= k - 1);
                        assert(reaches_in(g, source, u, du));
                        let pz = choose|pz: Seq<int>|
                            is_dwalk(g, pz, source, u) && pz.len() - 1 <= du;
                        let qz = pz.push(v);
                        assert(qz[qz.len() - 1] == v);
                        assert forall|i: int| 0 <= i < qz.len() - 1 implies g.has_edge(
                            #[trigger] qz[i],
                            qz[i + 1],
                        ) by {
                            if i < pz.len() - 1 {
                                assert(qz[i] == pz[i] && qz[i + 1] == pz[i + 1]);
                            } else {
                                assert(qz[i] == pz[pz.len() - 1] && qz[i + 1] == v);
                            }
                        }
                        assert(is_dwalk(g, qz, source, v) && qz.len() - 1 <= du + 1);
                        if du + 1 <= k - 1 {
                            assert(reaches_in(g, source, v, k as int - 1));
                            assert(false);
                        } else {
                            assert(du == k - 1);
                            assert(cur[v] == k);
                            assert(false);
                        }
                    }
                }
            }
        }
    }
}

/// The breadth-first labeling measures directed walks: a label `d` means
/// some walk of at most `d` edges leads from the source to the node and no
/// shorter one does, so `d` is exactly the least number of hops; the `-1`
/// sentinel means that no walk of at most `num_nodes` edges arrives, that
/// is, none at all.
pub proof fn lemma_bfs_spec_shortest(g: &Graph, source: int)
    requires
        g.wf(),
        0 <= source < g.num_nodes,
    ensures
        forall|v: int|
            0 <= v < g.num_nodes ==> ((bfs_spec(g, source)[v] == -1) <==> !reaches_in(
                g,
                source,
                v,
                g.num_nodes as int,
            )),
        forall|v: int|
            0 <= v < g.num_nodes && bfs_spec(g, source)[v] >= 0 ==> reaches_in(
                g,
                source,
                v,
                bfs_spec(g, source)[v],
            ) && !reaches_in(g, source, v, bfs_spec(g, source)[v] - 1),
{
    lemma_bfs_reaches(g, source, g.num_nodes as nat);
}

pub proof fn lemma_bfs_isolated_source(g: &Graph, source: int)
    requires
        g.wf(),
        0 <= source < g.num_nodes,
        g.edges@[source]@.len() == 0,
        forall|u: int, j: int|
            0 <= u < g.edges@.len() && 0 <= j < g.edges@[u]@.len() ==> g.edges@[u]@[j] as int
                != source,
    ensures
        bfs_spec(g, source)[source] == 0,
        forall|v: int| 0 <= v < g.num_nodes && v != source ==> bfs_spec(g, source)[v] == -1,
{
    let init = bfs_init(g.num_nodes as nat, source);
    assert forall|u: int, v: int|
        0 <= u < init.len() && 0 <= v < init.len() && init[u] != -1 && g.has_edge(u, v) implies init[v]
        != -1 && init[v] <= init[u] + 1 by {
        assert(u == source);
        assert(g.edges@[u]@.len() == 0);
    }
    lemma_bfs_characterization(g, source, init);
}

proof fn lemma_count_all_unreached(s: Seq<i32>)
    requires
        forall|v: int| 0 <= v < s.len() ==> s[v] == -1i32,
    ensures
        count_unreached(s) == s.len(),
    decreases s.len(),
{
    if s.len() > 0 {
        lemma_count_all_unreached(s.drop_last());
    }
}

} // verus!
