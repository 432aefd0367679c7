use vstd::prelude::*;

use crate::graph::Graph;
use crate::graph::conn;
use crate::graph::edge_pairs;
use crate::graph::is_walk;
use crate::graph::links;
use crate::graph::pairs_upto;
use crate::graph::row_pairs;
use crate::union_find::MinIdUnionFind;
use crate::union_find::UnionFind;

verus! {

/// Every pair names two valid node ids.
pub open spec fn pairs_wf(pairs: Seq<(usize, usize)>, n: int) -> bool {
    forall|i: int| 0 <= i < pairs.len() ==> (#[trigger] pairs[i]).0 < n && pairs[i].1 < n
}

proof fn lemma_pairs_upto_wf(g: &Graph, u: int)
    requires
        g.wf(),
        0 <= u <= g.num_nodes,
    ensures
        pairs_wf(pairs_upto(g, u), g.num_nodes as int),
    decreases u,
{
    if u > 0 {
        lemma_pairs_upto_wf(g, u - 1);
        let prev = pairs_upto(g, u - 1);
        let row = row_pairs(g, u - 1);
        assert forall|i: int|
            0 <= i < prev.len() + row.len() implies ((#[trigger] (prev + row)[i]).0 < g.num_nodes
            && (prev + row)[i].1 < g.num_nodes) by {
            if i < prev.len() {
                assert((prev + row)[i] == prev[i]);
            } else {
                assert((prev + row)[i] == row[i - prev.len()]);
            }
        }
    }
}

/// Without any pairs, only a node is connected to itself.
proof fn lemma_conn_empty(n: int, a: int, b: int)
    requires
        0 <= a < n,
        0 <= b < n,
    ensures
        conn(Seq::<(usize, usize)>::empty(), n, a, b) <==> a == b,
{
    let pairs = Seq::<(usize, usize)>::empty();
    if a == b {
        let p = seq![a];
        assert(is_walk(pairs, p, a, a));
        assert(conn(pairs, n, a, b));
    }
    if conn(pairs, n, a, b) {
        let p = choose|p: Seq<int>| is_walk(pairs, p, a, b);
        if p.len() >= 2 {
            assert(links(pairs, p[0], p[1]));
            assert(false);
        }
    }
}

proof fn lemma_conn_refl(pairs: Seq<(usize, usize)>, n: int, a: int)
    requires
        0 <= a < n,
    ensures
        conn(pairs, n, a, a),
{
    let p = seq![a];
    assert(is_walk(pairs, p, a, a));
}

proof fn lemma_link_conn(pairs: Seq<(usize, usize)>, n: int, a: int, b: int)
    requires
        0 <= a < n,
        0 <= b < n,
        links(pairs, a, b),
    ensures
        conn(pairs, n, a, b),
{
    let p = seq![a, b];
    assert(p[0] == a && p[p.len() - 1] == b);
    assert(is_walk(pairs, p, a, b));
}

proof fn lemma_conn_trans(pairs: Seq<(usize, usize)>, n: int, a: int, b: int, c: int)
    requires
        conn(pairs, n, a, b),
        conn(pairs, n, b, c),
    ensures
        conn(pairs, n, a, c),
{
    let p = choose|p: Seq<int>| is_walk(pairs, p, a, b);
    let q = choose|q: Seq<int>| is_walk(pairs, q, b, c);
    let r = p + q.skip(1);
    assert(r.len() == p.len() + q.len() - 1);
    assert(r[0] == p[0]);
    if q.len() == 1 {
        assert(r =~= p);
        assert(is_walk(pairs, r, a, c));
    } else {
        assert(r[r.len() - 1] == q[q.len() - 1]);
        assert forall|i: int| 0 <= i < r.len() - 1 implies links(pairs, #[trigger] r[i], r[i + 1]) by {
            if i < p.len() - 1 {
                assert(r[i] == p[i] && r[i + 1] == p[i + 1]);
                assert(links(pairs, p[i], p[i + 1]));
            } else if i == p.len() - 1 {
                assert(r[i] == p[p.len() - 1]);
                assert(r[i + 1] == q[1]);
                assert(links(pairs, q[0], q[1]));
            } else {
                let k = i - p.len() + 1;
                assert(r[i] == q[k] && r[i + 1] == q[k + 1]);
                assert(links(pairs, q[k], q[k + 1]));
            }
        }
        assert(is_walk(pairs, r, a, c));
    }
}

/// A walk over `pairs.push(e)` either stays on `pairs`, or splits at a use of
/// the new pair `e`.
proof fn lemma_walk_push_elim(
    pairs: Seq<(usize, usize)>,
    e: (usize, usize),
    n: int,
    p: Seq<int>,
    a: int,
    b: int,
)
    requires
        pairs_wf(pairs, n),
        e.0 < n,
        e.1 < n,
        0 <= a < n,
        0 <= b < n,
        is_walk(pairs.push(e), p, a, b),
    ensures
        conn(pairs, n, a, b) || (conn(pairs, n, a, e.0 as int) && conn(pairs, n, e.1 as int, b))
            || (conn(pairs, n, a, e.1 as int) && conn(pairs, n, e.0 as int, b)),
    decreases p.len(),
{
    let u = e.0 as int;
    let v = e.1 as int;
    if p.len() == 1 {
        assert(a == b);
        lemma_conn_refl(pairs, n, a);
    } else {
        let m = p[1];
        assert(links(pairs.push(e), p[0], p[1]));
        let i = choose|i: int|
            0 <= i < pairs.push(e).len() && (((#[trigger] pairs.push(e)[i]).0 == a && pairs.push(
                e,
            )[i].1 == m) || (pairs.push(e)[i].0 == m && pairs.push(e)[i].1 == a));
        assert(0 <= m < n) by {
            if i < pairs.len() {
                assert(pairs.push(e)[i] == pairs[i]);
                assert(pairs[i].0 < n && pairs[i].1 < n);
            } else {
                assert(pairs.push(e)[i] == e);
            }
        }
        assert(is_walk(pairs.push(e), p.skip(1), m, b)) by {
            assert(p.skip(1)[0] == p[1]);
            assert(p.skip(1)[p.skip(1).len() - 1] == p[p.len() - 1]);
            assert forall|k: int|
                0 <= k < p.skip(1).len() - 1 implies links(
                pairs.push(e),
                #[trigger] p.skip(1)[k],
                p.skip(1)[k + 1],
            ) by {
                assert(p.skip(1)[k] == p[k + 1] && p.skip(1)[k + 1] == p[k + 2]);
                assert(links(pairs.push(e), p[k + 1], p[k + 2]));
            }
        }
        lemma_walk_push_elim(pairs, e, n, p.skip(1), m, b);
        // the first link either avoids the new pair or is the new pair
        if i < pairs.len() {
            assert(pairs.push(e)[i] == pairs[i]);
            assert(links(pairs, a, m));
            lemma_link_conn(pairs, n, a, m);
            if conn(pairs, n, m, b) {
                lemma_conn_trans(pairs, n, a, m, b);
            } else if conn(pairs, n, m, u) && conn(pairs, n, v, b) {
                lemma_conn_trans(pairs, n, a, m, u);
            } else {
                lemma_conn_trans(pairs, n, a, m, v);
            }
        } else {
            assert(pairs.push(e)[i] == e);
            assert((a == u && m == v) || (a == v && m == u));
            // the first link is the new pair itself, so the tail's three
            // cases land directly in the three cases of the goal, using only
            // that a node is connected to itself
            lemma_conn_refl(pairs, n, a);
        }
    }
}

/// Appending one pair joins exactly the classes of its two endpoints: the new
/// reachability relation is the join of the old one at `e`.
proof fn lemma_conn_push_join(pairs: Seq<(usize, usize)>, n: int, e: (usize, usize), a: int, b: int)
    requires
        pairs_wf(pairs, n),
        e.0 < n,
        e.1 < n,
        0 <= a < n,
        0 <= b < n,
    ensures
        conn(pairs.push(e), n, a, b) <==> (conn(pairs, n, a, b) || (conn(pairs, n, a, e.0 as int)
            && conn(pairs, n, e.1 as int, b)) || (conn(pairs, n, a, e.1 as int) && conn(
            pairs,
            n,
            e.0 as int,
            b,
        ))),
{
    let u = e.0 as int;
    let v = e.1 as int;
    let bigger = pairs.push(e);
    if conn(bigger, n, a, b) {
        let p = choose|p: Seq<int>| is_walk(bigger, p, a, b);
        lemma_walk_push_elim(pairs, e, n, p, a, b);
    }
    // every walk over the smaller list still works over the bigger one
    assert forall|x: int, y: int|
        0 <= x < n && 0 <= y < n && #[trigger] conn(pairs, n, x, y) implies conn(
        bigger,
        n,
        x,
        y,
    ) by {
        let p = choose|p: Seq<int>| is_walk(pairs, p, x, y);
        assert forall|k: int| 0 <= k < p.len() - 1 implies links(bigger, #[trigger] p[k], p[k + 1]) by {
            let i = choose|i: int|
                0 <= i < pairs.len() && (((#[trigger] pairs[i]).0 == p[k] && pairs[i].1 == p[k + 1])
                    || (pairs[i].0 == p[k + 1] && pairs[i].1 == p[k]));
            assert(bigger[i] == pairs[i]);
        }
        assert(is_walk(bigger, p, x, y));
    }
    if conn(pairs, n, a, u) && conn(pairs, n, v, b) {
        assert(links(bigger, u, v)) by {
            assert(bigger[pairs.len() as int] == e);
        }
        lemma_link_conn(bigger, n, u, v);
        lemma_conn_trans(bigger, n, a, u, v);
        lemma_conn_trans(bigger, n, a, v, b);
    }
    if conn(pairs, n, a, v) && conn(pairs, n, u, b) {
        assert(links(bigger, v, u)) by {
            assert(bigger[pairs.len() as int] == e);
        }
        lemma_link_conn(bigger, n, v, u);
        lemma_conn_trans(bigger, n, a, v, u);
        lemma_conn_trans(bigger, n, a, u, b);
    }
}

/// The pairs already handed to the union pass when row `u` has been consumed
/// up to its `j`-th entry.
pub open spec fn partial_pairs(g: &Graph, u: int, j: int) -> Seq<(usize, usize)> {
    pairs_upto(g, u) + row_pairs(g, u).take(j)
}

proof fn lemma_partial_wf(g: &Graph, u: int, j: int)
    requires
        g.wf(),
        0 <= u < g.num_nodes,
        0 <= j <= g.edges@[u]@.len(),
    ensures
        pairs_wf(partial_pairs(g, u, j), g.num_nodes as int),
{
    lemma_pairs_upto_wf(g, u);
    let prev = pairs_upto(g, u);
    let row = row_pairs(g, u).take(j);
    assert forall|i: int|
        0 <= i < partial_pairs(g, u, j).len() implies ((#[trigger] partial_pairs(g, u, j)[i]).0
        < g.num_nodes && partial_pairs(g, u, j)[i].1 < g.num_nodes) by {
        if i < prev.len() {
            assert(partial_pairs(g, u, j)[i] == prev[i]);
        } else {
            assert(partial_pairs(g, u, j)[i] == row[i - prev.len()]);
        }
    }
}

proof fn lemma_partial_push(g: &Graph, u: int, j: int)
    requires
        g.wf(),
        0 <= u < g.num_nodes,
        0 <= j < g.edges@[u]@.len(),
    ensures
        partial_pairs(g, u, j + 1) == partial_pairs(g, u, j).push(
            (u as usize, g.edges@[u]@[j]),
        ),
{
    assert(row_pairs(g, u)[j] == (u as usize, g.edges@[u]@[j]));
    assert(partial_pairs(g, u, j + 1) =~= partial_pairs(g, u, j).push((u as usize, g.edges@[u]@[j])));
}

proof fn lemma_partial_begin_end(g: &Graph, u: int)
    requires
        g.wf(),
        0 <= u < g.num_nodes,
    ensures
        partial_pairs(g, u, 0) == pairs_upto(g, u),
        partial_pairs(g, u, g.edges@[u]@.len() as int) == pairs_upto(g, u + 1),
{
    assert(partial_pairs(g, u, 0) =~= pairs_upto(g, u));
    assert(row_pairs(g, u).take(g.edges@[u]@.len() as int) =~= row_pairs(g, u));
    assert(partial_pairs(g, u, g.edges@[u]@.len() as int) =~= pairs_upto(g, u) + row_pairs(g, u));
}

/// Weakly-connected components by a sequential pass: every directed edge is
/// handed to a union-find, and every node is then labeled with the
/// representative of its class. Two nodes receive equal labels exactly when
/// they are weakly connected, and each label is itself a member of the
/// component it names.
pub fn wcc_sequential(graph: &Graph) -> (r: Vec<usize>)
    requires
        graph.wf(),
    ensures
        r@.len() == graph.num_nodes,
        forall|i: int| 0 <= i < r@.len() ==> (#[trigger] r@[i]) < graph.num_nodes,
        forall|x: int, y: int|
            0 <= x < graph.num_nodes && 0 <= y < graph.num_nodes ==> ((r@[x] == r@[y])
                <==> graph.connected(x, y)),
        forall|i: int| 0 <= i < r@.len() ==> graph.connected(i, (#[trigger] r@[i]) as int),
{
    let n = graph.num_nodes;
    let mut uf = UnionFind::new(n);
    proof {
        assert forall|a: int, b: int|
            0 <= a < n && 0 <= b < n implies (uf.same_set(a, b) <==> conn(
            pairs_upto(graph, 0),
            n as int,
            a,
            b,
        )) by {
            assert(pairs_upto(graph, 0) =~= Seq::<(usize, usize)>::empty());
            lemma_conn_empty(n as int, a, b);
        }
    }
    let mut u: usize = 0;
    while u < n
        invariant
            graph.wf(),
            n == graph.num_nodes,
            u <= n,
            uf.wf(),
            uf.n() == n,
            forall|a: int, b: int|
                0 <= a < n && 0 <= b < n ==> (#[trigger] uf.same_set(a, b) <==> conn(
                    pairs_upto(graph, u as int),
                    n as int,
                    a,
                    b,
                )),
        decreases n - u,
    {
        let deg = graph.edges[u].len();
        proof {
            lemma_partial_begin_end(graph, u as int);
        }
        let mut j: usize = 0;
        while j < deg
            invariant
                graph.wf(),
                n == graph.num_nodes,
                u < n,
                deg == graph.edges@[u as int]@.len(),
                j <= deg,
                uf.wf(),
                uf.n() == n,
                forall|a: int, b: int|
                    0 <= a < n && 0 <= b < n ==> (#[trigger] uf.same_set(a, b) <==> conn(
                        partial_pairs(graph, u as int, j as int),
                        n as int,
                        a,
                        b,
                    )),
            decreases deg - j,
        {
            let v = graph.edges[u][j];
            assert(v < n);
            let ghost uf0 = uf;
            let ghost prev = partial_pairs(graph, u as int, j as int);
            uf.union(u, v);
            proof {
                lemma_partial_wf(graph, u as int, j as int);
                lemma_partial_push(graph, u as int, j as int);
                assert forall|a: int, b: int|
                    0 <= a < n && 0 <= b < n implies (#[trigger] uf.same_set(a, b) <==> conn(
                    partial_pairs(graph, u as int, j as int + 1),
                    n as int,
                    a,
                    b,
                )) by {
                    lemma_conn_push_join(prev, n as int, (u, v), a, b);
                    assert(uf0.same_set(a, b) <==> conn(prev, n as int, a, b));
                    assert(uf0.same_set(a, u as int) <==> conn(prev, n as int, a, u as int));
                    assert(uf0.same_set(v as int, b) <==> conn(prev, n as int, v as int, b));
                    assert(uf0.same_set(a, v as int) <==> conn(prev, n as int, a, v as int));
                    assert(uf0.same_set(u as int, b) <==> conn(prev, n as int, u as int, b));
                }
            }
            j = j + 1;
        }
        proof {
            lemma_partial_begin_end(graph, u as int);
        }
        u = u + 1;
    }
    let ghost repf = uf.rep@;
    proof {
        assert forall|a: int, b: int|
            0 <= a < n && 0 <= b < n implies ((repf[a] == repf[b]) <==> conn(
            pairs_upto(graph, n as int),
            n as int,
            a,
            b,
        )) by {
            assert(uf.same_set(a, b) <==> conn(pairs_upto(graph, u as int), n as int, a, b));
        }
    }
    let mut result: Vec<usize> = Vec::new();
    let mut i: usize = 0;
    while i < n
        invariant
            graph.wf(),
            n == graph.num_nodes,
            i <= n,
            uf.wf(),
            uf.n() == n,
            uf.rep@ == repf,
            forall|a: int, b: int|
                0 <= a < n && 0 <= b < n ==> ((#[trigger] repf[a] == #[trigger] repf[b]) <==> conn(
                    pairs_upto(graph, n as int),
                    n as int,
                    a,
                    b,
                )),
            result@.len() == i,
            forall|k: int| 0 <= k < i ==> (#[trigger] result@[k]) as int == repf[k],
        decreases n - i,
    {
        let root = uf.find(i);
        result.push(root);
        i = i + 1;
    }
    proof {
        assert(pairs_upto(graph, n as int) == edge_pairs(graph));
        assert forall|x: int, y: int|
            0 <= x < n && 0 <= y < n implies ((result@[x] == result@[y]) <==> graph.connected(
            x,
            y,
        )) by {
            assert(result@[x] as int == repf[x] && result@[y] as int == repf[y]);
            assert((repf[x] == repf[y]) <==> conn(pairs_upto(graph, n as int), n as int, x, y));
        }
        assert forall|i2: int| 0 <= i2 < n implies graph.connected(
            i2,
            (#[trigger] result@[i2]) as int,
        ) by {
            assert(result@[i2] as int == repf[i2]);
            assert(uf.rep@[repf[i2]] == uf.rep@[i2]);
            assert(repf[repf[i2]] == repf[i2]);
            assert((repf[i2] == repf[repf[i2]]) <==> conn(
                pairs_upto(graph, n as int),
                n as int,
                i2,
                repf[i2],
            ));
        }
    }
    result
}

/// Weakly-connected components with the concurrent merge policy: the
/// adjacency rows are gathered by a pool of worker threads, every edge is
/// handed to a union-find that links larger root ids under smaller ones, and
/// every node is labeled with the representative of its class. The labels may
/// differ from the sequential ones, but the partition they induce is the
/// same: equal labels exactly for weakly-connected nodes. Because every merge
/// keeps the smaller root, each label is the smallest node id of its
/// component.
pub fn wcc_parallel(graph: &Graph, num_threads: usize) -> (r: Vec<usize>)
    requires
        graph.wf(),
    ensures
        r@.len() == graph.num_nodes,
        forall|i: int| 0 <= i < r@.len() ==> (#[trigger] r@[i]) < graph.num_nodes,
        forall|x: int, y: int|
            0 <= x < graph.num_nodes && 0 <= y < graph.num_nodes ==> ((r@[x] == r@[y])
                <==> graph.connected(x, y)),
        forall|i: int| 0 <= i < r@.len() ==> graph.connected(i, (#[trigger] r@[i]) as int),
        forall|x: int, y: int|
            0 <= x < graph.num_nodes && 0 <= y < graph.num_nodes && #[trigger] graph.connected(
                x,
                y,
            ) ==> r@[x] as int <= y,
{
    let n = graph.num_nodes;
    let mut all: Vec<usize> = Vec::new();
    let mut t: usize = 0;
    while t < n
        invariant
            t <= n,
            all@.len() == t,
            forall|k: int| 0 <= k < t ==> (#[trigger] all@[k]) as int == k,
        decreases n - t,
    {
        all.push(t);
        t = t + 1;
    }
    let rows = crate::parallel::par_gather_rows(graph, &all, num_threads);
    let mut uf = MinIdUnionFind::new(n);
    proof {
        assert forall|a: int, b: int|
            0 <= a < n && 0 <= b < n implies (uf.same_set(a, b) <==> conn(
            pairs_upto(graph, 0),
            n as int,
            a,
            b,
        )) by {
            assert(pairs_upto(graph, 0) =~= Seq::<(usize, usize)>::empty());
            lemma_conn_empty(n as int, a, b);
        }
    }
    let mut u: usize = 0;
    while u < n
        invariant
            graph.wf(),
            n == graph.num_nodes,
            u <= n,
            rows@.len() == n,
            forall|k: int| 0 <= k < n ==> (#[trigger] rows@[k])@ == graph.edges@[k]@,
            uf.wf(),
            uf.n() == n,
            forall|a: int, b: int|
                0 <= a < n && 0 <= b < n ==> (#[trigger] uf.same_set(a, b) <==> conn(
                    pairs_upto(graph, u as int),
                    n as int,
                    a,
                    b,
                )),
        decreases n - u,
    {
        let deg = rows[u].len();
        proof {
            lemma_partial_begin_end(graph, u as int);
        }
        let mut j: usize = 0;
        while j < deg
            invariant
                graph.wf(),
                n == graph.num_nodes,
                u < n,
                rows@.len() == n,
                forall|k: int| 0 <= k < n ==> (#[trigger] rows@[k])@ == graph.edges@[k]@,
                deg == graph.edges@[u as int]@.len(),
                j <= deg,
                uf.wf(),
                uf.n() == n,
                forall|a: int, b: int|
                    0 <= a < n && 0 <= b < n ==> (#[trigger] uf.same_set(a, b) <==> conn(
                        partial_pairs(graph, u as int, j as int),
                        n as int,
                        a,
                        b,
                    )),
            decreases deg - j,
        {
            let v = rows[u][j];
            assert(v == graph.edges@[u as int]@[j as int]);
            assert(v < n);
            let ghost uf0 = uf;
            let ghost prev = partial_pairs(graph, u as int, j as int);
            uf.union(u, v);
            proof {
                lemma_partial_wf(graph, u as int, j as int);
                lemma_partial_push(graph, u as int, j as int);
                assert forall|a: int, b: int|
                    0 <= a < n && 0 <= b < n implies (#[trigger] uf.same_set(a, b) <==> conn(
                    partial_pairs(graph, u as int, j as int + 1),
                    n as int,
                    a,
                    b,
                )) by {
                    lemma_conn_push_join(prev, n as int, (u, v), a, b);
                    assert(uf0.same_set(a, b) <==> conn(prev, n as int, a, b));
                    assert(uf0.same_set(a, u as int) <==> conn(prev, n as int, a, u as int));
                    assert(uf0.same_set(v as int, b) <==> conn(prev, n as int, v as int, b));
                    assert(uf0.same_set(a, v as int) <==> conn(prev, n as int, a, v as int));
                    assert(uf0.same_set(u as int, b) <==> conn(prev, n as int, u as int, b));
                }
            }
            j = j + 1;
        }
        proof {
            lemma_partial_begin_end(graph, u as int);
        }
        u = u + 1;
    }
    let ghost repf = uf.rep@;
    proof {
        assert forall|a: int, b: int|
            0 <= a < n && 0 <= b < n implies ((repf[a] == repf[b]) <==> conn(
            pairs_upto(graph, n as int),
            n as int,
            a,
            b,
        )) by {
            assert(uf.same_set(a, b) <==> conn(pairs_upto(graph, u as int), n as int, a, b));
        }
    }
    let mut result: Vec<usize> = Vec::new();
    let mut i: usize = 0;
    while i < n
        invariant
            graph.wf(),
            n == graph.num_nodes,
            i <= n,
            uf.wf(),
            uf.n() == n,
            uf.rep@ == repf,
            forall|a: int, b: int|
                0 <= a < n && 0 <= b < n ==> ((#[trigger] repf[a] == #[trigger] repf[b]) <==> conn(
                    pairs_upto(graph, n as int),
                    n as int,
                    a,
                    b,
                )),
            result@.len() == i,
            forall|k: int| 0 <= k < i ==> (#[trigger] result@[k]) as int == repf[k],
        decreases n - i,
    {
        let root = uf.find(i);
        result.push(root);
        i = i + 1;
    }
    proof {
        assert(pairs_upto(graph, n as int) == edge_pairs(graph));
        assert forall|x: int, y: int|
            0 <= x < n && 0 <= y < n implies ((result@[x] == result@[y]) <==> graph.connected(
            x,
            y,
        )) by {
            assert(result@[x] as int == repf[x] && result@[y] as int == repf[y]);
            assert((repf[x] == repf[y]) <==> conn(pairs_upto(graph, n as int), n as int, x, y));
        }
        assert forall|i2: int| 0 <= i2 < n implies graph.connected(
            i2,
            (#[trigger] result@[i2]) as int,
        ) by {
            assert(result@[i2] as int == repf[i2]);
            assert(uf.rep@[repf[i2]] == uf.rep@[i2]);
            assert(repf[repf[i2]] == repf[i2]);
            assert((repf[i2] == repf[repf[i2]]) <==> conn(
                pairs_upto(graph, n as int),
                n as int,
                i2,
                repf[i2],
            ));
        }
        // the label is not just a member of its component but its minimum
        assert forall|x: int, y: int|
            0 <= x < n && 0 <= y < n && #[trigger] graph.connected(x, y) implies result@[x] as int
            <= y by {
            assert((repf[x] == repf[y]) <==> conn(pairs_upto(graph, n as int), n as int, x, y));
            assert(uf.rep@[y] <= y);
            assert(result@[x] as int == repf[x]);
        }
    }
    result
}

/// Sequential and parallel component labelings agree as partitions: both give
/// equal labels exactly to weakly-connected nodes, so although the label
/// values themselves may differ, the two labelings group the nodes the same
/// way.
pub proof fn lemma_wcc_modes_agree(g: &Graph, c_seq: Seq<usize>, c_par: Seq<usize>)
    requires
        c_seq.len() == g.num_nodes,
        c_par.len() == g.num_nodes,
        forall|x: int, y: int|
            0 <= x < g.num_nodes && 0 <= y < g.num_nodes ==> ((c_seq[x] == c_seq[y])
                <==> g.connected(x, y)),
        forall|x: int, y: int|
            0 <= x < g.num_nodes && 0 <= y < g.num_nodes ==> ((c_par[x] == c_par[y])
                <==> g.connected(x, y)),
    ensures
        forall|x: int, y: int|
            0 <= x < g.num_nodes && 0 <= y < g.num_nodes ==> ((c_seq[x] == c_seq[y]) <==> (c_par[x]
                == c_par[y])),
{
    assert forall|x: int, y: int|
        0 <= x < g.num_nodes && 0 <= y < g.num_nodes implies ((c_seq[x] == c_seq[y]) <==> (c_par[x]
        == c_par[y])) by {
        assert((c_seq[x] == c_seq[y]) <==> g.connected(x, y));
        assert((c_par[x] == c_par[y]) <==> g.connected(x, y));
    }
}

/// On a graph without edges every node is its own singleton component: any
/// component labeling then gives `num_nodes` pairwise distinct labels.
pub proof fn lemma_wcc_no_edges(g: &Graph)
    requires
        g.wf(),
        forall|u: int| 0 <= u < g.edges@.len() ==> (#[trigger] g.edges@[u]@).len() == 0,
    ensures
        forall|x: int, y: int|
            0 <= x < g.num_nodes && 0 <= y < g.num_nodes ==> (g.connected(x, y) <==> x == y),
{
    lemma_pairs_upto_empty(g, g.num_nodes as int);
    assert forall|x: int, y: int|
        0 <= x < g.num_nodes && 0 <= y < g.num_nodes implies (g.connected(x, y) <==> x == y) by {
        lemma_conn_empty(g.num_nodes as int, x, y);
    }
}

proof fn lemma_pairs_upto_empty(g: &Graph, u: int)
    requires
        g.wf(),
        0 <= u <= g.num_nodes,
        forall|w: int| 0 <= w < g.edges@.len() ==> (#[trigger] g.edges@[w]@).len() == 0,
    ensures
        pairs_upto(g, u) == Seq::<(usize, usize)>::empty(),
    decreases u,
{
    if u > 0 {
        lemma_pairs_upto_empty(g, u - 1);
        assert(row_pairs(g, u - 1) =~= Seq::<(usize, usize)>::empty());
        assert(pairs_upto(g, u) =~= Seq::<(usize, usize)>::empty());
    }
}

} // verus!
