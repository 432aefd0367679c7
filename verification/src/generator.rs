use vstd::prelude::*;

use rand::Rng;

verus! {

/// Declares rand's thread-local generator handle, so that it can be carried
/// between the draws of one generation pass.
#[verifier::external_type_specification]
#[verifier::external_body]
pub struct ExThreadRng(rand::rngs::ThreadRng);

/// Relies on rand::rng: a handle to the calling thread's generator.
#[verifier::external_body]
fn fresh_rng() -> rand::rngs::ThreadRng {
    rand::rng()
}

/// Relies on Rng::random_range: a draw uniform over `0 .. limit`, which in
/// particular lies below `limit`; the call panics only on an empty range,
/// which the precondition rules out.
#[verifier::external_body]
fn random_below(rng: &mut rand::rngs::ThreadRng, limit: usize) -> (r: usize)
    requires
        limit > 0,
    ensures
        r < limit,
{
    rng.random_range(0..limit)
}

/// Edges of a uniformly random graph: `num_edges` pairs whose endpoints are
/// drawn independently below `num_nodes`.
pub fn generate_random(num_nodes: usize, num_edges: usize) -> (r: Vec<(usize, usize)>)
    requires
        num_nodes > 0,
    ensures
        r@.len() == num_edges,
        forall|k: int|
            0 <= k < r@.len() ==> (#[trigger] r@[k]).0 < num_nodes && r@[k].1 < num_nodes,
{
    let mut rng = fresh_rng();
    let mut out: Vec<(usize, usize)> = Vec::new();
    let mut k: usize = 0;
    while k < num_edges
        invariant
            k <= num_edges,
            out@.len() == k,
            forall|j: int|
                0 <= j < out@.len() ==> (#[trigger] out@[j]).0 < num_nodes && out@[j].1
                    < num_nodes,
        decreases num_edges - k,
    {
        let src = random_below(&mut rng, num_nodes);
        let dst = random_below(&mut rng, num_nodes);
        out.push((src, dst));
        k = k + 1;
    }
    out
}

/// Edges of a path graph: node `i` points at node `i + 1`.
pub fn generate_line(num_nodes: usize) -> (r: Vec<(usize, usize)>)
    requires
        num_nodes >= 1,
    ensures
        r@.len() == num_nodes - 1,
        forall|k: int|
            0 <= k < r@.len() ==> (#[trigger] r@[k]).0 as int == k && r@[k].1 as int == k + 1,
{
    let mut out: Vec<(usize, usize)> = Vec::new();
    let mut i: usize = 0;
    while i < num_nodes - 1
        invariant
            num_nodes >= 1,
            i <= num_nodes - 1,
            out@.len() == i,
            forall|k: int|
                0 <= k < out@.len() ==> (#[trigger] out@[k]).0 as int == k && out@[k].1 as int == k
                    + 1,
        decreases num_nodes - 1 - i,
    {
        out.push((i, i + 1));
        i = i + 1;
    }
    out
}

/// Edges of a star graph: node `0` points at every other node.
pub fn generate_star(num_nodes: usize) -> (r: Vec<(usize, usize)>)
    ensures
        r@.len() == (if num_nodes == 0 {
            0int
        } else {
            num_nodes - 1
        }),
        forall|k: int|
            0 <= k < r@.len() ==> (#[trigger] r@[k]).0 == 0 && r@[k].1 as int == k + 1,
{
    let mut out: Vec<(usize, usize)> = Vec::new();
    let mut i: usize = 1;
    while i < num_nodes
        invariant
            1 <= i,
            num_nodes >= 1 ==> i <= num_nodes,
            num_nodes == 0 ==> i == 1,
            out@.len() == i - 1,
            forall|k: int|
                0 <= k < out@.len() ==> (#[trigger] out@[k]).0 == 0 && out@[k].1 as int == k + 1,
        decreases num_nodes - i,
    {
        out.push((0, i));
        i = i + 1;
    }
    out
}

/// Edges of a cycle: the path edges plus one edge closing the ring.
pub fn generate_cycle(num_nodes: usize) -> (r: Vec<(usize, usize)>)
    requires
        num_nodes >= 1,
    ensures
        r@.len() == num_nodes,
        forall|k: int|
            0 <= k < num_nodes - 1 ==> (#[trigger] r@[k]).0 as int == k && r@[k].1 as int == k + 1,
        r@[num_nodes - 1].0 == num_nodes - 1 && r@[num_nodes - 1].1 == 0,
{
    let mut out = generate_line(num_nodes);
    out.push((num_nodes - 1, 0));
    out
}

/// Edges of a complete graph: every ordered pair of distinct nodes, listed
/// source by source. Entry `k` pairs node `k / (num_nodes - 1)` with the
/// `k % (num_nodes - 1)`-th of its co-nodes in increasing order.
pub fn generate_complete(num_nodes: usize) -> (r: Vec<(usize, usize)>)
    ensures
        num_nodes <= 1 ==> r@.len() == 0,
        num_nodes >= 2 ==> r@.len() == num_nodes * (num_nodes - 1),
        forall|k: int|
            0 <= k < r@.len() ==> (#[trigger] r@[k]).0 as int == k / (num_nodes - 1) && r@[k].1
                as int == (if k % (num_nodes - 1) < k / (num_nodes - 1) {
                k % (num_nodes - 1)
            } else {
                k % (num_nodes - 1) + 1
            }),
{
    let mut out: Vec<(usize, usize)> = Vec::new();
    if num_nodes <= 1 {
        return out;
    }
    let m = num_nodes - 1;
    let mut i: usize = 0;
    while i < num_nodes
        invariant
            2 <= num_nodes,
            m == num_nodes - 1,
            i <= num_nodes,
            out@.len() == i * m,
            forall|k: int|
                0 <= k < out@.len() ==> (#[trigger] out@[k]).0 as int == k / (m as int) && out@[k].1
                    as int == (if k % (m as int) < k / (m as int) {
                    k % (m as int)
                } else {
                    k % (m as int) + 1
                }),
        decreases num_nodes - i,
    {
        proof {
            assert(i * m + m <= num_nodes * m) by (nonlinear_arith)
                requires
                    i + 1 <= num_nodes,
                    m >= 0,
            ;
        }
        let mut j: usize = 0;
        let mut cnt: usize = 0;
        while j < num_nodes
            invariant
                2 <= num_nodes,
                m == num_nodes - 1,
                i < num_nodes,
                j <= num_nodes,
                cnt == (if j <= i {
                    j as int
                } else {
                    j - 1
                }),
                out@.len() == i * m + cnt,
                i * m + m <= num_nodes * m,
                forall|k: int|
                    0 <= k < out@.len() ==> (#[trigger] out@[k]).0 as int == k / (m as int)
                        && out@[k].1 as int == (if k % (m as int) < k / (m as int) {
                        k % (m as int)
                    } else {
                        k % (m as int) + 1
                    }),
            decreases num_nodes - j,
        {
            if j != i {
                let ghost k = out@.len() as int;
                out.push((i, j));
                proof {
                    assert(k == i * (m as int) + cnt);
                    assert(0 <= cnt < m);
                    vstd::arithmetic::div_mod::lemma_fundamental_div_mod_converse(
                        k,
                        m as int,
                        i as int,
                        cnt as int,
                    );
                    assert(k / (m as int) == i && k % (m as int) == cnt);
                }
                cnt = cnt + 1;
            }
            j = j + 1;
        }
        proof {
            assert(cnt == m);
            assert(i * m + m == (i + 1) * m) by (nonlinear_arith);
            assert((i + 1) * m <= num_nodes * m) by (nonlinear_arith)
                requires
                    i + 1 <= num_nodes,
                    m >= 0,
            ;
        }
        i = i + 1;
    }
    out
}

/// Which slice of the node range a component occupies: components take
/// `num_nodes / num_components` nodes each, the last one also the rest.
pub open spec fn comp_start(c: int, nodes_per: int) -> int {
    c * nodes_per
}

pub open spec fn comp_end(c: int, num_components: int, nodes_per: int, num_nodes: int) -> int {
    if c == num_components - 1 {
        num_nodes
    } else {
        (c + 1) * nodes_per
    }
}

/// Both endpoints of the pair lie inside one component's slice.
pub open spec fn in_some_component(
    p: (usize, usize),
    num_components: int,
    nodes_per: int,
    num_nodes: int,
) -> bool {
    exists|c: int|
        0 <= c < num_components && #[trigger] comp_start(c, nodes_per) <= p.0 < comp_end(
            c,
            num_components,
            nodes_per,
            num_nodes,
        ) && comp_start(c, nodes_per) <= p.1 < comp_end(c, num_components, nodes_per, num_nodes)
}

/// Edges of a deliberately disconnected graph: the node range is cut into
/// `num_components` contiguous slices and every edge is drawn inside one
/// slice, so no edge ever crosses two slices. Rejects a component count of
/// zero or one exceeding the node count.
#[verifier::rlimit(60)]
pub fn generate_disconnected(num_nodes: usize, num_edges: usize, num_components: usize) -> (r:
    Option<Vec<(usize, usize)>>)
    ensures
        r.is_some() <==> (1 <= num_components <= num_nodes),
        r.is_some() ==> ({
            let pairs = r.unwrap()@;
            &&& pairs.len() == num_edges
            &&& forall|k: int|
                0 <= k < pairs.len() ==> in_some_component(
                    #[trigger] pairs[k],
                    num_components as int,
                    num_nodes as int / num_components as int,
                    num_nodes as int,
                )
        }),
{
    if num_components == 0 || num_components > num_nodes {
        return None;
    }
    let nodes_per = num_nodes / num_components;
    let edges_per = num_edges / num_components;
    proof {
        assert(nodes_per >= 1) by (nonlinear_arith)
            requires
                nodes_per == num_nodes as int / num_components as int,
                1 <= num_components <= num_nodes,
        ;
    }
    let mut rng = fresh_rng();
    let mut out: Vec<(usize, usize)> = Vec::new();
    let mut comp: usize = 0;
    while comp < num_components
        invariant
            1 <= num_components <= num_nodes,
            nodes_per == num_nodes as int / num_components as int,
            edges_per == num_edges as int / num_components as int,
            nodes_per >= 1,
            comp <= num_components,
            out@.len() == (if comp < num_components {
                comp * edges_per
            } else {
                num_edges as int
            }),
            forall|k: int|
                0 <= k < out@.len() ==> in_some_component(
                    #[trigger] out@[k],
                    num_components as int,
                    nodes_per as int,
                    num_nodes as int,
                ),
        decreases num_components - comp,
    {
        proof {
            assert(comp * nodes_per + nodes_per == (comp + 1) * nodes_per) by (nonlinear_arith);
            assert((comp + 1) * nodes_per <= num_nodes) by (nonlinear_arith)
                requires
                    comp + 1 <= num_components,
                    nodes_per == num_nodes as int / num_components as int,
                    num_components >= 1,
            ;
            assert(comp * edges_per + edges_per == (comp + 1) * edges_per) by (nonlinear_arith);
            assert((comp + 1) * edges_per <= num_edges) by (nonlinear_arith)
                requires
                    comp + 1 <= num_components,
                    edges_per == num_edges as int / num_components as int,
                    num_components >= 1,
            ;
            assert(edges_per * (num_components - 1) + edges_per == edges_per * num_components)
                by (nonlinear_arith);
            assert(edges_per * num_components <= num_edges) by (nonlinear_arith)
                requires
                    edges_per == num_edges as int / num_components as int,
                    num_components >= 1,
            ;
        }
        let start = comp * nodes_per;
        let end = if comp == num_components - 1 {
            num_nodes
        } else {
            start + nodes_per
        };
        let edges_for_this = if comp == num_components - 1 {
            num_edges - edges_per * (num_components - 1)
        } else {
            edges_per
        };
        proof {
            assert(comp < num_components - 1 ==> comp_end(
                comp as int,
                num_components as int,
                nodes_per as int,
                num_nodes as int,
            ) == start + nodes_per);
            if comp == num_components - 1 {
                assert(comp * edges_per == edges_per * (num_components - 1)) by (nonlinear_arith)
                    requires
                        comp == num_components - 1,
                        num_components >= 1,
                ;
                assert(edges_per * (num_components - 1) <= num_edges);
                assert(comp * edges_per + edges_for_this == num_edges);
            } else {
                assert(comp * edges_per + edges_for_this <= num_edges);
            }
        }
        let mut t: usize = 0;
        while t < edges_for_this
            invariant
                1 <= num_components <= num_nodes,
                nodes_per == num_nodes as int / num_components as int,
                edges_per == num_edges as int / num_components as int,
                nodes_per >= 1,
                comp < num_components,
                start == comp * nodes_per,
                end == comp_end(comp as int, num_components as int, nodes_per as int, num_nodes as int),
                start < end,
                end <= num_nodes,
                t <= edges_for_this,
                comp * edges_per + edges_for_this <= num_edges,
                comp == num_components - 1 ==> comp * edges_per + edges_for_this == num_edges,
                out@.len() == comp * edges_per + t,
                forall|k: int|
                    0 <= k < out@.len() ==> in_some_component(
                        #[trigger] out@[k],
                        num_components as int,
                        nodes_per as int,
                        num_nodes as int,
                    ),
            decreases edges_for_this - t,
        {
            let width = end - start;
            let src = start + random_below(&mut rng, width);
            let dst = start + random_below(&mut rng, width);
            out.push((src, dst));
            proof {
                let k = out@.len() - 1;
                assert(out@[k] == (src, dst));
                assert(comp_start(comp as int, nodes_per as int) <= src < comp_end(
                    comp as int,
                    num_components as int,
                    nodes_per as int,
                    num_nodes as int,
                ));
                assert(in_some_component(
                    (src, dst),
                    num_components as int,
                    nodes_per as int,
                    num_nodes as int,
                ));
            }
            t = t + 1;
        }
        comp = comp + 1;
    }
    Some(out)
}

} // verus!
