use vstd::prelude::*;

verus! {

/// A directed graph in adjacency-list form. Node ids are the integers
/// `0 .. num_nodes - 1`; `edges[u]` lists the successors of `u`, in order,
/// with duplicates and self-loops allowed.
pub struct Graph {
    pub num_nodes: usize,
    pub edges: Vec<Vec<usize>>,
}

impl Graph {
    /// Every node has an adjacency row and every edge target is a valid node id.
    pub open spec fn wf(&self) -> bool {
        &&& self.edges@.len() == self.num_nodes
        &&& forall|u: int, j: int|
            0 <= u < self.edges@.len() && 0 <= j < self.edges@[u]@.len()
                ==> self.edges@[u]@[j] < self.num_nodes
    }

    /// There is a directed edge from `u` to `v`.
    pub open spec fn has_edge(&self, u: int, v: int) -> bool {
        &&& 0 <= u < self.edges@.len()
        &&& exists|j: int| 0 <= j < self.edges@[u]@.len() && self.edges@[u]@[j] == v
    }

    /// `x` and `y` lie in one weakly-connected component: they are joined by a
    /// walk that may follow each directed edge in either direction.
    pub open spec fn connected(&self, x: int, y: int) -> bool {
        conn(edge_pairs(self), self.num_nodes as int, x, y)
    }
}

/// The directed edges leaving `u`, as `(source, target)` pairs in row order.
pub open spec fn row_pairs(g: &Graph, u: int) -> Seq<(usize, usize)> {
    Seq::new(g.edges@[u]@.len(), |j: int| (u as usize, g.edges@[u]@[j]))
}

/// The edges of the rows `0 .. u`, concatenated in row order.
pub open spec fn pairs_upto(g: &Graph, u: int) -> Seq<(usize, usize)>
    decreases u,
{
    if u <= 0 {
        Seq::empty()
    } else {
        pairs_upto(g, u - 1) + row_pairs(g, u - 1)
    }
}

/// Every directed edge of the graph, as `(source, target)` pairs.
pub open spec fn edge_pairs(g: &Graph) -> Seq<(usize, usize)> {
    pairs_upto(g, g.edges@.len() as int)
}

/// Some pair of `pairs` joins `a` and `b`, in either orientation.
pub open spec fn links(pairs: Seq<(usize, usize)>, a: int, b: int) -> bool {
    exists|i: int|
        0 <= i < pairs.len() && ((pairs[i].0 == a && pairs[i].1 == b) || (pairs[i].0 == b
            && pairs[i].1 == a))
}

/// `p` is a walk from `x` to `y` whose consecutive nodes are linked by `pairs`.
pub open spec fn is_walk(pairs: Seq<(usize, usize)>, p: Seq<int>, x: int, y: int) -> bool {
    &&& p.len() >= 1
    &&& p[0] == x
    &&& p[p.len() - 1] == y
    &&& forall|i: int| 0 <= i < p.len() - 1 ==> links(pairs, #[trigger] p[i], p[i + 1])
}

/// `x` and `y` are joined by some walk over `pairs` (ignoring edge direction),
/// both being node ids below `n`.
pub open spec fn conn(pairs: Seq<(usize, usize)>, n: int, x: int, y: int) -> bool {
    &&& 0 <= x < n
    &&& 0 <= y < n
    &&& exists|p: Seq<int>| is_walk(pairs, p, x, y)
}

} // verus!
