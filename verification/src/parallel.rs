use vstd::prelude::*;

use crate::graph::Graph;
use rayon::iter::IntoParallelRefIterator;
use rayon::iter::ParallelIterator;

verus! {

/// Relies on rayon's indexed parallel iterators: `par_iter().map(..).collect()`
/// applies the closure to every entry of `frontier` across the pool's worker
/// threads and collects the images in the entries' order, so entry `k` of the
/// result is a copy of the adjacency row of node `frontier[k]`. Should no
/// thread pool be available, the rows are gathered serially, with the same
/// result. The closure only indexes the graph and clones the row.
#[verifier::external_body]
pub(crate) fn par_gather_rows(graph: &Graph, frontier: &Vec<usize>, num_threads: usize) -> (r: Vec<
    Vec<usize>,
>)
    requires
        forall|k: int| 0 <= k < frontier@.len() ==> (#[trigger] frontier@[k]) < graph.edges@.len(),
    ensures
        r@.len() == frontier@.len(),
        forall|k: int|
            0 <= k < r@.len() ==> (#[trigger] r@[k])@ == graph.edges@[frontier@[k] as int]@,
{
    let gather = || frontier.par_iter().map(|u| graph.edges[*u].clone()).collect();
    match rayon::ThreadPoolBuilder::new().num_threads(num_threads).build() {
        Ok(pool) => pool.install(gather),
        Err(_) => frontier.iter().map(|u| graph.edges[*u].clone()).collect(),
    }
}

} // verus!
