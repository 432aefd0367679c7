//! Graph analytics over adjacency-list graphs: breadth-first distance
//! labeling, weakly-connected components, and the supporting pieces — an
//! edge-list parser, disjoint-set forests, synthetic-graph generators,
//! top-k selection and result statistics. Each algorithm comes in a
//! sequential form and a form that gathers its reads on a rayon worker
//! pool; the contracts pin both to one mathematical result, so the two
//! modes provably agree.
#![verifier::loop_isolation(false)]

pub mod bfs;
pub mod generator;
pub mod graph;
pub mod parse;
pub mod stats;
pub mod top_k;
pub mod union_find;
pub mod wcc;

mod parallel;
