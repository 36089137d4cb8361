pub mod item;
pub mod select;
pub mod graph;
pub mod rank;
pub mod pipeline;

use vstd::prelude::*;

verus! {

/// Reports whether a graph of `n_nodes` nodes and `n_edges` edges meets the
/// configured minimum-size thresholds.
pub fn meets_thresholds(n_nodes: usize, n_edges: usize, min_nodes: usize, min_edges: usize) -> (r: bool)
    ensures
        r == (n_nodes >= min_nodes && n_edges >= min_edges),
{
    n_nodes >= min_nodes && n_edges >= min_edges
}

} // verus!

