//! Message aggregation and the layer shapes of multi-layer graph networks.
use vstd::prelude::*;

verus! {

/// How to aggregate messages from neighbours.
#[derive(Clone, Copy, Debug, PartialEq, Eq, Structural)]
pub enum MessageAggregation {
    Sum,
    Mean,
    Max,
}

/// Shapes `(input_dim, output_dim)` of the layers of a stack whose successive
/// feature dimensions are `dims`: one layer per pair of neighbouring entries.
pub fn layer_dim_pairs(dims: &[usize]) -> (r: Vec<(usize, usize)>)
    ensures
        r@.len() + 1 == if dims@.len() == 0 { 1 } else { dims@.len() },
        forall|k: int| 0 <= k < r@.len() ==> #[trigger] r@[k] == (dims@[k], dims@[k + 1]),
{
    let mut out: Vec<(usize, usize)> = Vec::new();
    let mut k: usize = 1;
    while k < dims.len()
        invariant
            1 <= k,
            k <= dims@.len() || k == 1,
            out@.len() == k - 1,
            forall|t: int| 0 <= t < out@.len() ==> #[trigger] out@[t] == (dims@[t], dims@[t + 1]),
        decreases dims@.len() - k,
    {
        out.push((dims[k - 1], dims[k]));
        k = k + 1;
    }
    out
}

} // verus!
