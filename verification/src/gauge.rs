//! Parallel-transport modes for gauge-equivariant layers.
use vstd::prelude::*;

verus! {

/// How to handle parallel transport.
#[derive(Clone, Copy, Debug, PartialEq, Eq, Structural)]
pub enum TransportMode {
    /// Trivial transport (flat connection).
    Trivial,
    /// Transport via adjacency-weighted interpolation.
    Interpolated,
}

} // verus!
