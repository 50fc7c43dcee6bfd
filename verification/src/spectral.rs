//! The graph Fourier transform, as a marker type.
use vstd::prelude::*;

verus! {

/// Graph Fourier transform: decomposition of agent signals along the
/// eigenvectors of the normalised graph Laplacian.
#[derive(Clone, Copy, Debug, PartialEq, Eq, Structural)]
pub struct GraphFourier;

} // verus!
