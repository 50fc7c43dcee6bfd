//! Symmetry specifications and model configuration.
use vstd::prelude::*;

verus! {

/// A symmetry group specification.
#[derive(Clone, Copy, Debug, PartialEq, Eq, Structural)]
pub enum SymmetryType {
    Permutation,
    Translation { dim: usize },
    Rotation { dim: usize },
    Scale,
    Time,
    Gauge { fiber_dim: usize },
    GroupConv { order: usize },
}

/// Configuration for a geometric deep learning model.
#[derive(Clone, Debug)]
pub struct GeometricModelConfig {
    pub input_dim: usize,
    pub hidden_dim: usize,
    pub output_dim: usize,
    pub num_layers: usize,
    pub symmetries: Vec<SymmetryType>,
    pub use_spectral: bool,
    pub use_spatial: bool,
    pub num_agents: usize,
}

/// The default configuration: dimensions 16 → 32 → 8, three layers,
/// permutation symmetry only, spatial but not spectral filtering, ten agents.
pub open spec fn is_default_config(c: GeometricModelConfig) -> bool {
    &&& c.input_dim == 16
    &&& c.hidden_dim == 32
    &&& c.output_dim == 8
    &&& c.num_layers == 3
    &&& c.symmetries@ == seq![SymmetryType::Permutation]
    &&& !c.use_spectral
    &&& c.use_spatial
    &&& c.num_agents == 10
}

impl Default for GeometricModelConfig {
    fn default() -> (c: Self)
        ensures
            is_default_config(c),
    {
        let mut symmetries: Vec<SymmetryType> = Vec::new();
        symmetries.push(SymmetryType::Permutation);
        GeometricModelConfig {
            input_dim: 16,
            hidden_dim: 32,
            output_dim: 8,
            num_layers: 3,
            symmetries,
            use_spectral: false,
            use_spatial: true,
            num_agents: 10,
        }
    }
}

/// Whether `sym` is among the configured symmetries.
pub fn has_symmetry(symmetries: &Vec<SymmetryType>, sym: SymmetryType) -> (r: bool)
    ensures
        r == symmetries@.contains(sym),
{
    let mut k: usize = 0;
    while k < symmetries.len()
        invariant
            k <= symmetries@.len(),
            forall|t: int| 0 <= t < k ==> symmetries@[t] != sym,
        decreases symmetries@.len() - k,
    {
        if symmetries[k] == sym {
            return true;
        }
        k = k + 1;
    }
    false
}

} // verus!
