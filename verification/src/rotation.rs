//! Choice of rotation-invariant features.
use vstd::prelude::*;

verus! {

/// Which rotation-invariant features to compute from agent positions:
/// distances, angles, triangle areas.
#[derive(Clone, Copy, Debug, PartialEq, Eq, Structural)]
pub struct RotationInvariantFeatures {
    pub include_distances: bool,
    pub include_angles: bool,
    pub include_areas: bool,
}

impl Default for RotationInvariantFeatures {
    /// Distances and angles, no areas.
    fn default() -> (r: Self)
        ensures
            r.include_distances,
            r.include_angles,
            !r.include_areas,
    {
        RotationInvariantFeatures { include_distances: true, include_angles: true, include_areas: false }
    }
}

} // verus!
