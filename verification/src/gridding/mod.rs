//! The gridding vocabulary (which scattered-data method to run, how the
//! minimum-curvature solve honours off-node samples, the grid-to-grid
//! resampling method, the variogram model family) and the integer bookkeeping
//! of the kernels: band storage, coincident samples, control rows, the
//! boundary fold, and the anchor and free-node numbering.

use vstd::prelude::*;

pub mod band;
pub mod coincident;
pub mod controls;
pub mod fold;
pub mod nodes;

verus! {

/// How the minimum-curvature solve honours a data sample that does not sit on
/// a lattice node.
#[derive(Debug, Clone, Copy, PartialEq, Eq, Structural)]
pub enum Conditioning {
    /// Snap each sample to its nearest node and hold that node fixed
    /// (collisions average). The historical behaviour and the default.
    NearestNode,
    /// Honour an off-node sample through the bilinear interpolation of its
    /// four surrounding nodes, so the interpolated surface passes through it.
    Bilinear,
}

impl Default for Conditioning {
    fn default() -> (r: Conditioning)
        ensures
            r == Conditioning::NearestNode,
    {
        Conditioning::NearestNode
    }
}

/// Scattered-data to grid interpolation methods.
#[derive(Debug, Clone, Copy, PartialEq, Eq, Structural)]
pub enum GridMethod {
    /// Value of the single areally-closest sample (blocky, exact at data).
    Nearest,
    /// Inverse-distance weighting (global, p = 2). Exact at coincident samples.
    InverseDistance,
    /// Briggs minimum-curvature (biharmonic): smooth, honours the samples.
    MinimumCurvature,
}

/// Interpolation method for grid-to-grid resampling.
#[derive(Debug, Clone, Copy, PartialEq, Eq, Structural)]
pub enum ResampleMethod {
    /// Bilinear over the four surrounding source nodes.
    Bilinear,
    /// Value of the single areally-nearest source node.
    Nearest,
}

/// The structured-component family of a variogram model.
#[derive(Debug, Clone, Copy, PartialEq, Eq, Structural)]
pub enum VariogramModel {
    /// Pure nugget: no spatial correlation.
    Nugget,
    /// Spherical: linear near the origin, reaches the sill exactly at the range.
    Spherical,
    /// Exponential: reaches about 95 % of the sill at the practical range.
    Exponential,
    /// Gaussian: parabolic near the origin, 95 % of the sill at the range.
    Gaussian,
}

} // verus!
