use vstd::prelude::*;

verus! {

/// Why a geometric construction could not be carried out.
#[derive(Clone, Copy, Debug, PartialEq, Eq, Structural)]
pub enum GeometryError {
    /// Collinear points, parallel lines or coincident points where a construction
    /// needs them in general position.
    DegenerateGeometry,
    /// Fewer than three sites.
    TooFewSites,
}

} // verus!
