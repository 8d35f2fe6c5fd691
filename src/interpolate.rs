use vstd::prelude::*;

pub mod inverse_distance_weighting;
pub mod nearest_neighbor;

verus! {

/// The ways a grid can be filled from scattered samples.
#[derive(Debug, Clone, Copy, PartialEq, Eq, Structural)]
pub enum InterpolationMethod {
    /// Weighted average of the samples within a radius.
    InverseDistanceWeighting,
    /// Weighted average of every sample.
    InverseDistanceWeightingGlobal,
    /// Natural-neighbour interpolation over a Delaunay triangulation.
    NaturalNeighbor,
    /// Value of the nearest sample.
    NearestNeighbor,
}

/// Why an interpolation could not run.
#[derive(Debug, Clone, Copy, PartialEq, Eq, Structural)]
pub enum InterpolationError {
    /// No samples were given.
    EmptyPointSet,
    /// The samples do not admit a triangulation.
    TriangulationFailed,
}

impl InterpolationError {
    /// A human-readable description of the error.
    pub fn message(&self) -> (r: &'static str)
        ensures
            *self == InterpolationError::EmptyPointSet ==> r@ == "No points to interpolate"@,
            *self == InterpolationError::TriangulationFailed ==> r@ == "Error building triangulation"@,
    {
        match self {
            InterpolationError::EmptyPointSet => "No points to interpolate",
            InterpolationError::TriangulationFailed => "Error building triangulation",
        }
    }
}

} // verus!
