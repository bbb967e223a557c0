//! Distance metrics for neighbour searches.
use vstd::prelude::*;

verus! {

/// The metric used by radius and nearest-neighbour searches.
#[derive(Clone, Copy, Debug, PartialEq, Eq, Structural)]
pub enum DistanceMetric {
    Euclidean,
    InfinityNorm,
}

} // verus!
