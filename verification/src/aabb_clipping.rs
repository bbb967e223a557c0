//! Axis-aligned bounding boxes.
use vstd::prelude::*;

verus! {

/// Axis-aligned bounding box with three-dimensional minimum and maximum corners.
#[derive(Clone, Copy, Debug)]
#[allow(clippy::upper_case_acronyms)]
pub struct AABB<T> {
    /// Minimum x, y, and z coordinates.
    pub min_corner: [T; 3],
    /// Maximum x, y, and z coordinates.
    pub max_corner: [T; 3],
}

} // verus!
