//! The coordinate space shared by the three sub-indexes.
//!
//! A position is a `(latitude, longitude)` pair of integer microdegrees
//! (degrees scaled by one million), so `(10_000_000, 10_001_000)` stands for
//! 10.0 degrees north, 10.001 degrees east. Distances between positions are
//! planar squared Euclidean distances on the raw microdegree values, not
//! geodesic distances: an approximation that is acceptable for localized
//! queries only.

use vstd::prelude::*;

verus! {

/// Whether a `(latitude, longitude)` pair of microdegrees lies in the
/// geographic range: latitude within +/-90 degrees, longitude within
/// +/-180 degrees. Every operation of the index requires its coordinates
/// to be in range; this also keeps every squared distance within `i64`.
pub open spec fn coord_ok(lat: int, lng: int) -> bool {
    &&& -90_000_000 <= lat <= 90_000_000
    &&& -180_000_000 <= lng <= 180_000_000
}

/// A point record for the point neighbor index: latitude and longitude in
/// microdegrees, then the feature id. Immutable once handed to a build.
#[derive(Clone, Copy, Debug)]
pub struct TreePoint(pub i32, pub i32, pub u32);

/// The planar squared Euclidean distance between `(ax, ay)` and `(bx, by)`
/// on raw coordinate values.
pub open spec fn pt_dist2(ax: int, ay: int, bx: int, by: int) -> int {
    (ax - bx) * (ax - bx) + (ay - by) * (ay - by)
}

} // verus!
