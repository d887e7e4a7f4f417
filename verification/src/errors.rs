//! The error taxonomy of the point neighbor index queries.
//!
//! The cell-bitmap index and the shape neighbor index never fail: absent
//! cells and empty trees simply contribute nothing to a result. Only the
//! point neighbor index, whose lifecycle starts with an explicit build,
//! reports failure values.

use vstd::prelude::*;

verus! {

/// Why a point neighbor query returned nothing.
#[derive(Clone, Copy, Debug, PartialEq, Eq, Structural)]
pub enum WorldError {
    /// The point neighbor index was queried before any build call.
    NotBuilt,
    /// The point neighbor index is built but holds no point at all.
    NoResult,
}

} // verus!
