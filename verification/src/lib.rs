//! Classification of points against polygonal regions with holes.
//!
//! The library partitions a set of identified points among a sequence of
//! regions: a containment pass assigns each point to the first region whose
//! polygon contains it, and a proximity pass assigns each remaining point to
//! the nearest region whose boundary lies strictly under a distance
//! threshold. Coordinates are plain fixed-point integers, so every geometric
//! predicate is exact and verified; the caller picks the scale and computes
//! the boundary distances for the proximity pass.

pub mod geometry;
pub mod polygon;
pub mod resolver;
pub mod aggregate;
pub mod partition;
pub mod naming;

use vstd::prelude::*;

verus! {

/// Distance threshold, in meters, under which the proximity pass assigns a
/// point to its nearest region. Strictly-under: a distance equal to the
/// threshold does not match.
pub const PROXIMITY_THRESHOLD_M: u64 = 50000;

} // verus!
