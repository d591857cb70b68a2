//! The immutable sample type shared by every engine.

use vstd::prelude::*;

verus! {

/// Bound on the magnitude of every coordinate and timestamp.
///
/// Coordinates are fixed-point values (for example micro-degrees) and
/// timestamps are integral ticks; keeping all three fields within
/// `2^30` lets every intermediate product of the metric computations
/// fit comfortably in 128-bit arithmetic.
pub const COORD_LIMIT: i64 = 0x4000_0000;

/// A single immutable geolocation + timestamp sample.
///
/// No identity beyond its fields; created by the caller, consumed by the
/// metric functions and the buffer engines, never mutated.
#[derive(Clone, Copy, Debug, PartialEq, Eq, Structural)]
pub struct Point {
    pub lat: i64,
    pub lon: i64,
    pub time: i64,
}

impl Point {
    /// All three fields within the fixed-point range.
    pub open spec fn wf(self) -> bool {
        &&& -COORD_LIMIT <= self.lat <= COORD_LIMIT
        &&& -COORD_LIMIT <= self.lon <= COORD_LIMIT
        &&& -COORD_LIMIT <= self.time <= COORD_LIMIT
    }

    pub fn new(lat: i64, lon: i64, time: i64) -> (p: Point)
        requires
            -COORD_LIMIT <= lat <= COORD_LIMIT,
            -COORD_LIMIT <= lon <= COORD_LIMIT,
            -COORD_LIMIT <= time <= COORD_LIMIT,
        ensures
            p == (Point { lat, lon, time }),
            p.wf(),
    {
        Point { lat, lon, time }
    }
}

/// Every sample of the run is within the fixed-point range.
pub open spec fn points_wf(s: Seq<Point>) -> bool {
    forall|k: int| 0 <= k < s.len() ==> (#[trigger] s[k]).wf()
}

/// Timestamps never decrease along the run.
pub open spec fn times_sorted(s: Seq<Point>) -> bool {
    forall|i: int, j: int| 0 <= i <= j < s.len() ==> #[trigger] s[i].time <= #[trigger] s[j].time
}

} // verus!
