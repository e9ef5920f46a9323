//! Derived metrics of a trace: total geodesic distance and flight duration.

use vstd::prelude::*;

use crate::geo::distance_meters;
use crate::geo::geo_distance;
use crate::point::FlightPoint;

verus! {

/// Geodesic meters between two consecutive samples; a distance the geodesic
/// routine cannot resolve counts as zero.
pub open spec fn pair_dist(a: FlightPoint, b: FlightPoint) -> int {
    match geo_distance(a.lat as int, a.long as int, b.lat as int, b.long as int) {
        Some(d) => d as int,
        None => 0,
    }
}

/// Sum of the consecutive pair distances `(k, k+1)` for `lo <= k < hi`.
pub open spec fn dist_sum_range(s: Seq<FlightPoint>, lo: int, hi: int) -> int
    decreases hi - lo,
{
    if hi <= lo {
        0
    } else {
        dist_sum_range(s, lo, hi - 1) + pair_dist(s[hi - 1], s[hi])
    }
}

/// The same sum clamped at `cap` after every step, as the executable
/// accumulation performs it.
pub open spec fn clamped_sum_range(s: Seq<FlightPoint>, lo: int, hi: int, cap: int) -> int
    decreases hi - lo,
{
    if hi <= lo {
        0
    } else {
        let t = clamped_sum_range(s, lo, hi - 1, cap) + pair_dist(s[hi - 1], s[hi]);
        if t > cap {
            cap
        } else {
            t
        }
    }
}

/// Pair distances are never negative, so neither are their sums.
pub proof fn lemma_dist_sum_nonneg(s: Seq<FlightPoint>, lo: int, hi: int)
    ensures
        dist_sum_range(s, lo, hi) >= 0,
    decreases hi - lo,
{
    if hi > lo {
        lemma_dist_sum_nonneg(s, lo, hi - 1);
    }
}

/// Clamping at every step of the sum is the same as clamping the whole sum.
pub proof fn lemma_clamped_sum(s: Seq<FlightPoint>, lo: int, hi: int, cap: int)
    requires
        cap >= 0,
    ensures
        clamped_sum_range(s, lo, hi, cap) == if dist_sum_range(s, lo, hi) > cap {
            cap
        } else {
            dist_sum_range(s, lo, hi)
        },
    decreases hi - lo,
{
    if hi > lo {
        lemma_clamped_sum(s, lo, hi - 1, cap);
        lemma_dist_sum_nonneg(s, lo, hi - 1);
    }
}

/// Total distance of a trace: the sum of consecutive geodesic distances in
/// whole meters, clamped into a `u32`; fewer than two samples give zero.
pub open spec fn spec_total_distance(s: Seq<FlightPoint>) -> int {
    if s.len() < 2 {
        0
    } else if dist_sum_range(s, 0, s.len() - 1) > u32::MAX {
        u32::MAX as int
    } else {
        dist_sum_range(s, 0, s.len() - 1)
    }
}

/// Duration of a trace in whole minutes: the time of day of the last sample
/// minus that of the first; fewer than two samples, or a last sample not
/// after the first, give zero.
pub open spec fn spec_flight_duration(s: Seq<FlightPoint>) -> int {
    if s.len() < 2 {
        0
    } else if s.last().time >= s[0].time {
        (s.last().time - s[0].time) / 60
    } else {
        0
    }
}

/// Sums the consecutive geodesic point-to-point distances of a trace,
/// truncated to whole meters; a pair the geodesic routine cannot resolve
/// contributes zero rather than failing.
pub fn total_distance(track: &Vec<FlightPoint>) -> (dist: u32)
    ensures
        dist as int == spec_total_distance(track@),
{
    if track.len() < 2 {
        return 0;
    }
    let mut acc: u64 = 0;
    let mut k: usize = 0;
    let cap: u64 = u32::MAX as u64;
    while k < track.len() - 1
        invariant
            track@.len() >= 2,
            0 <= k <= track@.len() - 1,
            acc as int == clamped_sum_range(track@, 0, k as int, u32::MAX as int),
            acc <= u32::MAX as u64,
            cap == u32::MAX as u64,
        decreases track@.len() - 1 - k,
    {
        let p = track[k];
        let q = track[k + 1];
        let d: u64 = match distance_meters(&p, &q) {
            Some(x) => x,
            None => 0,
        };
        acc = if d > cap - acc {
            cap
        } else {
            acc + d
        };
        k = k + 1;
    }
    proof {
        lemma_clamped_sum(track@, 0, track@.len() - 1, u32::MAX as int);
    }
    acc as u32
}

/// Minutes between the first and last sample of a trace, truncated.
pub fn flight_duration(track: &Vec<FlightPoint>) -> (minutes: u32)
    ensures
        minutes as int == spec_flight_duration(track@),
{
    if track.len() < 2 {
        return 0;
    }
    let first = track[0].time;
    let last = track[track.len() - 1].time;
    if last >= first {
        (last - first) / 60
    } else {
        0
    }
}

} // verus!
