//! Flight-phase boundary detection: a forward scan with a fixed sliding
//! window over vertical and horizontal speed. Ground jitter averages out to
//! nearly nothing over the window; sustained climb, descent or translation
//! crosses a threshold, and the first window that does marks the boundary.
//!
//! The landing boundary is found by running the same scan on the reversed
//! trace.

use vstd::prelude::*;

use crate::geo::distance_meters;
use crate::metrics::dist_sum_range;
use crate::metrics::clamped_sum_range;
use crate::metrics::lemma_clamped_sum;
use crate::point::FlightPoint;

verus! {

/// Number of consecutive sample pairs a full window covers.
pub const WINDOW_PAIRS: usize = 15;

/// Vertical threshold: a window whose net altitude change, in meters,
/// exceeds this (in either direction) shows flight. It is the 0.6 m/s
/// vertical-speed threshold scaled by the full window of 15 pairs.
pub const VSPEED_WINDOW_LIMIT: i64 = 9;

/// Horizontal threshold: a window whose summed point-to-point distance, in
/// meters, exceeds this shows flight. It is the 3.0 m/s horizontal-speed
/// threshold scaled by the full window of 15 pairs.
pub const HSPEED_WINDOW_LIMIT: u64 = 45;

/// Pairs the window starting at `i` covers: the full 15 where the trace is
/// long enough, fewer at its very end.
pub open spec fn window_pairs_at(len: int, i: int) -> int {
    if len - 1 - i < 15 {
        len - 1 - i
    } else {
        15
    }
}

/// The window starting at `i` shows flight: its net altitude change
/// (consecutive climbs and descents cancel out when summed) or its summed
/// horizontal distance crosses a threshold.
pub open spec fn moving_at(s: Seq<FlightPoint>, i: int) -> bool {
    let w = window_pairs_at(s.len() as int, i);
    ||| s[i].alt - s[i + w].alt > VSPEED_WINDOW_LIMIT
    ||| s[i].alt - s[i + w].alt < -VSPEED_WINDOW_LIMIT
    ||| dist_sum_range(s, i, i + w) > HSPEED_WINDOW_LIMIT
}

/// First index at or after `k`, and before `len - 2`, whose window shows
/// flight; zero where none does.
pub open spec fn first_moving(s: Seq<FlightPoint>, k: int) -> int
    decreases s.len() - k,
{
    if k < 0 || k >= s.len() - 2 {
        0
    } else if moving_at(s, k) {
        k
    } else {
        first_moving(s, k + 1)
    }
}

/// The boundary index of a trace: the first index whose window shows
/// flight, zero where none does or where the trace is shorter than five
/// samples.
pub open spec fn spec_detect(s: Seq<FlightPoint>) -> int {
    if s.len() < 5 {
        0
    } else {
        first_moving(s, 0)
    }
}

/// The boundary never leaves `[0, len - 3]` for traces of five samples or
/// more.
pub proof fn lemma_detect_bounds(s: Seq<FlightPoint>)
    requires
        s.len() >= 5,
    ensures
        0 <= spec_detect(s) <= s.len() - 3,
{
    lemma_first_moving_bounds(s, 0);
}

proof fn lemma_first_moving_bounds(s: Seq<FlightPoint>, k: int)
    requires
        s.len() >= 3,
        k >= 0,
    ensures
        0 <= first_moving(s, k) <= s.len() - 3,
    decreases s.len() - k,
{
    if 0 <= k < s.len() - 2 && !moving_at(s, k) {
        lemma_first_moving_bounds(s, k + 1);
    }
}

proof fn lemma_first_moving_found(s: Seq<FlightPoint>, k: int, i: int)
    requires
        0 <= k <= i < s.len() - 2,
        moving_at(s, i),
        forall|j: int| k <= j < i ==> !moving_at(s, j),
    ensures
        first_moving(s, k) == i,
    decreases i - k,
{
    if k < i {
        lemma_first_moving_found(s, k + 1, i);
    }
}

proof fn lemma_first_moving_none(s: Seq<FlightPoint>, k: int)
    requires
        k >= 0,
        forall|j: int| k <= j < s.len() - 2 ==> !moving_at(s, j),
    ensures
        first_moving(s, k) == 0,
    decreases s.len() - k,
{
    if k < s.len() - 2 {
        lemma_first_moving_none(s, k + 1);
    }
}

/// Scans a trace forward and returns the first index whose window shows
/// flight; zero where no window does or the trace has fewer than five
/// samples. Run on the reversed trace, it finds the landing boundary.
pub fn flight_detection(trace: &Vec<FlightPoint>) -> (idx: usize)
    ensures
        idx as int == spec_detect(trace@),
{
    if trace.len() < 5 {
        return 0;
    }
    let n = trace.len() - 2;
    let mut i: usize = 0;
    while i < n
        invariant
            trace@.len() >= 5,
            n == trace@.len() - 2,
            0 <= i <= n,
            forall|j: int| 0 <= j < i ==> !moving_at(trace@, j),
        decreases n - i,
    {
        let w: usize = if trace.len() - 1 - i < WINDOW_PAIRS {
            trace.len() - 1 - i
        } else {
            WINDOW_PAIRS
        };
        let mut vsum: i64 = 0;
        let mut hacc: u64 = 0;
        let mut j: usize = 0;
        while j < w
            invariant
                5 <= trace@.len() <= usize::MAX,
                0 <= i < trace@.len() - 1,
                w == window_pairs_at(trace@.len() as int, i as int),
                0 <= j <= w,
                i + w < trace@.len(),
                vsum as int == trace@[i as int].alt - trace@[i + j].alt,
                hacc as int == clamped_sum_range(
                    trace@,
                    i as int,
                    i + j,
                    u64::MAX as int,
                ),
            decreases w - j,
        {
            let p = trace[i + j];
            let q = trace[i + j + 1];
            vsum = vsum + (p.alt as i64) - (q.alt as i64);
            let d: u64 = match distance_meters(&p, &q) {
                Some(x) => x,
                None => 0,
            };
            hacc = if d > u64::MAX - hacc {
                u64::MAX
            } else {
                hacc + d
            };
            j = j + 1;
        }
        proof {
            lemma_clamped_sum(trace@, i as int, i + w, u64::MAX as int);
        }
        if vsum > VSPEED_WINDOW_LIMIT || vsum < -VSPEED_WINDOW_LIMIT || hacc
            > HSPEED_WINDOW_LIMIT {
            proof {
                assert(moving_at(trace@, i as int));
                lemma_first_moving_found(trace@, 0, i as int);
            }
            return i;
        }
        assert(!moving_at(trace@, i as int));
        i = i + 1;
    }
    proof {
        lemma_first_moving_none(trace@, 0);
    }
    0
}

} // verus!
