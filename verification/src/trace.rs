//! The per-file pipeline: decode the text, find the takeoff and landing
//! boundaries, simplify the interior range, and keep everything a caller
//! needs to derive metrics and assemble the flight record.

use vstd::prelude::*;

use crate::igc::IgcReader;
use crate::igc::check_of;
use crate::igc::date_of;
use crate::igc::lines_of;
use crate::igc::trace_of;
use crate::metrics::spec_flight_duration;
use crate::metrics::spec_total_distance;
use crate::metrics::flight_duration;
use crate::metrics::total_distance;
use crate::phase::flight_detection;
use crate::phase::spec_detect;
use crate::point::Date;
use crate::point::FlightPoint;
use crate::point::wf_trace;
use crate::simplify::FlightSimplify;
use crate::simplify::dp;

verus! {

/// Simplification tolerance of the pipeline, in thousandths of a minute of
/// arc: 0.005 degrees, the raw-coordinate-plane bound the simplifier keeps.
pub const EPSILON: u32 = 300;

/// The takeoff and landing boundary of a trace. The takeoff index comes
/// from the forward scan; the landing index from the same scan on the
/// reversed trace, counted back from the end. A scan that would put the
/// landing at or before the takeoff counts as failed detection, and the
/// whole trace is the flight.
pub open spec fn spec_window(s: Seq<FlightPoint>) -> (int, int) {
    if s.len() < 2 {
        (0, 0)
    } else {
        let t = spec_detect(s);
        let l = s.len() - 1 - spec_detect(s.reverse());
        if t < l {
            (t, l)
        } else {
            (0, s.len() - 1)
        }
    }
}

/// A decoded file with its flight window applied: the full trace, the
/// simplified interior range, the date and the integrity-check payload.
pub struct FlightTrace {
    /// Payload of the file's integrity-check line; the flight's identity.
    pub check: Vec<u8>,
    /// The raw file text the trace was decoded from.
    pub raw_igc: Vec<u8>,
    /// The flight date from the file's header.
    pub date: Date,
    /// The simplified samples of the flight range.
    pub simplified_trace: Vec<FlightPoint>,
    /// Every decoded sample, in file order.
    pub trace: Vec<FlightPoint>,
    /// Index of the takeoff boundary in `trace`.
    pub takeoff_index: usize,
    /// Index of the landing boundary in `trace`.
    pub landing_index: usize,
}

impl FlightTrace {
    /// What `new` guarantees of every field.
    pub open spec fn wf(self) -> bool {
        let ls = lines_of(self.raw_igc@);
        &&& self.trace@ == trace_of(ls)
        &&& self.date == date_of(ls)
        &&& self.check@ == check_of(ls)
        &&& wf_trace(self.trace@)
        &&& (self.takeoff_index as int, self.landing_index as int) == spec_window(self.trace@)
        &&& self.simplified_trace@ == dp(
            self.trace@.subrange(self.takeoff_index as int, self.landing_index as int),
            EPSILON as int,
        )
        &&& self.trace@.len() >= 2 ==> self.takeoff_index < self.landing_index
            < self.trace@.len()
    }

    /// Computes the flight window of a trace: takeoff strictly before
    /// landing, both inside the trace, whenever the trace has at least two
    /// samples; `(0, 0)` on shorter traces.
    pub fn flight_window(trace: &Vec<FlightPoint>) -> (w: (usize, usize))
        ensures
            (w.0 as int, w.1 as int) == spec_window(trace@),
            trace@.len() >= 2 ==> w.0 < w.1 < trace@.len(),
            trace@.len() < 2 ==> w.0 == 0 && w.1 == 0,
    {
        if trace.len() < 2 {
            return (0, 0);
        }
        let takeoff = flight_detection(trace);
        let mut reversed: Vec<FlightPoint> = Vec::new();
        let mut i: usize = trace.len();
        while i > 0
            invariant
                0 <= i <= trace@.len(),
                reversed@.len() == trace@.len() - i,
                forall|j: int|
                    0 <= j < reversed@.len() ==> reversed@[j] == trace@[trace@.len() - 1 - j],
            decreases i,
        {
            i = i - 1;
            reversed.push(trace[i]);
        }
        assert(reversed@ =~= trace@.reverse());
        let rev_idx = flight_detection(&reversed);
        proof {
            if trace@.len() >= 5 {
                crate::phase::lemma_detect_bounds(trace@);
                crate::phase::lemma_detect_bounds(reversed@);
            }
        }
        let landing = trace.len() - 1 - rev_idx;
        if takeoff < landing {
            (takeoff, landing)
        } else {
            (0, trace.len() - 1)
        }
    }

    /// Runs the whole pipeline on a file's text: decode, detect the
    /// boundaries, simplify the flight range at the configured tolerance.
    pub fn new(raw_igc: Vec<u8>) -> (r: FlightTrace)
        ensures
            r.raw_igc@ == raw_igc@,
            r.wf(),
    {
        let decoded = IgcReader::read(&raw_igc);
        let trace = decoded.track;
        let (takeoff_index, landing_index) = Self::flight_window(&trace);
        let mut interior: Vec<FlightPoint> = Vec::new();
        let mut i: usize = takeoff_index;
        while i < landing_index
            invariant
                takeoff_index <= i <= landing_index,
                landing_index < trace@.len() || landing_index == 0,
                interior@ == trace@.subrange(takeoff_index as int, i as int),
            decreases landing_index - i,
        {
            interior.push(trace[i]);
            i = i + 1;
        }
        assert(interior@ =~= trace@.subrange(takeoff_index as int, landing_index as int));
        assert(wf_trace(interior@));
        let simplified_trace = FlightSimplify::douglas_peucker(&interior, EPSILON);
        FlightTrace {
            check: decoded.check,
            raw_igc,
            date: decoded.date,
            simplified_trace,
            trace,
            takeoff_index,
            landing_index,
        }
    }

    /// Total geodesic distance of the simplified trace, in whole meters.
    pub fn total_distance(&self) -> (dist: u32)
        ensures
            dist as int == spec_total_distance(self.simplified_trace@),
    {
        total_distance(&self.simplified_trace)
    }

    /// Duration of the simplified trace, in whole minutes.
    pub fn flight_duration(&self) -> (minutes: u32)
        ensures
            minutes as int == spec_flight_duration(self.simplified_trace@),
    {
        flight_duration(&self.simplified_trace)
    }
}

} // verus!
