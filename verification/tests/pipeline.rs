//! The geometric pipeline: simplification, phase detection, metrics, and
//! the per-file trace.

use flightlog::metrics::flight_duration;
use flightlog::metrics::total_distance;
use flightlog::phase::flight_detection;
use flightlog::point::FlightPoint;
use flightlog::simplify::FlightSimplify;
use flightlog::trace::FlightTrace;

fn pt(lat: i32, long: i32) -> FlightPoint {
    FlightPoint { time: 0, lat, long, alt: 1000, alt_gps: 1000 }
}

fn timed(time: u32, lat: i32, long: i32, alt: u32) -> FlightPoint {
    FlightPoint { time, lat, long, alt, alt_gps: alt }
}

#[test]
fn simplifier_keeps_short_inputs_unchanged() {
    let two = vec![pt(0, 0), pt(1000, 1000)];
    let out = FlightSimplify::douglas_peucker(&two, 10);
    assert_eq!(out, two);
}

#[test]
fn simplifier_drops_points_within_tolerance() {
    // a nearly straight line: interior points deviate by 1 unit
    let line = vec![pt(0, 0), pt(1, 1000), pt(0, 2000), pt(1, 3000), pt(0, 4000)];
    let out = FlightSimplify::douglas_peucker(&line, 10);
    assert_eq!(out, vec![pt(0, 0), pt(0, 4000)]);
}

#[test]
fn simplifier_keeps_a_spike_beyond_tolerance() {
    let spiked = vec![pt(0, 0), pt(0, 1000), pt(500, 2000), pt(0, 3000), pt(0, 4000)];
    let out = FlightSimplify::douglas_peucker(&spiked, 10);
    assert!(out.contains(&pt(500, 2000)));
    assert_eq!(out[0], pt(0, 0));
    assert_eq!(out[out.len() - 1], pt(0, 4000));
}

#[test]
fn simplifier_is_idempotent() {
    let spiked = vec![
        pt(0, 0),
        pt(3, 1000),
        pt(500, 2000),
        pt(-2, 3000),
        pt(700, 3500),
        pt(0, 4000),
        pt(1, 5000),
    ];
    for eps in [0u32, 1, 10, 100, 1000] {
        let once = FlightSimplify::douglas_peucker(&spiked, eps);
        let twice = FlightSimplify::douglas_peucker(&once, eps);
        assert_eq!(twice, once);
    }
}

#[test]
fn simplifier_output_shrinks_as_tolerance_grows() {
    let spiked = vec![
        pt(0, 0),
        pt(3, 1000),
        pt(500, 2000),
        pt(-2, 3000),
        pt(700, 3500),
        pt(0, 4000),
        pt(1, 5000),
    ];
    let mut previous = usize::MAX;
    for eps in [0u32, 1, 10, 100, 1000, 100000] {
        let out = FlightSimplify::douglas_peucker(&spiked, eps);
        assert!(out.len() <= previous);
        previous = out.len();
    }
}

#[test]
fn simplifier_handles_a_degenerate_chord() {
    // first and last sample coincide: no division, just the endpoints
    let loop_back = vec![pt(0, 0), pt(500, 1000), pt(0, 0)];
    let out = FlightSimplify::douglas_peucker(&loop_back, 10);
    assert_eq!(out, vec![pt(0, 0), pt(0, 0)]);
}

#[test]
fn distance_of_one_degree_of_latitude() {
    // one degree of latitude is close to 110.6 km on the ellipsoid; a
    // wrapper that ignored its arguments could not produce this
    let track = vec![pt(0, 0), pt(60000, 0)];
    let d = total_distance(&track);
    assert!(d > 109_000 && d < 112_000, "got {}", d);
}

#[test]
fn distance_sums_consecutive_legs() {
    let track = vec![pt(0, 0), pt(60000, 0), pt(120000, 0)];
    let one = total_distance(&vec![pt(0, 0), pt(60000, 0)]);
    let both = total_distance(&track);
    assert!(both >= 2 * one - 10 && both <= 2 * one + 10);
}

#[test]
fn short_traces_have_zero_metrics() {
    assert_eq!(total_distance(&vec![pt(0, 0)]), 0);
    assert_eq!(flight_duration(&vec![pt(0, 0)]), 0);
    assert_eq!(total_distance(&Vec::new()), 0);
    assert_eq!(flight_duration(&Vec::new()), 0);
}

#[test]
fn duration_is_whole_minutes() {
    let track = vec![timed(3600, 0, 0, 1000), timed(3600 + 659, 0, 0, 1000)];
    assert_eq!(flight_duration(&track), 10);
}

#[test]
fn ground_jitter_is_not_flight() {
    // 30 samples at the same spot with flat altitude: no window triggers
    let mut track = Vec::new();
    for i in 0..30u32 {
        track.push(timed(i, 2_760_000, 360_000, 1000));
    }
    assert_eq!(flight_detection(&track), 0);
}

fn scenario_a_trace() -> Vec<FlightPoint> {
    let mut track = Vec::new();
    // 200 near-identical ground samples: jitter of one thousandth of a
    // minute, flat altitude
    for i in 0..200u32 {
        let jitter = (i % 2) as i32;
        track.push(timed(i, 2_760_000 + jitter, 360_000 - jitter, 1000));
    }
    // then a climbing, translating departure
    for i in 200..5000u32 {
        let k = (i - 200) as i32;
        track.push(timed(i, 2_760_000 + 40 * k, 360_000 + 40 * k, 1000 + 2 * (i - 200)));
    }
    track
}

#[test]
fn takeoff_is_found_after_the_ground_phase() {
    let track = scenario_a_trace();
    assert_eq!(track.len(), 5000);
    let idx = flight_detection(&track);
    assert!(idx > 0, "takeoff at {}", idx);
    assert!(idx <= 200 + 15, "takeoff at {}", idx);
}

#[test]
fn takeoff_always_precedes_landing() {
    let track = scenario_a_trace();
    let (takeoff, landing) = FlightTrace::flight_window(&track);
    assert!(takeoff < landing);
    assert!(landing < track.len());
    // and on a trace too short for detection, the whole range is flight
    let short = vec![timed(0, 0, 0, 0), timed(1, 60000, 0, 0), timed(2, 120000, 0, 0)];
    let (t2, l2) = FlightTrace::flight_window(&short);
    assert_eq!((t2, l2), (0, 2));
}

#[test]
fn two_sample_trace_has_zero_duration_and_distance() {
    let text = b"B1000004600000N00600000EA0100001000\nB1010004600100N00600100EA0100001000\n"
        .to_vec();
    let trace = FlightTrace::new(text);
    assert_eq!(trace.trace.len(), 2);
    assert_eq!(trace.flight_duration(), 0);
    assert_eq!(trace.total_distance(), 0);
}

#[test]
fn trace_pipeline_simplifies_the_flight_range() {
    let mut text = String::new();
    text.push_str("HFDTE010124\n");
    for i in 0..50u32 {
        // a straight track: lat grows, time one second per sample
        let lat_min = 7000 + 100 * i;
        text.push_str(&format!(
            "B10{:02}{:02}46{:05}N00600000EA{:05}{:05}\n",
            i / 60,
            i % 60,
            lat_min,
            1000 + i,
            1000 + i
        ));
    }
    text.push_str("Gchecksum\n");
    let trace = FlightTrace::new(text.into_bytes());
    assert_eq!(trace.trace.len(), 50);
    assert_eq!(trace.check, b"checksum".to_vec());
    // a straight line simplifies to its two endpoints
    assert_eq!(trace.simplified_trace.len(), 2);
    assert!(trace.takeoff_index < trace.landing_index);
}
