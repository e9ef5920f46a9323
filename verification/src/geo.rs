//! The geodesic-distance primitive, taken on trust from an outside crate.
//!
//! The library never states what the distance between two coordinates is; it
//! only gives the value a name and reasons about every computation that uses
//! it. The one trusted wrapper converts coordinates from thousandths of a
//! minute of arc to degrees and truncates the result to whole meters.

use vstd::prelude::*;

use crate::point::FlightPoint;

verus! {

/// The surface distance in whole meters that the outside geodesic routine
/// reports between two coordinates given in thousandths of a minute of arc,
/// or nothing where it fails to converge. A function of the coordinates
/// alone.
pub uninterp spec fn geo_distance(lat1: int, long1: int, lat2: int, long2: int) -> Option<u64>;

/// Relies on geoutils::Location::distance_to (Vincenty's inverse formula):
/// deterministic in the two positions, `Err` only when the iteration does
/// not converge. Degrees are the coordinate value over 60000; the resulting
/// meters are truncated toward zero.
#[verifier::external_body]
pub(crate) fn distance_meters(a: &FlightPoint, b: &FlightPoint) -> (r: Option<u64>)
    ensures
        r == geo_distance(a.lat as int, a.long as int, b.lat as int, b.long as int),
{
    let ra = geoutils::Location::new(a.lat, a.long);
    let rb = geoutils::Location::new(b.lat, b.long);
    let scale = geoutils::Location::new(60000i32, 60000i32).latitude();
    let la = geoutils::Location::new_const(ra.latitude() / scale, ra.longitude() / scale);
    let lb = geoutils::Location::new_const(rb.latitude() / scale, rb.longitude() / scale);
    la.distance_to(&lb).ok().map(|d| d.meters() as u64)
}

} // verus!
