//! The sample type produced by the record decoder, and the calendar date
//! carried by a file's header line.

use vstd::prelude::*;

verus! {

/// Largest latitude the decoder can produce, in thousandths of a minute of
/// arc: two degree digits (at most 99), two minute digits (at most 99) and
/// three decimal digits (at most 999), so 99 * 60_000 + 99 * 1_000 + 999.
pub const LAT_LIMIT: i32 = 6_039_999;

/// Largest longitude the decoder can produce, in thousandths of a minute of
/// arc: three degree digits (at most 999), then minutes as for latitude.
pub const LONG_LIMIT: i32 = 60_039_999;

/// Largest altitude the decoder can produce: five digits.
pub const ALT_LIMIT: u32 = 99_999;

/// Largest time of day the decoder can produce, in seconds: an out-of-range
/// hour, minute or second field makes the whole time fall back to zero, so
/// every decoded time is at most 23:59:59.
pub const TIME_LIMIT: u32 = 86_399;

/// One instrument reading: time of day in seconds, position in thousandths
/// of a minute of arc (negative for the southern and western hemispheres),
/// barometric and satellite altitude in meters.
#[derive(Clone, Copy, Debug, PartialEq, Eq, Structural)]
pub struct FlightPoint {
    pub time: u32,
    pub lat: i32,
    pub long: i32,
    pub alt: u32,
    pub alt_gps: u32,
}

impl FlightPoint {
    /// Field ranges that every decoded sample satisfies; the geometric code
    /// relies on them to stay within machine arithmetic.
    pub open spec fn wf(self) -> bool {
        &&& -LAT_LIMIT <= self.lat <= LAT_LIMIT
        &&& -LONG_LIMIT <= self.long <= LONG_LIMIT
        &&& self.time <= TIME_LIMIT
        &&& self.alt <= ALT_LIMIT
        &&& self.alt_gps <= ALT_LIMIT
    }
}

/// Every sample of a trace is in range.
pub open spec fn wf_trace(s: Seq<FlightPoint>) -> bool {
    forall|i: int| 0 <= i < s.len() ==> #[trigger] s[i].wf()
}

/// A calendar date. The header line carries two digits of day, month and
/// year; the year is interpreted as 2000 + YY.
#[derive(Clone, Copy, Debug, PartialEq, Eq, Structural)]
pub struct Date {
    pub year: u32,
    pub month: u32,
    pub day: u32,
}

impl Date {
    /// The sentinel kept when no header line yields a valid date.
    pub fn default_date() -> (d: Date)
        ensures
            d == (Date { year: 0, month: 1, day: 1 }),
    {
        Date { year: 0, month: 1, day: 1 }
    }
}

/// Gregorian leap year rule.
pub open spec fn spec_is_leap(year: u32) -> bool {
    year % 4 == 0 && (year % 100 != 0 || year % 400 == 0)
}

/// Days of the given month, by the Gregorian calendar.
pub open spec fn spec_days_in_month(year: u32, month: u32) -> u32 {
    if month == 2 {
        if spec_is_leap(year) {
            29
        } else {
            28
        }
    } else if month == 4 || month == 6 || month == 9 || month == 11 {
        30
    } else {
        31
    }
}

/// A month/day pair that exists in the given year.
pub open spec fn spec_valid_date(year: u32, month: u32, day: u32) -> bool {
    1 <= month <= 12 && 1 <= day <= spec_days_in_month(year, month)
}

/// Days of the given month, by the Gregorian calendar.
pub fn days_in_month(year: u32, month: u32) -> (d: u32)
    ensures
        d == spec_days_in_month(year, month),
{
    if month == 2 {
        let leap = year % 4 == 0 && (year % 100 != 0 || year % 400 == 0);
        if leap {
            29
        } else {
            28
        }
    } else if month == 4 || month == 6 || month == 9 || month == 11 {
        30
    } else {
        31
    }
}

} // verus!
