//! Decoder for the line-oriented flight-recorder text format.
//!
//! The input is treated as bytes. Lines are separated by line feeds, with a
//! trailing carriage return stripped. The first byte of a line selects its
//! kind: `B` position records, `H` header lines (of which only the date
//! header, tagged `FDTE`, matters), and `G` integrity-check lines. Anything
//! else is ignored. Decoding never fails: a missing or non-digit character
//! counts as the digit zero, an impossible time of day falls back to zero
//! seconds, and an impossible header date leaves the previous date in place.

use vstd::prelude::*;

use crate::point::Date;
use crate::point::FlightPoint;
use crate::point::spec_valid_date;
use crate::point::days_in_month;
use crate::point::wf_trace;

verus! {

/// An ASCII decimal digit.
pub open spec fn is_digit(b: u8) -> bool {
    48 <= b <= 57
}

/// The byte at position `i`, or an ASCII `0` past either end: fields read
/// beyond a short line decode as zeroes.
pub open spec fn byte_at(l: Seq<u8>, i: int) -> u8 {
    if 0 <= i < l.len() {
        l[i]
    } else {
        48
    }
}

/// Digit value of the byte at `i`; a non-digit counts as zero.
pub open spec fn spec_dig(l: Seq<u8>, i: int) -> int {
    if is_digit(byte_at(l, i)) {
        byte_at(l, i) - 48
    } else {
        0
    }
}

/// Two-digit field starting at `i`.
pub open spec fn spec_two(l: Seq<u8>, i: int) -> int {
    10 * spec_dig(l, i) + spec_dig(l, i + 1)
}

/// Three-digit field starting at `i`.
pub open spec fn spec_three(l: Seq<u8>, i: int) -> int {
    100 * spec_dig(l, i) + 10 * spec_dig(l, i + 1) + spec_dig(l, i + 2)
}

/// Five-digit field starting at `i`.
pub open spec fn spec_five(l: Seq<u8>, i: int) -> int {
    10000 * spec_dig(l, i) + 1000 * spec_dig(l, i + 1) + 100 * spec_dig(l, i + 2) + 10 * spec_dig(
        l,
        i + 3,
    ) + spec_dig(l, i + 4)
}

/// Time of day of a position record, in seconds. An hour, minute or second
/// field out of range makes the combination invalid, and the time falls back
/// to the zero sentinel.
pub open spec fn spec_rec_time(l: Seq<u8>) -> int {
    let h = spec_two(l, 1);
    let m = spec_two(l, 3);
    let s = spec_two(l, 5);
    if h <= 23 && m <= 59 && s <= 59 {
        3600 * h + 60 * m + s
    } else {
        0
    }
}

/// South and west hemisphere letters negate a coordinate.
pub open spec fn spec_negates(b: u8) -> bool {
    b == 83 || b == 87
}

/// Latitude of a position record, in thousandths of a minute of arc:
/// two degree digits, two minute digits, three decimal digits, and the
/// hemisphere letter at offset 14.
pub open spec fn spec_rec_lat(l: Seq<u8>) -> int {
    let mag = 60000 * spec_two(l, 7) + 1000 * spec_two(l, 9) + 100 * spec_dig(l, 11) + 10
        * spec_dig(l, 12) + spec_dig(l, 13);
    if spec_negates(byte_at(l, 14)) {
        -mag
    } else {
        mag
    }
}

/// Longitude of a position record, in thousandths of a minute of arc:
/// three degree digits, two minute digits, three decimal digits, and the
/// hemisphere letter at offset 23.
pub open spec fn spec_rec_long(l: Seq<u8>) -> int {
    let mag = 60000 * spec_three(l, 15) + 1000 * spec_two(l, 18) + 100 * spec_dig(l, 20) + 10
        * spec_dig(l, 21) + spec_dig(l, 22);
    if spec_negates(byte_at(l, 23)) {
        -mag
    } else {
        mag
    }
}

/// The sample a position record decodes to. The validity byte at offset 24
/// is read past and discarded; the two altitude channels follow it.
pub open spec fn record_sample(l: Seq<u8>) -> FlightPoint {
    FlightPoint {
        time: spec_rec_time(l) as u32,
        lat: spec_rec_lat(l) as i32,
        long: spec_rec_long(l) as i32,
        alt: spec_five(l, 25) as u32,
        alt_gps: spec_five(l, 30) as u32,
    }
}

/// A position record line.
pub open spec fn is_b_line(l: Seq<u8>) -> bool {
    l.len() > 0 && l[0] == 66
}

/// The date header line: `H` followed by the tag `FDTE`. A header shorter
/// than the tag is ignored.
pub open spec fn is_date_line(l: Seq<u8>) -> bool {
    l.len() >= 5 && l[0] == 72 && l[1] == 70 && l[2] == 68 && l[3] == 84 && l[4] == 69
}

/// An integrity-check line.
pub open spec fn is_g_line(l: Seq<u8>) -> bool {
    l.len() > 0 && l[0] == 71
}

/// Position of the first decimal digit at or after `i`, or the length.
pub open spec fn first_digit(l: Seq<u8>, i: int) -> int
    decreases l.len() - i,
{
    if i < 0 || i >= l.len() {
        l.len() as int
    } else if is_digit(l[i]) {
        i
    } else {
        first_digit(l, i + 1)
    }
}

/// The date a header line carries, if any: six digits of day, month and
/// two-digit year, read from the first digit onward (a malformed prefix is
/// skipped), the year counted from 2000. A combination that is no calendar
/// date yields nothing.
pub open spec fn spec_line_date(l: Seq<u8>) -> Option<Date> {
    let k = first_digit(l, 0);
    let day = spec_two(l, k);
    let month = spec_two(l, k + 2);
    let year = 2000 + spec_two(l, k + 4);
    if spec_valid_date(year as u32, month as u32, day as u32) {
        Some(Date { year: year as u32, month: month as u32, day: day as u32 })
    } else {
        None
    }
}

/// The samples of a line sequence: every position record, in file order.
pub open spec fn trace_of(ls: Seq<Seq<u8>>) -> Seq<FlightPoint>
    decreases ls.len(),
{
    if ls.len() == 0 {
        Seq::empty()
    } else if is_b_line(ls.last()) {
        trace_of(ls.drop_last()).push(record_sample(ls.last()))
    } else {
        trace_of(ls.drop_last())
    }
}

/// The date of a line sequence: the last date header that carries a valid
/// date wins; with none, the sentinel date stays.
pub open spec fn date_of(ls: Seq<Seq<u8>>) -> Date
    decreases ls.len(),
{
    if ls.len() == 0 {
        Date { year: 0, month: 1, day: 1 }
    } else if is_date_line(ls.last()) && spec_line_date(ls.last()) is Some {
        spec_line_date(ls.last()).unwrap()
    } else {
        date_of(ls.drop_last())
    }
}

/// The integrity-check payload of a line sequence: everything after the tag
/// of the last check line, or empty with none.
pub open spec fn check_of(ls: Seq<Seq<u8>>) -> Seq<u8>
    decreases ls.len(),
{
    if ls.len() == 0 {
        Seq::empty()
    } else if is_g_line(ls.last()) {
        ls.last().subrange(1, ls.last().len() as int)
    } else {
        check_of(ls.drop_last())
    }
}

/// Position of the first line feed at or after `i`, or the length.
pub open spec fn find_nl(s: Seq<u8>, i: int) -> int
    decreases s.len() - i,
{
    if i < 0 || i >= s.len() {
        s.len() as int
    } else if s[i] == 10 {
        i
    } else {
        find_nl(s, i + 1)
    }
}

/// A line with its trailing carriage return stripped.
pub open spec fn trim_cr(l: Seq<u8>) -> Seq<u8> {
    if l.len() > 0 && l.last() == 13 {
        l.drop_last()
    } else {
        l
    }
}

/// The lines of a byte text: split at line feeds, each line stripped of a
/// trailing carriage return; a final line without a line feed still counts,
/// an empty tail after the last line feed does not.
pub open spec fn lines_of(s: Seq<u8>) -> Seq<Seq<u8>>
    decreases s.len(),
{
    if s.len() == 0 {
        Seq::empty()
    } else {
        let j = find_nl(s, 0);
        if 0 <= j < s.len() {
            seq![trim_cr(s.take(j))] + lines_of(s.subrange(j + 1, s.len() as int))
        } else {
            seq![trim_cr(s)]
        }
    }
}

/// The decoded form of a whole file.
pub struct IgcReader {
    /// Every position record, in file order.
    pub track: Vec<FlightPoint>,
    /// The date of the last valid date header, or the sentinel.
    pub date: Date,
    /// The payload of the last integrity-check line, or empty.
    pub check: Vec<u8>,
}

impl IgcReader {
    /// Digit value of the byte at `i` of the line; zero past the end or on a
    /// non-digit.
    fn rd(l: &Vec<u8>, i: usize) -> (d: u8)
        ensures
            d as int == spec_dig(l@, i as int),
            d <= 9,
    {
        if i < l.len() {
            let b = l[i];
            if 48 <= b && b <= 57 {
                b - 48
            } else {
                0
            }
        } else {
            0
        }
    }

    /// Two-digit field starting at `i`.
    fn rd2(l: &Vec<u8>, i: usize) -> (d: u32)
        requires
            i + 1 <= usize::MAX,
        ensures
            d as int == spec_two(l@, i as int),
            d <= 99,
    {
        10 * (Self::rd(l, i) as u32) + (Self::rd(l, i + 1) as u32)
    }

    /// Five-digit field starting at `i`.
    fn rd5(l: &Vec<u8>, i: usize) -> (d: u32)
        requires
            i + 4 <= usize::MAX,
        ensures
            d as int == spec_five(l@, i as int),
            d <= 99999,
    {
        10000 * (Self::rd(l, i) as u32) + 1000 * (Self::rd(l, i + 1) as u32) + 100 * (Self::rd(
            l,
            i + 2,
        ) as u32) + 10 * (Self::rd(l, i + 3) as u32) + (Self::rd(l, i + 4) as u32)
    }

    /// The byte at `i`, or an ASCII `0` past the end.
    fn bt(l: &Vec<u8>, i: usize) -> (b: u8)
        ensures
            b == byte_at(l@, i as int),
    {
        if i < l.len() {
            l[i]
        } else {
            48
        }
    }

    /// Decodes one position record. Never fails: absent or malformed fields
    /// decode as zeroes, and an impossible time of day becomes zero.
    pub fn process_record(line: &Vec<u8>) -> (p: FlightPoint)
        ensures
            p == record_sample(line@),
            p.wf(),
    {
        let h = Self::rd2(line, 1);
        let m = Self::rd2(line, 3);
        let s = Self::rd2(line, 5);
        let time: u32 = if h <= 23 && m <= 59 && s <= 59 {
            3600 * h + 60 * m + s
        } else {
            0
        };

        let lat_mag: u32 = 60000 * Self::rd2(line, 7) + 1000 * Self::rd2(line, 9) + 100 * (
        Self::rd(line, 11) as u32) + 10 * (Self::rd(line, 12) as u32) + (Self::rd(
            line,
            13,
        ) as u32);
        let lat_hemi = Self::bt(line, 14);
        let lat: i32 = if lat_hemi == 83 || lat_hemi == 87 {
            -(lat_mag as i32)
        } else {
            lat_mag as i32
        };

        let long_deg: u32 = 100 * (Self::rd(line, 15) as u32) + 10 * (Self::rd(line, 16) as u32) + (
        Self::rd(line, 17) as u32);
        let long_mag: u32 = 60000 * long_deg + 1000 * Self::rd2(line, 18) + 100 * (Self::rd(
            line,
            20,
        ) as u32) + 10 * (Self::rd(line, 21) as u32) + (Self::rd(line, 22) as u32);
        let long_hemi = Self::bt(line, 23);
        let long: i32 = if long_hemi == 83 || long_hemi == 87 {
            -(long_mag as i32)
        } else {
            long_mag as i32
        };

        let alt = Self::rd5(line, 25);
        let alt_gps = Self::rd5(line, 30);

        FlightPoint { time, lat, long, alt, alt_gps }
    }

    /// Digit value at the cursor, advancing it while it is inside the line;
    /// reads past the end yield zero and leave the cursor in place.
    fn next_digit(l: &Vec<u8>, j: &mut usize) -> (d: u8)
        requires
            *old(j) <= l@.len(),
        ensures
            d as int == spec_dig(l@, *old(j) as int),
            *final(j) == if *old(j) < l@.len() {
                *old(j) + 1
            } else {
                *old(j) as int
            },
            d <= 9,
    {
        if *j < l.len() {
            let b = l[*j];
            *j = *j + 1;
            if 48 <= b && b <= 57 {
                b - 48
            } else {
                0
            }
        } else {
            0
        }
    }

    /// Decodes the date of a header line, skipping ahead to its first digit;
    /// yields nothing when the six digits make no calendar date.
    pub fn process_date(line: &Vec<u8>) -> (d: Option<Date>)
        ensures
            d == spec_line_date(line@),
    {
        let mut k: usize = 0;
        while k < line.len() && !(48 <= line[k] && line[k] <= 57)
            invariant
                0 <= k <= line@.len(),
                first_digit(line@, 0) == first_digit(line@, k as int),
            decreases line@.len() - k,
        {
            k = k + 1;
        }
        assert(first_digit(line@, 0) == k as int || first_digit(line@, 0) == line@.len());
        let ghost fd = first_digit(line@, 0);
        let mut j: usize = k;
        let d0 = Self::next_digit(line, &mut j);
        let d1 = Self::next_digit(line, &mut j);
        let d2 = Self::next_digit(line, &mut j);
        let d3 = Self::next_digit(line, &mut j);
        let d4 = Self::next_digit(line, &mut j);
        let d5 = Self::next_digit(line, &mut j);
        assert(d0 as int == spec_dig(line@, fd) && d1 as int == spec_dig(line@, fd + 1) && d2
            as int == spec_dig(line@, fd + 2) && d3 as int == spec_dig(line@, fd + 3) && d4
            as int == spec_dig(line@, fd + 4) && d5 as int == spec_dig(line@, fd + 5));
        let day: u32 = 10 * (d0 as u32) + (d1 as u32);
        let month: u32 = 10 * (d2 as u32) + (d3 as u32);
        let year: u32 = 2000 + 10 * (d4 as u32) + (d5 as u32);
        if 1 <= month && month <= 12 && 1 <= day && day <= days_in_month(year, month) {
            Some(Date { year, month, day })
        } else {
            None
        }
    }

    /// Applies one line to the decoder state: a position record extends the
    /// trace, a date header with a valid date replaces the date, a check
    /// line replaces the check payload, anything else changes nothing.
    fn apply_line(
        line: &Vec<u8>,
        track: &mut Vec<FlightPoint>,
        date: &mut Date,
        check: &mut Vec<u8>,
    )
        ensures
            final(track)@ == if is_b_line(line@) {
                old(track)@.push(record_sample(line@))
            } else {
                old(track)@
            },
            *final(date) == if is_date_line(line@) && spec_line_date(line@) is Some {
                spec_line_date(line@)->Some_0
            } else {
                *old(date)
            },
            final(check)@ == if is_g_line(line@) {
                line@.subrange(1, line@.len() as int)
            } else {
                old(check)@
            },
            is_b_line(line@) ==> record_sample(line@).wf(),
    {
        if line.len() > 0 && line[0] == 66 {
            let p = Self::process_record(line);
            track.push(p);
        } else if line.len() >= 5 && line[0] == 72 && line[1] == 70 && line[2] == 68 && line[3]
            == 84 && line[4] == 69 {
            if let Some(d) = Self::process_date(line) {
                *date = d;
            }
        } else if line.len() > 0 && line[0] == 71 {
            let mut payload: Vec<u8> = Vec::new();
            let mut i: usize = 1;
            while i < line.len()
                invariant
                    1 <= i <= line@.len(),
                    payload@ == line@.subrange(1, i as int),
                decreases line@.len() - i,
            {
                payload.push(line[i]);
                i = i + 1;
            }
            assert(payload@ =~= line@.subrange(1, line@.len() as int));
            *check = payload;
        }
    }

    /// Decodes a whole file: every position record in order, the date of the
    /// last valid date header, the payload of the last check line. Lines of
    /// other kinds, and malformed fields, are tolerated without failure.
    pub fn read(raw: &Vec<u8>) -> (r: IgcReader)
        ensures
            r.track@ == trace_of(lines_of(raw@)),
            r.date == date_of(lines_of(raw@)),
            r.check@ == check_of(lines_of(raw@)),
            wf_trace(r.track@),
    {
        let ghost ls = lines_of(raw@);
        let mut track: Vec<FlightPoint> = Vec::new();
        let mut date = Date::default_date();
        let mut check: Vec<u8> = Vec::new();
        let mut buf: Vec<u8> = Vec::new();
        let ghost mut k: int = 0;
        let mut i: usize = 0;
        proof {
            assert(buf@ + raw@.skip(0) =~= raw@);
            assert(ls.take(0) + lines_of(raw@) =~= ls);
        }
        while i < raw.len()
            invariant
                0 <= k <= ls.len(),
                i <= raw@.len(),
                ls == ls.take(k) + lines_of(buf@ + raw@.skip(i as int)),
                track@ == trace_of(ls.take(k)),
                date == date_of(ls.take(k)),
                check@ == check_of(ls.take(k)),
                forall|j: int| 0 <= j < buf@.len() ==> buf@[j] != 10,
                wf_trace(track@),
            decreases raw@.len() - i,
        {
            let b = raw[i];
            if b == 10 {
                let ghost ob = buf@;
                proof {
                    assert(ob + raw@.skip(i as int) =~= ob + seq![10u8] + raw@.skip(i as int + 1));
                    lemma_lines_push(ob, raw@.skip(i as int + 1));
                }
                let mut line = buf;
                buf = Vec::new();
                if line.len() > 0 && line[line.len() - 1] == 13 {
                    let _tail = line.pop();
                }
                assert(line@ == trim_cr(ob));
                Self::apply_line(&line, &mut track, &mut date, &mut check);
                proof {
                    assert(ls[k] == trim_cr(ob));
                    k = k + 1;
                    assert(ls.take(k).drop_last() =~= ls.take(k - 1));
                    assert(ls.take(k).last() == trim_cr(ob));
                    assert(ls =~= ls.take(k) + lines_of(buf@ + raw@.skip(i as int + 1)));
                }
            } else {
                let ghost ob = buf@;
                buf.push(b);
                proof {
                    assert(buf@ + raw@.skip(i as int + 1) =~= ob + raw@.skip(i as int));
                }
            }
            i = i + 1;
        }
        assert(raw@.skip(i as int) =~= Seq::<u8>::empty());
        if buf.len() > 0 {
            let ghost ob = buf@;
            proof {
                assert(ob + raw@.skip(i as int) =~= ob);
                lemma_lines_last(ob);
                assert(ls[k] == trim_cr(ob));
            }
            let mut line = buf;
            if line.len() > 0 && line[line.len() - 1] == 13 {
                let _tail = line.pop();
            }
            assert(line@ == trim_cr(ob));
            Self::apply_line(&line, &mut track, &mut date, &mut check);
            proof {
                k = k + 1;
                assert(ls.take(k).drop_last() =~= ls.take(k - 1));
                assert(ls.take(k).last() == trim_cr(ob));
                assert(ls.take(k) =~= ls);
            }
        } else {
            proof {
                assert(buf@ + raw@.skip(i as int) =~= Seq::<u8>::empty());
                assert(ls.take(k) =~= ls);
            }
        }
        IgcReader { track, date, check }
    }
}

/// Decimal digit of `v` at the power `p` of ten.
pub open spec fn d_of(v: int, p: int) -> int {
    (v / p) % 10
}

/// The ASCII byte of a decimal digit.
pub open spec fn dbyte(d: int) -> u8 {
    (48 + d) as u8
}

/// A sample every field of which fits the fixed widths of a position
/// record: a time of day, coordinates whose minutes are below sixty, and
/// five-digit altitudes. Every sample decoded from a well-formed record
/// line is of this kind.
pub open spec fn encodable(p: FlightPoint) -> bool {
    &&& p.time < 86400
    &&& -5_999_999 <= p.lat <= 5_999_999
    &&& -59_999_999 <= p.long <= 59_999_999
    &&& p.alt <= 99_999
    &&& p.alt_gps <= 99_999
}

/// The byte at position `i` of the position record encoding the sample:
/// the record tag, six time digits, the latitude as degrees, minutes,
/// thousandths and hemisphere, the longitude likewise, a validity byte,
/// and the two five-digit altitudes.
pub open spec fn enc_byte(p: FlightPoint, i: int) -> u8 {
    let t = p.time as int;
    let alat: int = if p.lat < 0 {
        -(p.lat as int)
    } else {
        p.lat as int
    };
    let along: int = if p.long < 0 {
        -(p.long as int)
    } else {
        p.long as int
    };
    if i == 0 {
        66
    } else if i == 1 {
        dbyte(d_of(t / 3600, 10))
    } else if i == 2 {
        dbyte(d_of(t / 3600, 1))
    } else if i == 3 {
        dbyte(d_of((t / 60) % 60, 10))
    } else if i == 4 {
        dbyte(d_of((t / 60) % 60, 1))
    } else if i == 5 {
        dbyte(d_of(t % 60, 10))
    } else if i == 6 {
        dbyte(d_of(t % 60, 1))
    } else if i == 7 {
        dbyte(d_of(alat / 60000, 10))
    } else if i == 8 {
        dbyte(d_of(alat / 60000, 1))
    } else if i == 9 {
        dbyte(d_of((alat % 60000) / 1000, 10))
    } else if i == 10 {
        dbyte(d_of((alat % 60000) / 1000, 1))
    } else if i == 11 {
        dbyte(d_of(alat % 1000, 100))
    } else if i == 12 {
        dbyte(d_of(alat % 1000, 10))
    } else if i == 13 {
        dbyte(d_of(alat % 1000, 1))
    } else if i == 14 {
        if p.lat < 0 {
            83
        } else {
            78
        }
    } else if i == 15 {
        dbyte(d_of(along / 60000, 100))
    } else if i == 16 {
        dbyte(d_of(along / 60000, 10))
    } else if i == 17 {
        dbyte(d_of(along / 60000, 1))
    } else if i == 18 {
        dbyte(d_of((along % 60000) / 1000, 10))
    } else if i == 19 {
        dbyte(d_of((along % 60000) / 1000, 1))
    } else if i == 20 {
        dbyte(d_of(along % 1000, 100))
    } else if i == 21 {
        dbyte(d_of(along % 1000, 10))
    } else if i == 22 {
        dbyte(d_of(along % 1000, 1))
    } else if i == 23 {
        if p.long < 0 {
            87
        } else {
            69
        }
    } else if i == 24 {
        65
    } else if i == 25 {
        dbyte(d_of(p.alt as int, 10000))
    } else if i == 26 {
        dbyte(d_of(p.alt as int, 1000))
    } else if i == 27 {
        dbyte(d_of(p.alt as int, 100))
    } else if i == 28 {
        dbyte(d_of(p.alt as int, 10))
    } else if i == 29 {
        dbyte(d_of(p.alt as int, 1))
    } else if i == 30 {
        dbyte(d_of(p.alt_gps as int, 10000))
    } else if i == 31 {
        dbyte(d_of(p.alt_gps as int, 1000))
    } else if i == 32 {
        dbyte(d_of(p.alt_gps as int, 100))
    } else if i == 33 {
        dbyte(d_of(p.alt_gps as int, 10))
    } else {
        dbyte(d_of(p.alt_gps as int, 1))
    }
}

/// The position record line encoding a sample, 35 bytes.
pub open spec fn spec_encode_record(p: FlightPoint) -> Seq<u8> {
    Seq::new(35, |i: int| enc_byte(p, i))
}

/// Two-digit decomposition.
proof fn lemma_digits2(v: int)
    by (nonlinear_arith)
    requires
        0 <= v < 100,
    ensures
        10 * ((v / 10) % 10) + v % 10 == v,
{
}

/// Three-digit decomposition.
proof fn lemma_digits3(v: int)
    by (nonlinear_arith)
    requires
        0 <= v < 1000,
    ensures
        100 * ((v / 100) % 10) + 10 * ((v / 10) % 10) + v % 10 == v,
{
}

/// Five-digit decomposition.
proof fn lemma_digits5(v: int)
    by (nonlinear_arith)
    requires
        0 <= v < 100000,
    ensures
        10000 * ((v / 10000) % 10) + 1000 * ((v / 1000) % 10) + 100 * ((v / 100) % 10) + 10 * ((v
            / 10) % 10) + v % 10 == v,
{
}

/// A time of day splits into hours, minutes and seconds and back.
proof fn lemma_time_split(t: int)
    by (nonlinear_arith)
    requires
        0 <= t < 86400,
    ensures
        3600 * (t / 3600) + 60 * ((t / 60) % 60) + t % 60 == t,
        t / 3600 <= 23,
        (t / 60) % 60 <= 59,
        t % 60 <= 59,
{
}

/// A coordinate magnitude splits into degrees, minutes and thousandths and
/// back.
proof fn lemma_coord_split(v: int)
    by (nonlinear_arith)
    requires
        0 <= v,
    ensures
        60000 * (v / 60000) + 1000 * ((v % 60000) / 1000) + v % 1000 == v,
        (v % 60000) / 1000 <= 59,
        v % 1000 <= 999,
        v < 6_000_000 ==> v / 60000 <= 99,
        v < 60_000_000 ==> v / 60000 <= 999,
{
}

/// Round trip: a sample whose fields fit the record widths decodes back to
/// itself from its own encoding, exactly — the format's resolution is one
/// second of time and one thousandth of a minute of arc, and the sample
/// holds nothing finer.
pub proof fn lemma_decode_encode_round_trip(p: FlightPoint)
    requires
        encodable(p),
    ensures
        record_sample(spec_encode_record(p)) == p,
{
    let e = spec_encode_record(p);
    let t = p.time as int;
    let alat: int = if p.lat < 0 {
        -(p.lat as int)
    } else {
        p.lat as int
    };
    let along: int = if p.long < 0 {
        -(p.long as int)
    } else {
        p.long as int
    };
    lemma_time_split(t);
    lemma_digits2(t / 3600);
    lemma_digits2((t / 60) % 60);
    lemma_digits2(t % 60);
    assert(spec_two(e, 1) == t / 3600);
    assert(spec_two(e, 3) == (t / 60) % 60);
    assert(spec_two(e, 5) == t % 60);
    assert(spec_rec_time(e) == t);

    lemma_coord_split(alat);
    lemma_digits2(alat / 60000);
    lemma_digits2((alat % 60000) / 1000);
    lemma_digits3(alat % 1000);
    assert(spec_two(e, 7) == alat / 60000);
    assert(spec_two(e, 9) == (alat % 60000) / 1000);
    assert(100 * spec_dig(e, 11) + 10 * spec_dig(e, 12) + spec_dig(e, 13) == alat % 1000);
    assert(spec_rec_lat(e) == p.lat as int);

    lemma_coord_split(along);
    lemma_digits3(along / 60000);
    lemma_digits2((along % 60000) / 1000);
    lemma_digits3(along % 1000);
    assert(spec_three(e, 15) == along / 60000);
    assert(spec_two(e, 18) == (along % 60000) / 1000);
    assert(100 * spec_dig(e, 20) + 10 * spec_dig(e, 21) + spec_dig(e, 22) == along % 1000);
    assert(spec_rec_long(e) == p.long as int);

    lemma_digits5(p.alt as int);
    lemma_digits5(p.alt_gps as int);
    assert(spec_five(e, 25) == p.alt as int);
    assert(spec_five(e, 30) == p.alt_gps as int);
}

/// Encodes a sample back into a 35-byte position record, the inverse of
/// `IgcReader::process_record` on well-formed records; the validity byte,
/// which decoding reads past, is written as `A`.
#[verifier::rlimit(100)]
pub fn encode_record(p: &FlightPoint) -> (line: Vec<u8>)
    requires
        encodable(*p),
    ensures
        line@ == spec_encode_record(*p),
{
    let t: u32 = p.time;
    let alat: u32 = if p.lat < 0 {
        (-p.lat) as u32
    } else {
        p.lat as u32
    };
    let along: u32 = if p.long < 0 {
        (-p.long) as u32
    } else {
        p.long as u32
    };
    let ghost es = spec_encode_record(*p);
    let mut line: Vec<u8> = Vec::new();
    line.push(66);
    assert(line@ =~= es.take(1));
    line.push(48 + ((t / 3600) / 10 % 10) as u8);
    assert(line@ =~= es.take(2));
    line.push(48 + ((t / 3600) % 10) as u8);
    assert(line@ =~= es.take(3));
    line.push(48 + (((t / 60) % 60) / 10 % 10) as u8);
    assert(line@ =~= es.take(4));
    line.push(48 + (((t / 60) % 60) % 10) as u8);
    assert(line@ =~= es.take(5));
    line.push(48 + ((t % 60) / 10 % 10) as u8);
    assert(line@ =~= es.take(6));
    line.push(48 + ((t % 60) % 10) as u8);
    assert(line@ =~= es.take(7));
    line.push(48 + ((alat / 60000) / 10 % 10) as u8);
    assert(line@ =~= es.take(8));
    line.push(48 + ((alat / 60000) % 10) as u8);
    assert(line@ =~= es.take(9));
    line.push(48 + (((alat % 60000) / 1000) / 10 % 10) as u8);
    assert(line@ =~= es.take(10));
    line.push(48 + (((alat % 60000) / 1000) % 10) as u8);
    assert(line@ =~= es.take(11));
    line.push(48 + ((alat % 1000) / 100 % 10) as u8);
    assert(line@ =~= es.take(12));
    line.push(48 + ((alat % 1000) / 10 % 10) as u8);
    assert(line@ =~= es.take(13));
    line.push(48 + ((alat % 1000) % 10) as u8);
    assert(line@ =~= es.take(14));
    line.push(if p.lat < 0 {
        83
    } else {
        78
    });
    assert(line@ =~= es.take(15));
    line.push(48 + ((along / 60000) / 100 % 10) as u8);
    assert(line@ =~= es.take(16));
    line.push(48 + ((along / 60000) / 10 % 10) as u8);
    assert(line@ =~= es.take(17));
    line.push(48 + ((along / 60000) % 10) as u8);
    assert(line@ =~= es.take(18));
    line.push(48 + (((along % 60000) / 1000) / 10 % 10) as u8);
    assert(line@ =~= es.take(19));
    line.push(48 + (((along % 60000) / 1000) % 10) as u8);
    assert(line@ =~= es.take(20));
    line.push(48 + ((along % 1000) / 100 % 10) as u8);
    assert(line@ =~= es.take(21));
    line.push(48 + ((along % 1000) / 10 % 10) as u8);
    assert(line@ =~= es.take(22));
    line.push(48 + ((along % 1000) % 10) as u8);
    assert(line@ =~= es.take(23));
    line.push(if p.long < 0 {
        87
    } else {
        69
    });
    assert(line@ =~= es.take(24));
    line.push(65);
    assert(line@ =~= es.take(25));
    line.push(48 + (p.alt / 10000 % 10) as u8);
    assert(line@ =~= es.take(26));
    line.push(48 + (p.alt / 1000 % 10) as u8);
    assert(line@ =~= es.take(27));
    line.push(48 + (p.alt / 100 % 10) as u8);
    assert(line@ =~= es.take(28));
    line.push(48 + (p.alt / 10 % 10) as u8);
    assert(line@ =~= es.take(29));
    line.push(48 + (p.alt % 10) as u8);
    assert(line@ =~= es.take(30));
    line.push(48 + (p.alt_gps / 10000 % 10) as u8);
    assert(line@ =~= es.take(31));
    line.push(48 + (p.alt_gps / 1000 % 10) as u8);
    assert(line@ =~= es.take(32));
    line.push(48 + (p.alt_gps / 100 % 10) as u8);
    assert(line@ =~= es.take(33));
    line.push(48 + (p.alt_gps / 10 % 10) as u8);
    assert(line@ =~= es.take(34));
    line.push(48 + (p.alt_gps % 10) as u8);
    assert(line@ =~= es.take(35));
    assert(line@ =~= es);
    line
}


/// With no line feed in `buf`, the first line of `buf`, a line feed, then
/// `rest` is `buf` trimmed, and the remaining lines are those of `rest`.
proof fn lemma_lines_push(buf: Seq<u8>, rest: Seq<u8>)
    requires
        forall|j: int| 0 <= j < buf.len() ==> buf[j] != 10,
    ensures
        lines_of(buf + seq![10u8] + rest) == seq![trim_cr(buf)] + lines_of(rest),
{
    let s = buf + seq![10u8] + rest;
    lemma_find_nl_at(s, 0, buf.len() as int);
    assert(s.take(buf.len() as int) =~= buf);
    assert(s.subrange(buf.len() as int + 1, s.len() as int) =~= rest);
}

/// With no line feed in a non-empty `buf`, it is its own single line.
proof fn lemma_lines_last(buf: Seq<u8>)
    requires
        buf.len() > 0,
        forall|j: int| 0 <= j < buf.len() ==> buf[j] != 10,
    ensures
        lines_of(buf) == seq![trim_cr(buf)],
{
    lemma_find_nl_at(buf, 0, buf.len() as int);
}

/// `find_nl` lands on `n` when no line feed comes before it and `n` is a
/// line feed or the end.
proof fn lemma_find_nl_at(s: Seq<u8>, i: int, n: int)
    requires
        0 <= i <= n <= s.len(),
        forall|j: int| i <= j < n ==> s[j] != 10,
        n == s.len() || s[n] == 10,
    ensures
        find_nl(s, i) == n,
    decreases n - i,
{
    if i < n {
        lemma_find_nl_at(s, i + 1, n);
    }
}

} // verus!
