//! Decoder behaviour: exact field values, graceful degradation, and the
//! encode round trip.

use flightlog::igc::IgcReader;
use flightlog::igc::encode_record;
use flightlog::point::Date;
use flightlog::point::FlightPoint;

fn bytes(s: &str) -> Vec<u8> {
    s.as_bytes().to_vec()
}

#[test]
fn decodes_a_position_record_exactly() {
    let line = bytes("B1012354607959N00609573EA0123402345");
    let p = IgcReader::process_record(&line);
    assert_eq!(p.time, 10 * 3600 + 12 * 60 + 35);
    assert_eq!(p.lat, 46 * 60000 + 7959);
    assert_eq!(p.long, 6 * 60000 + 9573);
    assert_eq!(p.alt, 1234);
    assert_eq!(p.alt_gps, 2345);
}

#[test]
fn southern_and_western_hemispheres_negate() {
    let line = bytes("B0000001230000S04530000WA0000000000");
    let p = IgcReader::process_record(&line);
    assert_eq!(p.lat, -(12 * 60000 + 30000));
    assert_eq!(p.long, -(45 * 60000 + 30000));
}

#[test]
fn malformed_fields_decode_as_zero() {
    // non-digits and a short line degrade field by field, never failing
    let line = bytes("Bxxyyzz");
    let p = IgcReader::process_record(&line);
    assert_eq!(p.time, 0);
    assert_eq!(p.lat, 0);
    assert_eq!(p.long, 0);
    assert_eq!(p.alt, 0);
    assert_eq!(p.alt_gps, 0);
}

#[test]
fn impossible_time_falls_back_to_zero() {
    // 25:99:99 is no time of day
    let line = bytes("B2599994607959N00609573EA0123402345");
    let p = IgcReader::process_record(&line);
    assert_eq!(p.time, 0);
    assert_eq!(p.lat, 46 * 60000 + 7959);
}

#[test]
fn encode_round_trip_reproduces_the_record() {
    let line = bytes("B1012354607959N00609573EA0123402345");
    let p = IgcReader::process_record(&line);
    let encoded = encode_record(&p);
    assert_eq!(encoded, line);
}

#[test]
fn encode_round_trip_keeps_negative_coordinates() {
    let line = bytes("B2359591230057S04530999WA9999900000");
    let p = IgcReader::process_record(&line);
    let encoded = encode_record(&p);
    assert_eq!(encoded, line);
    let again = IgcReader::process_record(&encoded);
    assert_eq!(again, p);
}

#[test]
fn reads_date_header() {
    let text = bytes("HFDTE250323\nB1012354607959N00609573EA0123402345\n");
    let r = IgcReader::read(&text);
    assert_eq!(r.date, Date { year: 2023, month: 3, day: 25 });
    assert_eq!(r.track.len(), 1);
}

#[test]
fn date_header_skips_a_malformed_prefix() {
    let text = bytes("HFDTEDATE:250323\n");
    let r = IgcReader::read(&text);
    assert_eq!(r.date, Date { year: 2023, month: 3, day: 25 });
}

#[test]
fn invalid_date_keeps_the_sentinel() {
    // month 13 is no calendar month; the sentinel date stays
    let text = bytes("HFDTE321323\n");
    let r = IgcReader::read(&text);
    assert_eq!(r.date, Date { year: 0, month: 1, day: 1 });
}

#[test]
fn leap_day_is_accepted_only_in_leap_years() {
    let leap = IgcReader::read(&bytes("HFDTE290224\n"));
    assert_eq!(leap.date, Date { year: 2024, month: 2, day: 29 });
    let not_leap = IgcReader::read(&bytes("HFDTE290223\n"));
    assert_eq!(not_leap.date, Date { year: 0, month: 1, day: 1 });
}

#[test]
fn last_valid_date_header_wins() {
    let text = bytes("HFDTE250323\nHFDTE260323\n");
    let r = IgcReader::read(&text);
    assert_eq!(r.date, Date { year: 2023, month: 3, day: 26 });
}

#[test]
fn missing_integrity_line_yields_empty_hash() {
    let text = bytes("HFDTE250323\nB1012354607959N00609573EA0123402345\n");
    let r = IgcReader::read(&text);
    assert_eq!(r.check, Vec::<u8>::new());
}

#[test]
fn integrity_line_payload_is_kept_verbatim() {
    let text = bytes("B1012354607959N00609573EA0123402345\nGABCDEF123\n");
    let r = IgcReader::read(&text);
    assert_eq!(r.check, b"ABCDEF123".to_vec());
}

#[test]
fn unrecognized_lines_are_ignored() {
    let text = bytes(
        "AXCT Manufacturer\r\nHFDTE010120\r\nLPLTsome comment\r\nB1000004600000N00600000EA0100001000\r\nGdeadbeef\r\n",
    );
    let r = IgcReader::read(&text);
    assert_eq!(r.track.len(), 1);
    assert_eq!(r.date, Date { year: 2020, month: 1, day: 1 });
    assert_eq!(r.check, b"deadbeef".to_vec());
}

#[test]
fn carriage_returns_are_stripped() {
    let text = bytes("Gpayload\r");
    let r = IgcReader::read(&text);
    assert_eq!(r.check, b"payload".to_vec());
}

#[test]
fn records_appear_in_file_order() {
    let text = bytes(
        "B1000004600000N00600000EA0100001000\nB1000014600100N00600100EA0100101001\n",
    );
    let r = IgcReader::read(&text);
    assert_eq!(r.track.len(), 2);
    assert_eq!(r.track[0].time, 10 * 3600);
    assert_eq!(r.track[1].time, 10 * 3600 + 1);
    assert!(r.track[1].lat > r.track[0].lat);
    let p = FlightPoint { time: 0, lat: 1, long: 2, alt: 3, alt_gps: 4 };
    assert_eq!(p, p);
}
