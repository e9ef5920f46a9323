//! The in-memory tables, searches, statistics, and the per-file pipeline
//! feeding the logbook.

use flightlog::logbook::Logbook;
use flightlog::logbook::Statistic;
use flightlog::point::Date;
use flightlog::point::FlightPoint;
use flightlog::tables::FlightTable;
use flightlog::tables::IDListe;
use flightlog::tables::LogbookError;
use flightlog::tables::SiteTable;
use flightlog::tables::Tag;
use flightlog::tables::TagTable;
use flightlog::tables::Wing;
use flightlog::tables::WingTable;

fn flight(hash: &str, distance: u32, duration: u32) -> FlightTable {
    FlightTable {
        flight_id: 0,
        wing_id: 0,
        takeoff_id: 0,
        landing_id: 0,
        hash: hash.as_bytes().to_vec(),
        date: Date { year: 2024, month: 6, day: 1 },
        duration,
        distance,
        score: 0,
        code: String::new(),
        track: None,
        raw_igc: None,
        profile: None,
    }
}

#[test]
fn stored_flights_get_growing_identifiers() {
    let mut rows: Vec<FlightTable> = Vec::new();
    FlightTable::store(&mut rows, flight("a", 1, 1)).unwrap();
    FlightTable::store(&mut rows, flight("b", 2, 2)).unwrap();
    assert_eq!(rows[0].flight_id, 1);
    assert_eq!(rows[1].flight_id, 2);
}

#[test]
fn duplicate_hash_is_refused() {
    let mut rows: Vec<FlightTable> = Vec::new();
    FlightTable::store(&mut rows, flight("same", 1, 1)).unwrap();
    let refused = FlightTable::store(&mut rows, flight("same", 2, 2));
    assert_eq!(refused, Err(LogbookError::DuplicateEntry));
    assert_eq!(rows.len(), 1);
}

#[test]
fn exhausted_identifier_space_is_refused() {
    let mut rows: Vec<FlightTable> = Vec::new();
    let mut top = flight("top", 1, 1);
    top.flight_id = u32::MAX;
    rows.push(top);
    let refused = FlightTable::store(&mut rows, flight("next", 2, 2));
    assert_eq!(refused, Err(LogbookError::TableFull));
    assert_eq!(rows.len(), 1);
}

#[test]
fn tag_search_is_case_insensitive() {
    let rows = vec![
        TagTable { tag_id: 1, name: String::from("Cross") },
        TagTable { tag_id: 2, name: String::from("Soaring") },
        TagTable { tag_id: 3, name: String::from("acro cross") },
    ];
    let found: IDListe = TagTable::search(&rows, "cR");
    assert_eq!(found.list, vec![1, 3]);
    let all = TagTable::select_all(&rows);
    assert_eq!(all.len(), 3);
    assert_eq!(all[1].name, "Soaring");
}

#[test]
fn site_search_matches_substrings() {
    let rows = vec![
        SiteTable {
            site_id: 7,
            name: String::from("Bisanne"),
            lat: 2_760_000,
            long: 360_000,
            alt: 1850,
            info: String::new(),
        },
        SiteTable {
            site_id: 9,
            name: String::from("Planfait"),
            lat: 2_770_000,
            long: 370_000,
            alt: 950,
            info: String::new(),
        },
    ];
    assert_eq!(SiteTable::search(&rows, "an").list, vec![7, 9]);
    assert_eq!(SiteTable::search(&rows, "BIS").list, vec![7]);
    assert_eq!(SiteTable::search(&rows, "nothing").list, Vec::<u32>::new());
}

#[test]
fn site_detection_finds_a_nearby_site() {
    let rows = vec![SiteTable {
        site_id: 4,
        name: String::from("Home"),
        lat: 2_760_000,
        long: 360_000,
        alt: 1000,
        info: String::new(),
    }];
    let here = FlightPoint { time: 0, lat: 2_760_000, long: 360_000, alt: 1000, alt_gps: 0 };
    // one degree of latitude away: far beyond the 200 m radius
    let far = FlightPoint { time: 0, lat: 2_700_000, long: 360_000, alt: 0, alt_gps: 0 };
    let (takeoff, landing) = SiteTable::site_detection(&rows, &here, &far);
    assert_eq!(takeoff, Some(4));
    assert_eq!(landing, None);
}

#[test]
fn default_wing_management() {
    let mut rows: Vec<WingTable> = Vec::new();
    WingTable::store(
        &mut rows,
        WingTable { wing_id: 0, name: String::from("Alpha"), info: String::new(), def: false },
    )
    .unwrap();
    WingTable::store(
        &mut rows,
        WingTable { wing_id: 0, name: String::from("Beta"), info: String::new(), def: true },
    )
    .unwrap();
    let def = WingTable::get_default_wing(&rows).unwrap();
    assert_eq!(def.name, "Beta");
    WingTable::set_default_wing(&mut rows, None, Some(String::from("Alpha")));
    let def = WingTable::get_default_wing(&rows).unwrap();
    assert_eq!(def.name, "Alpha");
    let dup = WingTable::store(
        &mut rows,
        WingTable { wing_id: 0, name: String::from("Beta"), info: String::new(), def: false },
    );
    assert_eq!(dup, Err(LogbookError::DuplicateEntry));
    assert_eq!(WingTable::select_all(&rows).len(), 2);
}

#[test]
fn statistics_sum_and_rank_flights() {
    let rows = vec![
        flight("one", 10_000, 60),
        flight("two", 50_000, 120),
        flight("three", 30_000, 30),
        flight("four", 40_000, 45),
    ];
    let s = rows.statistic();
    assert_eq!(s.nb_flight, 4);
    assert_eq!(s.duration, 60 + 120 + 30 + 45);
    assert_eq!(s.tot_distance, 10_000 + 50_000 + 30_000 + 40_000);
    assert_eq!(s.best_flight.len(), 3);
    assert_eq!(s.best_flight[0].distance, 50_000);
    assert_eq!(s.best_flight[1].distance, 40_000);
    assert_eq!(s.best_flight[2].distance, 30_000);
}

#[test]
fn loading_a_file_fills_the_logbook() {
    let mut lb = Logbook::create();
    let text = b"HFDTE150624\n\
        B1000004607000N00609000EA0100001000\n\
        B1001004608000N00610000EA0105001050\n\
        B1002004609000N00611000EA0110001100\n\
        B1003004610000N00612000EA0115001150\n\
        B1004004611000N00613000EA0120001200\n\
        B1005004612000N00614000EA0125001250\n\
        Gdeadbeef\n"
        .to_vec();
    lb.load_and_store(text, 12345, String::from("tri")).unwrap();
    assert_eq!(lb.flights.len(), 1);
    let row = &lb.flights[0];
    assert_eq!(row.flight_id, 1);
    assert_eq!(row.hash, b"deadbeef".to_vec());
    assert_eq!(row.date, Date { year: 2024, month: 6, day: 15 });
    assert_eq!(row.score, 12345);
    assert_eq!(row.code, "tri");
    assert_eq!(row.wing_id, 0);
    // unknown takeoff and landing sites were created
    assert_eq!(lb.sites.len(), 2);
    assert_eq!(lb.sites[0].name, "Unknown");
    assert_eq!(row.takeoff_id, lb.sites[0].site_id);
    assert_eq!(row.landing_id, lb.sites[1].site_id);
}

#[test]
fn one_bad_file_does_not_poison_the_logbook() {
    let mut lb = Logbook::create();
    let good = b"B1000004607000N00609000EA0100001000\n\
        B1010004608000N00610000EA0100001000\nGgood\n"
        .to_vec();
    lb.load_and_store(good.clone(), 1, String::new()).unwrap();
    // the same file again: its hash is already stored
    let again = lb.load_and_store(good, 1, String::new());
    assert_eq!(again, Err(LogbookError::DuplicateEntry));
    // and the logbook still takes the next file
    let other = b"B1000004600000N00600000EA0100001000\n\
        B1010004601000N00601000EA0100001000\nGother\n"
        .to_vec();
    lb.load_and_store(other, 2, String::new()).unwrap();
    assert_eq!(lb.flights.len(), 2);
}

#[test]
fn missing_default_wing_changes_nothing() {
    let mut lb = Logbook::create();
    lb.wings.clear();
    let text = b"B1000004600000N00600000EA0100001000\nGx\n".to_vec();
    let refused = lb.load_and_store(text, 0, String::new());
    assert_eq!(refused, Err(LogbookError::MissingEntry));
    assert_eq!(lb.flights.len(), 0);
    assert_eq!(lb.sites.len(), 0);
}

#[test]
fn empty_file_stores_an_empty_flight() {
    let mut lb = Logbook::create();
    lb.load_and_store(Vec::new(), 0, String::new()).unwrap();
    assert_eq!(lb.flights.len(), 1);
    assert_eq!(lb.flights[0].duration, 0);
    assert_eq!(lb.flights[0].distance, 0);
    assert_eq!(lb.flights[0].hash, Vec::<u8>::new());
    assert_eq!(lb.sites.len(), 0);
}

#[test]
fn id_lists_render_as_query_fragments() {
    let ids = IDListe { list: vec![1, 22, 333] };
    assert_eq!(ids.to_string(), "(1,22,333)");
    let one = IDListe { list: vec![40700] };
    assert_eq!(one.to_string(), "(40700)");
    // popping the separator of an empty list leaves only the closing one
    let none = IDListe { list: Vec::new() };
    assert_eq!(none.to_string(), ")");
}

#[test]
fn plain_model_types_hold_their_fields() {
    let tag = Tag { id: 1, name: String::from("Cross") };
    let wing = Wing {
        id: 2,
        name: String::from("Savage"),
        info: String::from("Very cool"),
        default: Some(true),
    };
    assert_eq!(tag.name, "Cross");
    assert_eq!(wing.default, Some(true));
}
