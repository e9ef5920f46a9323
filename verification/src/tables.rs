//! The logbook's tables, held in memory as vectors of plain rows with the
//! invariants the storage layer's schema would otherwise enforce: row
//! identifiers grow from the largest one present, a flight's hash and a
//! wing's name stay unique. The persistence layer mirrors these rows.

use vstd::prelude::*;

use crate::geo::distance_meters;
use crate::geo::geo_distance;
use crate::point::Date;
use crate::point::FlightPoint;
use crate::text::matches_name;
use crate::text::name_matches;

verus! {

/// Radius in meters within which a sample counts as at a known site.
pub const DISTANCE_DETECTION: u64 = 200;

/// Why a table refused an operation.
#[derive(Clone, Copy, Debug, PartialEq, Eq, Structural)]
pub enum LogbookError {
    /// A unique column already holds the value.
    DuplicateEntry,
    /// A row the operation needs is not there.
    MissingEntry,
    /// No row identifier is left.
    TableFull,
}

/// A list of row identifiers, as searches return it.
#[derive(Debug)]
pub struct IDListe {
    /// The identifiers, in table order.
    pub list: Vec<u32>,
}

/// The character of a decimal digit.
pub open spec fn digit_char(d: int) -> char {
    if d == 0 {
        '0'
    } else if d == 1 {
        '1'
    } else if d == 2 {
        '2'
    } else if d == 3 {
        '3'
    } else if d == 4 {
        '4'
    } else if d == 5 {
        '5'
    } else if d == 6 {
        '6'
    } else if d == 7 {
        '7'
    } else if d == 8 {
        '8'
    } else {
        '9'
    }
}

/// The decimal digits of a number, most significant first.
pub open spec fn dec_chars(n: int) -> Seq<char>
    decreases n,
{
    if n < 10 {
        seq![digit_char(n)]
    } else {
        dec_chars(n / 10).push(digit_char(n % 10))
    }
}

/// The identifiers joined by commas between the separators `(` and `)`.
/// An empty list gives `)` alone: the closing separator replaces the last
/// comma, and with nothing in the list it replaces the opening one.
pub open spec fn ids_chars(list: Seq<u32>) -> Seq<char> {
    if list.len() == 0 {
        seq![')']
    } else {
        seq!['('] + ids_inner(list) + seq![')']
    }
}

/// The identifiers joined by commas.
pub open spec fn ids_inner(list: Seq<u32>) -> Seq<char>
    decreases list.len(),
{
    if list.len() <= 1 {
        dec_chars(first_or_zero(list))
    } else {
        ids_inner(list.drop_last()) + seq![','] + dec_chars(list.last() as int)
    }
}

/// The single identifier of a one-element list; zero elsewhere, unused.
pub open spec fn first_or_zero(list: Seq<u32>) -> int {
    if list.len() >= 1 {
        list[0] as int
    } else {
        0
    }
}

/// Appends one decimal digit.
fn append_digit(s: &mut String, d: u32)
    requires
        d <= 9,
    ensures
        final(s)@ == old(s)@.push(digit_char(d as int)),
{
    let ghost o = s@;
    match d {
        0 => {
            proof {
                reveal_strlit("0");
            }
            s.append("0");
        },
        1 => {
            proof {
                reveal_strlit("1");
            }
            s.append("1");
        },
        2 => {
            proof {
                reveal_strlit("2");
            }
            s.append("2");
        },
        3 => {
            proof {
                reveal_strlit("3");
            }
            s.append("3");
        },
        4 => {
            proof {
                reveal_strlit("4");
            }
            s.append("4");
        },
        5 => {
            proof {
                reveal_strlit("5");
            }
            s.append("5");
        },
        6 => {
            proof {
                reveal_strlit("6");
            }
            s.append("6");
        },
        7 => {
            proof {
                reveal_strlit("7");
            }
            s.append("7");
        },
        8 => {
            proof {
                reveal_strlit("8");
            }
            s.append("8");
        },
        _ => {
            proof {
                reveal_strlit("9");
            }
            s.append("9");
        },
    }
    assert(s@ =~= o.push(digit_char(d as int)));
}

/// Appends a number's decimal digits, most significant first.
fn append_u32(s: &mut String, n: u32)
    ensures
        final(s)@ == old(s)@ + dec_chars(n as int),
    decreases n,
{
    let ghost o = s@;
    if n >= 10 {
        append_u32(s, n / 10);
        append_digit(s, n % 10);
        assert(s@ =~= o + dec_chars(n as int));
    } else {
        append_digit(s, n);
        assert(s@ =~= o + dec_chars(n as int));
    }
}

impl IDListe {
    /// The list as the storage layer's query fragment: the identifiers in
    /// decimal between parentheses, separated by commas.
    pub fn to_string(&self) -> (s: String)
        ensures
            s@ == ids_chars(self.list@),
    {
        if self.list.len() == 0 {
            proof {
                reveal_strlit(")");
            }
            let r = String::from_str(")");
            assert(r@ =~= ids_chars(self.list@));
            return r;
        }
        proof {
            reveal_strlit("(");
            reveal_strlit(",");
        }
        let mut s = String::from_str("(");
        let mut i: usize = 0;
        while i < self.list.len()
            invariant
                0 < self.list@.len(),
                0 <= i <= self.list@.len(),
                i == 0 ==> s@ == "("@,
                i > 0 ==> s@ == seq!['('] + ids_inner(self.list@.subrange(0, i as int)),
                "("@ == seq!['('],
                ","@ == seq![','],
            decreases self.list@.len() - i,
        {
            if i > 0 {
                s.append(",");
            }
            append_u32(&mut s, self.list[i]);
            proof {
                let sub = self.list@.subrange(0, i + 1);
                assert(sub.drop_last() =~= self.list@.subrange(0, i as int));
                if i == 0 {
                    assert(sub.len() == 1);
                    assert(s@ =~= seq!['('] + ids_inner(sub));
                } else {
                    assert(s@ =~= seq!['('] + ids_inner(sub));
                }
            }
            i = i + 1;
        }
        proof {
            reveal_strlit(")");
            assert(self.list@.subrange(0, self.list@.len() as int) =~= self.list@);
        }
        s.append(")");
        assert(s@ =~= ids_chars(self.list@));
        s
    }
}

/// A tag a flight can carry.
#[derive(Debug)]
pub struct Tag {
    pub id: u32,
    pub name: String,
}

/// A wing, with an optional default mark.
#[derive(Debug)]
pub struct Wing {
    pub id: u32,
    pub name: String,
    pub info: String,
    pub default: Option<bool>,
}

/// A row of the tag table.
#[derive(Debug)]
pub struct TagTable {
    pub tag_id: u32,
    pub name: String,
}

/// A row of the wing table.
#[derive(Debug)]
pub struct WingTable {
    pub wing_id: u32,
    pub name: String,
    pub info: String,
    pub def: bool,
}

/// A row of the site table. Coordinates are in thousandths of a minute of
/// arc, as everywhere in the library.
#[derive(Debug)]
pub struct SiteTable {
    pub site_id: u32,
    pub name: String,
    pub lat: i32,
    pub long: i32,
    pub alt: u32,
    pub info: String,
}

/// A row of the flight table.
#[derive(Debug)]
pub struct FlightTable {
    pub flight_id: u32,
    pub wing_id: u32,
    pub takeoff_id: u32,
    pub landing_id: u32,
    pub hash: Vec<u8>,
    pub date: Date,
    pub duration: u32,
    pub distance: u32,
    pub score: u32,
    pub code: String,
    pub track: Option<String>,
    pub raw_igc: Option<Vec<u8>>,
    pub profile: Option<String>,
}

/// The content of a flight row, with owned text replaced by its character
/// and byte sequences: what two rows must share to count as the same.
pub struct FlightRowV {
    pub flight_id: u32,
    pub wing_id: u32,
    pub takeoff_id: u32,
    pub landing_id: u32,
    pub hash: Seq<u8>,
    pub date: Date,
    pub duration: u32,
    pub distance: u32,
    pub score: u32,
    pub code: Seq<char>,
    pub track: Option<Seq<char>>,
    pub raw_igc: Option<Seq<u8>>,
    pub profile: Option<Seq<char>>,
}

/// The content view of a flight row. Kept opaque: proofs mostly pass
/// whole views around, and reveal the definition only where a field
/// matters.
#[verifier::opaque]
pub open spec fn row_view(f: FlightTable) -> FlightRowV {
    FlightRowV {
        flight_id: f.flight_id,
        wing_id: f.wing_id,
        takeoff_id: f.takeoff_id,
        landing_id: f.landing_id,
        hash: f.hash@,
        date: f.date,
        duration: f.duration,
        distance: f.distance,
        score: f.score,
        code: f.code@,
        track: match f.track {
            Some(t) => Some(t@),
            None => None,
        },
        raw_igc: match f.raw_igc {
            Some(r) => Some(r@),
            None => None,
        },
        profile: match f.profile {
            Some(p) => Some(p@),
            None => None,
        },
    }
}

/// Copies a byte vector.
pub(crate) fn copy_bytes(v: &Vec<u8>) -> (r: Vec<u8>)
    ensures
        r@ == v@,
{
    let mut r: Vec<u8> = Vec::new();
    let mut i: usize = 0;
    while i < v.len()
        invariant
            0 <= i <= v@.len(),
            r@ == v@.subrange(0, i as int),
        decreases v@.len() - i,
    {
        r.push(v[i]);
        i = i + 1;
    }
    assert(r@ =~= v@);
    r
}

/// Whether two byte vectors hold the same bytes.
pub(crate) fn bytes_eq(a: &Vec<u8>, b: &Vec<u8>) -> (r: bool)
    ensures
        r == (a@ == b@),
{
    if a.len() != b.len() {
        assert(a@ != b@);
        return false;
    }
    let mut i: usize = 0;
    while i < a.len()
        invariant
            0 <= i <= a@.len(),
            a@.len() == b@.len(),
            forall|j: int| 0 <= j < i ==> a@[j] == b@[j],
        decreases a@.len() - i,
    {
        if a[i] != b[i] {
            return false;
        }
        i = i + 1;
    }
    assert(a@ =~= b@);
    true
}

/// Clones a flight row; the copy has the same content view.
pub fn clone_flight(f: &FlightTable) -> (r: FlightTable)
    ensures
        row_view(r) == row_view(*f),
{
    proof {
        reveal(row_view);
    }
    FlightTable {
        flight_id: f.flight_id,
        wing_id: f.wing_id,
        takeoff_id: f.takeoff_id,
        landing_id: f.landing_id,
        hash: copy_bytes(&f.hash),
        date: f.date,
        duration: f.duration,
        distance: f.distance,
        score: f.score,
        code: f.code.clone(),
        track: match &f.track {
            Some(t) => Some(t.clone()),
            None => None,
        },
        raw_igc: match &f.raw_igc {
            Some(r) => Some(copy_bytes(r)),
            None => None,
        },
        profile: match &f.profile {
            Some(p) => Some(p.clone()),
            None => None,
        },
    }
}

/// Largest flight identifier present; zero in an empty table.
pub open spec fn max_flight_id(rows: Seq<FlightTable>) -> int
    decreases rows.len(),
{
    if rows.len() == 0 {
        0
    } else if rows.last().flight_id > max_flight_id(rows.drop_last()) {
        rows.last().flight_id as int
    } else {
        max_flight_id(rows.drop_last())
    }
}

/// Largest site identifier present; zero in an empty table.
pub open spec fn max_site_id(rows: Seq<SiteTable>) -> int
    decreases rows.len(),
{
    if rows.len() == 0 {
        0
    } else if rows.last().site_id > max_site_id(rows.drop_last()) {
        rows.last().site_id as int
    } else {
        max_site_id(rows.drop_last())
    }
}

/// Largest wing identifier present; zero in an empty table.
pub open spec fn max_wing_id(rows: Seq<WingTable>) -> int
    decreases rows.len(),
{
    if rows.len() == 0 {
        0
    } else if rows.last().wing_id > max_wing_id(rows.drop_last()) {
        rows.last().wing_id as int
    } else {
        max_wing_id(rows.drop_last())
    }
}

/// Every largest-identifier value sits between zero and the identifier
/// type's maximum.
pub proof fn lemma_max_site_id_bounds(rows: Seq<SiteTable>)
    ensures
        0 <= max_site_id(rows) <= u32::MAX,
    decreases rows.len(),
{
    if rows.len() > 0 {
        lemma_max_site_id_bounds(rows.drop_last());
    }
}

/// A flight row as it is stored: the given content under the next free
/// identifier.
pub open spec fn stored_flight(rows: Seq<FlightTable>, f: FlightTable) -> FlightTable {
    FlightTable { flight_id: (max_flight_id(rows) + 1) as u32, ..f }
}

impl FlightTable {
    /// Inserts a flight under the next free identifier. The hash column is
    /// unique: a flight whose hash is already present is refused, and a
    /// full identifier space too; the table is unchanged on refusal.
    pub fn store(rows: &mut Vec<FlightTable>, flight: FlightTable) -> (r: Result<
        (),
        LogbookError,
    >)
        ensures
            r is Ok <==> (forall|j: int| 0 <= j < old(rows)@.len() ==> old(rows)@[j].hash@
                != flight.hash@) && max_flight_id(old(rows)@) < u32::MAX,
            r is Ok ==> final(rows)@ == old(rows)@.push(stored_flight(old(rows)@, flight)),
            r is Err ==> final(rows)@ == old(rows)@,
            r is Err ==> (r == Result::<(), LogbookError>::Err(LogbookError::DuplicateEntry)
                <==> exists|j: int|
                0 <= j < old(rows)@.len() && #[trigger] old(rows)@[j].hash@ == flight.hash@),
            r is Err ==> r == Result::<(), LogbookError>::Err(LogbookError::DuplicateEntry) || r
                == Result::<(), LogbookError>::Err(LogbookError::TableFull),
    {
        let mut i: usize = 0;
        while i < rows.len()
            invariant
                0 <= i <= rows@.len(),
                forall|j: int| 0 <= j < i ==> rows@[j].hash@ != flight.hash@,
            decreases rows@.len() - i,
        {
            if bytes_eq(&rows[i].hash, &flight.hash) {
                return Err(LogbookError::DuplicateEntry);
            }
            i = i + 1;
        }
        let next = Self::last_flight_id(rows);
        if next == u32::MAX {
            return Err(LogbookError::TableFull);
        }
        let stored = FlightTable { flight_id: next + 1, ..flight };
        rows.push(stored);
        Ok(())
    }

    /// Largest flight identifier present.
    pub fn last_flight_id(rows: &Vec<FlightTable>) -> (m: u32)
        ensures
            m as int == max_flight_id(rows@),
    {
        let mut m: u32 = 0;
        let mut i: usize = 0;
        while i < rows.len()
            invariant
                0 <= i <= rows@.len(),
                m as int == max_flight_id(rows@.subrange(0, i as int)),
            decreases rows@.len() - i,
        {
            proof {
                assert(rows@.subrange(0, i + 1).drop_last() =~= rows@.subrange(0, i as int));
            }
            if rows[i].flight_id > m {
                m = rows[i].flight_id;
            }
            i = i + 1;
        }
        proof {
            assert(rows@.subrange(0, rows@.len() as int) =~= rows@);
        }
        m
    }
}

/// Identifiers of the tags whose name contains the query, both folded to
/// lowercase, in table order.
pub open spec fn matching_tag_ids(rows: Seq<TagTable>, query: Seq<char>) -> Seq<u32>
    decreases rows.len(),
{
    if rows.len() == 0 {
        Seq::empty()
    } else if name_matches(rows.last().name@, query) {
        matching_tag_ids(rows.drop_last(), query).push(rows.last().tag_id)
    } else {
        matching_tag_ids(rows.drop_last(), query)
    }
}

impl TagTable {
    /// All tag rows, in table order, by content.
    pub fn select_all(rows: &Vec<TagTable>) -> (r: Vec<TagTable>)
        ensures
            r@.len() == rows@.len(),
            forall|i: int|
                0 <= i < rows@.len() ==> #[trigger] r@[i].tag_id == rows@[i].tag_id && r@[i].name@
                    == rows@[i].name@,
    {
        let mut r: Vec<TagTable> = Vec::new();
        let mut i: usize = 0;
        while i < rows.len()
            invariant
                0 <= i <= rows@.len(),
                r@.len() == i,
                forall|j: int|
                    0 <= j < i ==> #[trigger] r@[j].tag_id == rows@[j].tag_id && r@[j].name@
                        == rows@[j].name@,
            decreases rows@.len() - i,
        {
            r.push(TagTable { tag_id: rows[i].tag_id, name: rows[i].name.clone() });
            i = i + 1;
        }
        r
    }

    /// Identifiers of the tags whose name contains the query, case folded.
    pub fn search(rows: &Vec<TagTable>, query: &str) -> (r: IDListe)
        ensures
            r.list@ == matching_tag_ids(rows@, query@),
    {
        let mut ids: Vec<u32> = Vec::new();
        let mut i: usize = 0;
        while i < rows.len()
            invariant
                0 <= i <= rows@.len(),
                ids@ == matching_tag_ids(rows@.subrange(0, i as int), query@),
            decreases rows@.len() - i,
        {
            proof {
                assert(rows@.subrange(0, i + 1).drop_last() =~= rows@.subrange(0, i as int));
            }
            if matches_name(rows[i].name.as_str(), query) {
                ids.push(rows[i].tag_id);
            }
            i = i + 1;
        }
        proof {
            assert(rows@.subrange(0, rows@.len() as int) =~= rows@);
        }
        IDListe { list: ids }
    }
}

/// The first wing marked as the default, if any.
pub open spec fn first_def_wing(rows: Seq<WingTable>) -> Option<WingTable>
    decreases rows.len(),
{
    if rows.len() == 0 {
        None
    } else if rows[0].def {
        Some(rows[0])
    } else {
        first_def_wing(rows.drop_first())
    }
}

/// A wing row with its default mark replaced.
pub open spec fn with_def(w: WingTable, d: bool) -> WingTable {
    WingTable { def: d, ..w }
}

/// Whether the selection of `set_default_wing` picks this wing: by
/// identifier when one is given, else by name when one is given, else
/// nothing.
pub open spec fn def_selected(w: WingTable, id: Option<u32>, name: Option<Seq<char>>) -> bool {
    match id {
        Some(i) => w.wing_id == i,
        None => match name {
            Some(n) => w.name@ == n,
            None => false,
        },
    }
}

impl WingTable {
    /// All wing rows, in table order, by content.
    pub fn select_all(rows: &Vec<WingTable>) -> (r: Vec<WingTable>)
        ensures
            r@.len() == rows@.len(),
            forall|i: int|
                0 <= i < rows@.len() ==> #[trigger] r@[i].wing_id == rows@[i].wing_id && r@[i].name@
                    == rows@[i].name@ && r@[i].info@ == rows@[i].info@ && r@[i].def
                    == rows@[i].def,
    {
        let mut r: Vec<WingTable> = Vec::new();
        let mut i: usize = 0;
        while i < rows.len()
            invariant
                0 <= i <= rows@.len(),
                r@.len() == i,
                forall|j: int|
                    0 <= j < i ==> #[trigger] r@[j].wing_id == rows@[j].wing_id && r@[j].name@
                        == rows@[j].name@ && r@[j].info@ == rows@[j].info@ && r@[j].def
                        == rows@[j].def,
            decreases rows@.len() - i,
        {
            r.push(
                WingTable {
                    wing_id: rows[i].wing_id,
                    name: rows[i].name.clone(),
                    info: rows[i].info.clone(),
                    def: rows[i].def,
                },
            );
            i = i + 1;
        }
        r
    }

    /// The first wing marked as the default; nothing when no wing is.
    pub fn get_default_wing(rows: &Vec<WingTable>) -> (r: Option<WingTable>)
        ensures
            (r is Some) == (first_def_wing(rows@) is Some),
            r is Some ==> {
                let w = first_def_wing(rows@)->Some_0;
                r->Some_0.wing_id == w.wing_id && r->Some_0.name@ == w.name@ && r->Some_0.info@
                    == w.info@ && r->Some_0.def == w.def
            },
    {
        let mut i: usize = 0;
        proof {
            assert(rows@.skip(0) =~= rows@);
        }
        while i < rows.len()
            invariant
                0 <= i <= rows@.len(),
                first_def_wing(rows@) == first_def_wing(rows@.skip(i as int)),
                forall|j: int| 0 <= j < i ==> !rows@[j].def,
            decreases rows@.len() - i,
        {
            if rows[i].def {
                proof {
                    assert(rows@.skip(i as int)[0] == rows@[i as int]);
                }
                return Some(
                    WingTable {
                        wing_id: rows[i].wing_id,
                        name: rows[i].name.clone(),
                        info: rows[i].info.clone(),
                        def: rows[i].def,
                    },
                );
            }
            proof {
                assert(rows@.skip(i as int).drop_first() =~= rows@.skip(i + 1));
            }
            i = i + 1;
        }
        proof {
            assert(rows@.skip(rows@.len() as int).len() == 0);
        }
        None
    }

    /// Marks exactly the selected wings (by identifier, else by name) as
    /// the default and clears the mark everywhere else.
    pub fn set_default_wing(rows: &mut Vec<WingTable>, id: Option<u32>, name: Option<String>)
        ensures
            final(rows)@.len() == old(rows)@.len(),
            forall|i: int|
                0 <= i < old(rows)@.len() ==> final(rows)@[i] == with_def(
                    old(rows)@[i],
                    def_selected(
                        old(rows)@[i],
                        id,
                        match name {
                            Some(n) => Some(n@),
                            None => None,
                        },
                    ),
                ),
    {
        let ghost orig = rows@;
        let mut i: usize = 0;
        while i < rows.len()
            invariant
                0 <= i <= rows@.len(),
                rows@.len() == orig.len(),
                forall|j: int| i <= j < orig.len() ==> rows@[j] == orig[j],
                forall|j: int|
                    0 <= j < i ==> rows@[j] == with_def(
                        orig[j],
                        def_selected(
                            orig[j],
                            id,
                            match name {
                                Some(n) => Some(n@),
                                None => None,
                            },
                        ),
                    ),
            decreases rows@.len() - i,
        {
            let selected: bool = match &id {
                Some(v) => rows[i].wing_id == *v,
                None => match &name {
                    Some(n) => {
                        let eq = rows[i].name.eq(n);
                        eq
                    },
                    None => false,
                },
            };
            let w = rows.remove(i);
            let w2 = WingTable { def: selected, ..w };
            rows.insert(i, w2);
            i = i + 1;
        }
    }

    /// Largest wing identifier present.
    pub fn last_wing_id(rows: &Vec<WingTable>) -> (m: u32)
        ensures
            m as int == max_wing_id(rows@),
    {
        let mut m: u32 = 0;
        let mut i: usize = 0;
        while i < rows.len()
            invariant
                0 <= i <= rows@.len(),
                m as int == max_wing_id(rows@.subrange(0, i as int)),
            decreases rows@.len() - i,
        {
            proof {
                assert(rows@.subrange(0, i + 1).drop_last() =~= rows@.subrange(0, i as int));
            }
            if rows[i].wing_id > m {
                m = rows[i].wing_id;
            }
            i = i + 1;
        }
        proof {
            assert(rows@.subrange(0, rows@.len() as int) =~= rows@);
        }
        m
    }

    /// Inserts a wing under the next free identifier, then makes it the
    /// default when it asks to be. The name column is unique.
    pub fn store(rows: &mut Vec<WingTable>, wing: WingTable) -> (r: Result<(), LogbookError>)
        ensures
            r is Ok <==> (forall|j: int| 0 <= j < old(rows)@.len() ==> old(rows)@[j].name@
                != wing.name@) && max_wing_id(old(rows)@) < u32::MAX,
            r is Err ==> final(rows)@ == old(rows)@,
            r is Ok && !wing.def ==> final(rows)@ == old(rows)@.push(
                (WingTable { wing_id: (max_wing_id(old(rows)@) + 1) as u32, ..wing }),
            ),
            r is Ok && wing.def ==> {
                let pushed = old(rows)@.push(
                    (WingTable { wing_id: (max_wing_id(old(rows)@) + 1) as u32, ..wing }),
                );
                final(rows)@.len() == pushed.len() && forall|i: int|
                    0 <= i < pushed.len() ==> final(rows)@[i] == with_def(
                        pushed[i],
                        pushed[i].name@ == wing.name@,
                    )
            },
    {
        let mut i: usize = 0;
        while i < rows.len()
            invariant
                0 <= i <= rows@.len(),
                forall|j: int| 0 <= j < i ==> rows@[j].name@ != wing.name@,
            decreases rows@.len() - i,
        {
            let eq = rows[i].name.eq(&wing.name);
            if eq {
                return Err(LogbookError::DuplicateEntry);
            }
            i = i + 1;
        }
        let next = Self::last_wing_id(rows);
        if next == u32::MAX {
            return Err(LogbookError::TableFull);
        }
        let is_def = wing.def;
        let name_copy: Option<String> = if is_def {
            Some(wing.name.clone())
        } else {
            None
        };
        let stored = WingTable { wing_id: next + 1, ..wing };
        rows.push(stored);
        if is_def {
            Self::set_default_wing(rows, None, name_copy);
        }
        Ok(())
    }
}

/// Identifiers of the sites whose name contains the query, both folded to
/// lowercase, in table order.
pub open spec fn matching_site_ids(rows: Seq<SiteTable>, query: Seq<char>) -> Seq<u32>
    decreases rows.len(),
{
    if rows.len() == 0 {
        Seq::empty()
    } else if name_matches(rows.last().name@, query) {
        matching_site_ids(rows.drop_last(), query).push(rows.last().site_id)
    } else {
        matching_site_ids(rows.drop_last(), query)
    }
}

/// A sample is near a site: the geodesic routine resolves their distance
/// and it is under the detection radius.
pub open spec fn near_site(p: FlightPoint, s: SiteTable) -> bool {
    match geo_distance(p.lat as int, p.long as int, s.lat as int, s.long as int) {
        Some(d) => d < DISTANCE_DETECTION,
        None => false,
    }
}

/// The walk of the site table that site detection performs: each site near
/// the takeoff (or the landing) replaces the match so far, and the walk
/// stops as soon as both are found.
pub open spec fn detect_walk(
    rows: Seq<SiteTable>,
    takeoff: FlightPoint,
    landing: FlightPoint,
    a: Option<u32>,
    b: Option<u32>,
) -> (Option<u32>, Option<u32>)
    decreases rows.len(),
{
    if (a is Some && b is Some) || rows.len() == 0 {
        (a, b)
    } else {
        let a2 = if near_site(takeoff, rows[0]) {
            Some(rows[0].site_id)
        } else {
            a
        };
        let b2 = if near_site(landing, rows[0]) {
            Some(rows[0].site_id)
        } else {
            b
        };
        detect_walk(rows.drop_first(), takeoff, landing, a2, b2)
    }
}

impl SiteTable {
    /// Largest site identifier present.
    pub fn last_site_id(rows: &Vec<SiteTable>) -> (m: u32)
        ensures
            m as int == max_site_id(rows@),
    {
        let mut m: u32 = 0;
        let mut i: usize = 0;
        while i < rows.len()
            invariant
                0 <= i <= rows@.len(),
                m as int == max_site_id(rows@.subrange(0, i as int)),
            decreases rows@.len() - i,
        {
            proof {
                assert(rows@.subrange(0, i + 1).drop_last() =~= rows@.subrange(0, i as int));
            }
            if rows[i].site_id > m {
                m = rows[i].site_id;
            }
            i = i + 1;
        }
        proof {
            assert(rows@.subrange(0, rows@.len() as int) =~= rows@);
        }
        m
    }

    /// Inserts a site under the next free identifier; only a full
    /// identifier space is refused.
    pub fn store(rows: &mut Vec<SiteTable>, site: SiteTable) -> (r: Result<(), LogbookError>)
        ensures
            r is Ok <==> max_site_id(old(rows)@) < u32::MAX,
            r is Ok ==> final(rows)@ == old(rows)@.push(
                (SiteTable { site_id: (max_site_id(old(rows)@) + 1) as u32, ..site }),
            ),
            r is Err ==> final(rows)@ == old(rows)@,
            r is Err ==> r == Result::<(), LogbookError>::Err(LogbookError::TableFull),
    {
        let next = Self::last_site_id(rows);
        if next == u32::MAX {
            return Err(LogbookError::TableFull);
        }
        let stored = SiteTable { site_id: next + 1, ..site };
        rows.push(stored);
        Ok(())
    }

    /// Identifiers of the sites whose name contains the query, case
    /// folded.
    pub fn search(rows: &Vec<SiteTable>, query: &str) -> (r: IDListe)
        ensures
            r.list@ == matching_site_ids(rows@, query@),
    {
        let mut ids: Vec<u32> = Vec::new();
        let mut i: usize = 0;
        while i < rows.len()
            invariant
                0 <= i <= rows@.len(),
                ids@ == matching_site_ids(rows@.subrange(0, i as int), query@),
            decreases rows@.len() - i,
        {
            proof {
                assert(rows@.subrange(0, i + 1).drop_last() =~= rows@.subrange(0, i as int));
            }
            if matches_name(rows[i].name.as_str(), query) {
                ids.push(rows[i].site_id);
            }
            i = i + 1;
        }
        proof {
            assert(rows@.subrange(0, rows@.len() as int) =~= rows@);
        }
        IDListe { list: ids }
    }

    /// Walks the site table for a site near the takeoff sample and one
    /// near the landing sample; a later match replaces an earlier one, and
    /// the walk stops once both are found. A distance the geodesic routine
    /// cannot resolve counts as far.
    pub fn site_detection(
        rows: &Vec<SiteTable>,
        takeoff: &FlightPoint,
        landing: &FlightPoint,
    ) -> (r: (Option<u32>, Option<u32>))
        ensures
            r == detect_walk(rows@, *takeoff, *landing, None, None),
    {
        let mut res_takeoff: Option<u32> = None;
        let mut res_landing: Option<u32> = None;
        let mut i: usize = 0;
        proof {
            assert(rows@.skip(0) =~= rows@);
        }
        while i < rows.len() && !(res_takeoff.is_some() && res_landing.is_some())
            invariant
                0 <= i <= rows@.len(),
                detect_walk(rows@, *takeoff, *landing, None, None) == detect_walk(
                    rows@.skip(i as int),
                    *takeoff,
                    *landing,
                    res_takeoff,
                    res_landing,
                ),
            decreases rows@.len() - i,
        {
            let site_point = FlightPoint {
                time: 0,
                lat: rows[i].lat,
                long: rows[i].long,
                alt: rows[i].alt,
                alt_gps: 0,
            };
            proof {
                assert(rows@.skip(i as int)[0] == rows@[i as int]);
                assert(rows@.skip(i as int).drop_first() =~= rows@.skip(i + 1));
            }
            let d_takeoff = distance_meters(takeoff, &site_point);
            let near_t = match d_takeoff {
                Some(d) => d < DISTANCE_DETECTION,
                None => false,
            };
            if near_t {
                res_takeoff = Some(rows[i].site_id);
            }
            let d_landing = distance_meters(landing, &site_point);
            let near_l = match d_landing {
                Some(d) => d < DISTANCE_DETECTION,
                None => false,
            };
            if near_l {
                res_landing = Some(rows[i].site_id);
            }
            i = i + 1;
        }
        (res_takeoff, res_landing)
    }
}

} // verus!
