//! The logbook itself: the in-memory state of all tables, the per-file
//! pipeline that fills it, and aggregate statistics.

use vstd::prelude::*;

use crate::igc::check_of;
use crate::igc::date_of;
use crate::igc::lines_of;
use crate::igc::trace_of;
use crate::metrics::spec_flight_duration;
use crate::metrics::spec_total_distance;
use crate::simplify::dp;
use crate::tables::FlightTable;
use crate::tables::LogbookError;
use crate::tables::SiteTable;
use crate::tables::TagTable;
use crate::tables::WingTable;
use crate::tables::clone_flight;
use crate::tables::detect_walk;
use crate::tables::first_def_wing;
use crate::tables::max_flight_id;
use crate::tables::max_site_id;
use crate::tables::row_view;
use crate::trace::EPSILON;
use crate::trace::FlightTrace;
use crate::trace::spec_window;

verus! {

/// Aggregates over a set of flight rows.
#[derive(Debug)]
pub struct FlightStatistic {
    /// Sum of the flights' durations, in minutes.
    pub duration: u32,
    /// Sum of the flights' distances, in meters.
    pub tot_distance: u32,
    /// The flights of greatest distance, best first, at most three.
    pub best_flight: Vec<FlightTable>,
    /// How many flights there are.
    pub nb_flight: u32,
}

/// Sum of the durations of the first `n` rows.
pub open spec fn duration_sum(rows: Seq<FlightTable>, n: int) -> int
    decreases n,
{
    if n <= 0 {
        0
    } else {
        duration_sum(rows, n - 1) + rows[n - 1].duration
    }
}

/// Sum of the distances of the first `n` rows.
pub open spec fn distance_sum(rows: Seq<FlightTable>, n: int) -> int
    decreases n,
{
    if n <= 0 {
        0
    } else {
        distance_sum(rows, n - 1) + rows[n - 1].distance
    }
}

/// An integer clamped into `u32`.
pub open spec fn clamp_u32(v: int) -> int {
    if v > u32::MAX {
        u32::MAX as int
    } else {
        v
    }
}

proof fn lemma_duration_sum_nonneg(rows: Seq<FlightTable>, n: int)
    ensures
        duration_sum(rows, n) >= 0,
        distance_sum(rows, n) >= 0,
    decreases n,
{
    if n > 0 {
        lemma_duration_sum_nonneg(rows, n - 1);
    }
}

/// Every element's content occurs among the rows.
pub open spec fn drawn_from(xs: Seq<FlightTable>, rows: Seq<FlightTable>) -> bool {
    forall|j: int|
        0 <= j < xs.len() ==> exists|k: int|
            0 <= k < rows.len() && row_view(#[trigger] xs[j]) == row_view(rows[k])
}

/// Distances never increase along the sequence.
pub open spec fn sorted_by_distance(s: Seq<FlightTable>) -> bool {
    forall|i: int, j: int|
        0 <= i <= j < s.len() ==> #[trigger] s[i].distance >= #[trigger] s[j].distance
}

/// One selection round keeps what the rounds maintain: moving a maximal
/// element of the working set onto the end of the selection keeps the
/// selection sorted and drawn from the rows, and leaves the working set
/// drawn from the rows and below the new last pick.
proof fn lemma_top_step(
    rows: Seq<FlightTable>,
    ow: Seq<FlightTable>,
    ob: Seq<FlightTable>,
    arg: int,
)
    requires
        0 <= arg < ow.len(),
        forall|j0: int| 0 <= j0 < ow.len() ==> #[trigger] ow[j0].distance <= ow[arg].distance,
        sorted_by_distance(ob),
        drawn_from(ob, rows),
        drawn_from(ow, rows),
        ob.len() > 0 ==> forall|j0: int| 0 <= j0 < ow.len() ==> #[trigger] ow[j0].distance
            <= ob[ob.len() - 1].distance,
    ensures
        sorted_by_distance(ob.push(ow[arg])),
        drawn_from(ob.push(ow[arg]), rows),
        drawn_from(ow.remove(arg), rows),
        forall|j0: int| 0 <= j0 < ow.remove(arg).len() ==> #[trigger] ow.remove(arg)[j0].distance
            <= ow[arg].distance,
{
    let nb = ob.push(ow[arg]);
    let nw = ow.remove(arg);
    let t = ob.len() as int;
    let pk = ow[arg];
    assert forall|j0: int| 0 <= j0 < nw.len() implies #[trigger] nw[j0].distance
        <= pk.distance by {
        if j0 < arg {
            assert(nw[j0] == ow[j0]);
        } else {
            assert(nw[j0] == ow[j0 + 1]);
        }
    }
    assert forall|j0: int| 0 <= j0 < nw.len() implies exists|k0: int|
        0 <= k0 < rows.len() && row_view(#[trigger] nw[j0]) == row_view(rows[k0]) by {
        if j0 < arg {
            assert(nw[j0] == ow[j0]);
        } else {
            assert(nw[j0] == ow[j0 + 1]);
        }
    }
    assert forall|i0: int, j0: int| 0 <= i0 <= j0 < nb.len() implies #[trigger] nb[i0].distance
        >= #[trigger] nb[j0].distance by {
        if j0 < t {
            assert(nb[i0] == ob[i0] && nb[j0] == ob[j0]);
        } else if i0 < t {
            assert(nb[j0] == pk);
            assert(pk.distance <= ob[t - 1].distance);
            assert(ob[t - 1].distance <= ob[i0].distance);
        }
    }
}

/// The flights of greatest distance: at most three, best first, every one
/// drawn from the rows by content.
pub fn top_flights(rows: &Vec<FlightTable>) -> (best: Vec<FlightTable>)
    ensures
        best@.len() == if rows@.len() < 3 {
            rows@.len() as int
        } else {
            3int
        },
        sorted_by_distance(best@),
        drawn_from(best@, rows@),
{
    let mut work: Vec<FlightTable> = Vec::new();
    let mut i: usize = 0;
    while i < rows.len()
        invariant
            0 <= i <= rows@.len(),
            work@.len() == i,
            forall|j: int| 0 <= j < i ==> row_view(#[trigger] work@[j]) == row_view(rows@[j]),
        decreases rows@.len() - i,
    {
        work.push(clone_flight(&rows[i]));
        i = i + 1;
    }
    let rounds: usize = if rows.len() < 3 {
        rows.len()
    } else {
        3
    };
    let mut best: Vec<FlightTable> = Vec::new();
    let mut t: usize = 0;
    proof {
        assert forall|j0: int| 0 <= j0 < work@.len() implies exists|k: int|
            0 <= k < rows@.len() && row_view(#[trigger] work@[j0]) == row_view(rows@[k]) by {
            assert(row_view(work@[j0]) == row_view(rows@[j0]));
        }
    }
    while t < rounds
        invariant
            0 <= t <= rounds,
            rounds <= 3,
            best@.len() == t,
            work@.len() + t == rows@.len(),
            rounds == if rows@.len() < 3 {
                rows@.len() as int
            } else {
                3int
            },
            sorted_by_distance(best@),
            drawn_from(best@, rows@),
            drawn_from(work@, rows@),
            t > 0 ==> forall|j0: int| 0 <= j0 < work@.len() ==> #[trigger] work@[j0].distance
                <= best@[best@.len() - 1].distance,
        decreases rounds - t,
    {
        let mut arg: usize = 0;
        let mut k: usize = 1;
        while k < work.len()
            invariant
                work@.len() > 0,
                0 <= arg < k <= work@.len(),
                forall|j0: int| 0 <= j0 < k ==> #[trigger] work@[j0].distance
                    <= work@[arg as int].distance,
            decreases work@.len() - k,
        {
            if work[k].distance > work[arg].distance {
                arg = k;
            }
            k = k + 1;
        }
        let ghost ow = work@;
        let ghost ob = best@;
        proof {
            lemma_top_step(rows@, ow, ob, arg as int);
        }
        let picked = work.remove(arg);
        best.push(picked);
        t = t + 1;
    }
    best
}

/// Sums the durations of a set of flight rows, clamped into `u32`.
pub fn total_duration(rows: &Vec<FlightTable>) -> (d: u32)
    ensures
        d as int == clamp_u32(duration_sum(rows@, rows@.len() as int)),
{
    let mut acc: u64 = 0;
    let cap: u64 = u32::MAX as u64;
    let mut i: usize = 0;
    while i < rows.len()
        invariant
            0 <= i <= rows@.len(),
            acc <= cap,
            cap == u32::MAX as u64,
            acc as int == clamp_u32(duration_sum(rows@, i as int)),
            duration_sum(rows@, i as int) > u32::MAX ==> acc == cap,
        decreases rows@.len() - i,
    {
        proof {
            lemma_duration_sum_nonneg(rows@, i as int);
        }
        let d = rows[i].duration as u64;
        acc = if d > cap - acc {
            cap
        } else {
            acc + d
        };
        i = i + 1;
    }
    acc as u32
}

/// Sums the distances of a set of flight rows, clamped into `u32`.
pub fn total_distance_sum(rows: &Vec<FlightTable>) -> (d: u32)
    ensures
        d as int == clamp_u32(distance_sum(rows@, rows@.len() as int)),
{
    let mut acc: u64 = 0;
    let cap: u64 = u32::MAX as u64;
    let mut i: usize = 0;
    while i < rows.len()
        invariant
            0 <= i <= rows@.len(),
            acc <= cap,
            cap == u32::MAX as u64,
            acc as int == clamp_u32(distance_sum(rows@, i as int)),
            distance_sum(rows@, i as int) > u32::MAX ==> acc == cap,
        decreases rows@.len() - i,
    {
        proof {
            lemma_duration_sum_nonneg(rows@, i as int);
        }
        let d = rows[i].distance as u64;
        acc = if d > cap - acc {
            cap
        } else {
            acc + d
        };
        i = i + 1;
    }
    acc as u32
}

/// Aggregates a set of flight rows: total duration and distance (both
/// clamped), the number of flights (clamped), and the top three by
/// distance.
pub fn flight_statistics(rows: &Vec<FlightTable>) -> (s: FlightStatistic)
    ensures
        s.duration as int == clamp_u32(duration_sum(rows@, rows@.len() as int)),
        s.tot_distance as int == clamp_u32(distance_sum(rows@, rows@.len() as int)),
        s.nb_flight as int == clamp_u32(rows@.len() as int),
        s.best_flight@.len() == if rows@.len() < 3 {
            rows@.len() as int
        } else {
            3int
        },
        sorted_by_distance(s.best_flight@),
        drawn_from(s.best_flight@, rows@),
{
    let nb: u32 = if rows.len() > u32::MAX as usize {
        u32::MAX
    } else {
        rows.len() as u32
    };
    FlightStatistic {
        duration: total_duration(rows),
        tot_distance: total_distance_sum(rows),
        best_flight: top_flights(rows),
        nb_flight: nb,
    }
}

/// Statistics over a collection of flights.
pub trait Statistic {
    /// Aggregates the collection into a `FlightStatistic`.
    fn statistic(&self) -> FlightStatistic;
}

impl Statistic for Vec<FlightTable> {
    fn statistic(&self) -> FlightStatistic {
        flight_statistics(self)
    }
}

/// The whole logbook, one vector per table.
pub struct Logbook {
    pub flights: Vec<FlightTable>,
    pub sites: Vec<SiteTable>,
    pub wings: Vec<WingTable>,
    pub tags: Vec<TagTable>,
}

impl Logbook {
    /// A fresh logbook: empty tables, except for the wing table's seeded
    /// default wing under identifier zero.
    pub fn create() -> (lb: Logbook)
        ensures
            lb.flights@.len() == 0,
            lb.sites@.len() == 0,
            lb.tags@.len() == 0,
            lb.wings@.len() == 1,
            lb.wings@[0].wing_id == 0,
            lb.wings@[0].name@ == "default"@,
            lb.wings@[0].info@ == ""@,
            lb.wings@[0].def,
    {
        let mut wings: Vec<WingTable> = Vec::new();
        wings.push(
            WingTable {
                wing_id: 0,
                name: String::from_str("default"),
                info: String::from_str(""),
                def: true,
            },
        );
        Logbook { flights: Vec::new(), sites: Vec::new(), wings, tags: Vec::new() }
    }

    /// Runs one file through the whole pipeline and stores the outcome:
    /// decode, find the flight window, simplify, derive the metrics, match
    /// or create the takeoff and landing sites, and insert the flight row
    /// under the default wing, with the score and classification the
    /// scoring engine reported for the same text.
    ///
    /// It succeeds exactly when a default wing exists, no stored flight
    /// has the file's integrity hash, and identifier space is left in the
    /// flight and site tables. Without a default wing nothing changes; a
    /// duplicate hash is found only after any missing sites were created,
    /// as the storage layer would, so those stay.
    pub fn load_and_store(&mut self, raw_igc: Vec<u8>, score: u32, code: String) -> (r: Result<
        (),
        LogbookError,
    >)
        ensures
            ({
                let ls = lines_of(raw_igc@);
                let tr = trace_of(ls);
                let w = spec_window(tr);
                let sim = dp(tr.subrange(w.0, w.1), EPSILON as int);
                let det = detect_walk(old(self).sites@, tr[w.0], tr[w.1], None, None);
                let needs: int = if tr.len() == 0 {
                    0
                } else {
                    (if det.0 is None {
                        1int
                    } else {
                        0int
                    }) + (if det.1 is None {
                        1int
                    } else {
                        0int
                    })
                };
                let wing_ok = first_def_wing(old(self).wings@) is Some;
                let dup = exists|j: int|
                    0 <= j < old(self).flights@.len() && #[trigger] old(self).flights@[j].hash@
                        == check_of(ls);
                &&& final(self).wings@ == old(self).wings@
                &&& final(self).tags@ == old(self).tags@
                &&& (r is Err ==> final(self).flights@ == old(self).flights@)
                &&& (r == Result::<(), LogbookError>::Err(LogbookError::MissingEntry) <==> !wing_ok)
                &&& (!wing_ok ==> final(self).sites@ == old(self).sites@)
                &&& (r == Result::<(), LogbookError>::Err(LogbookError::DuplicateEntry) ==> dup)
                &&& (r is Ok <==> wing_ok && !dup && max_flight_id(old(self).flights@) < u32::MAX
                    && max_site_id(old(self).sites@) + needs <= u32::MAX)
                &&& (r is Ok ==> {
                    let takeoff_id: int = if tr.len() == 0 {
                        0
                    } else {
                        match det.0 {
                            Some(id) => id as int,
                            None => max_site_id(old(self).sites@) + 1,
                        }
                    };
                    let landing_id: int = if tr.len() == 0 {
                        0
                    } else {
                        match det.1 {
                            Some(id) => id as int,
                            None => max_site_id(old(self).sites@) + (if det.0 is None {
                                2int
                            } else {
                                1int
                            }),
                        }
                    };
                    let row = final(self).flights@.last();
                    &&& final(self).sites@.len() == old(self).sites@.len() + needs
                    &&& final(self).sites@.subrange(0, old(self).sites@.len() as int) == old(
                        self,
                    ).sites@
                    &&& final(self).flights@.len() == old(self).flights@.len() + 1
                    &&& final(self).flights@.subrange(0, old(self).flights@.len() as int) == old(
                        self,
                    ).flights@
                    &&& row.flight_id as int == max_flight_id(old(self).flights@) + 1
                    &&& row.wing_id == first_def_wing(old(self).wings@)->Some_0.wing_id
                    &&& row.takeoff_id as int == takeoff_id
                    &&& row.landing_id as int == landing_id
                    &&& row.hash@ == check_of(ls)
                    &&& row.date == date_of(ls)
                    &&& row.duration as int == spec_flight_duration(sim)
                    &&& row.distance as int == spec_total_distance(sim)
                    &&& row.score == score
                    &&& row.code@ == code@
                    &&& row.track is None
                    &&& row.profile is None
                    &&& row.raw_igc matches Some(rw) && rw@ == raw_igc@
                })
            }),
    {
        let trace = FlightTrace::new(raw_igc);
        let duration = trace.flight_duration();
        let distance = trace.total_distance();
        let wing = match WingTable::get_default_wing(&self.wings) {
            Some(w) => w,
            None => {
                return Err(LogbookError::MissingEntry);
            },
        };
        let mut takeoff_id: u32 = 0;
        let mut landing_id: u32 = 0;
        let ghost old_sites = self.sites@;
        if trace.trace.len() > 0 {
            let takeoff_point = trace.trace[trace.takeoff_index];
            let landing_point = trace.trace[trace.landing_index];
            let found = SiteTable::site_detection(&self.sites, &takeoff_point, &landing_point);
            let ghost needs: int = (if found.0 is None {
                1int
            } else {
                0int
            }) + (if found.1 is None {
                1int
            } else {
                0int
            });
            takeoff_id = match found.0 {
                Some(id) => id,
                None => {
                    let site = SiteTable {
                        site_id: 0,
                        name: String::from_str("Unknown"),
                        lat: takeoff_point.lat,
                        long: takeoff_point.long,
                        alt: takeoff_point.alt,
                        info: String::from_str(""),
                    };
                    match SiteTable::store(&mut self.sites, site) {
                        Ok(()) => {},
                        Err(e) => {
                            proof {
                                assert(max_site_id(old_sites) + needs > u32::MAX);
                            }
                            return Err(e);
                        },
                    }
                    proof {
                        assert(self.sites@.drop_last() =~= old_sites);
                        assert(max_site_id(self.sites@) == max_site_id(old_sites) + 1);
                    }
                    SiteTable::last_site_id(&self.sites)
                },
            };
            landing_id = match found.1 {
                Some(id) => id,
                None => {
                    let site = SiteTable {
                        site_id: 0,
                        name: String::from_str("Unknown"),
                        lat: landing_point.lat,
                        long: landing_point.long,
                        alt: landing_point.alt,
                        info: String::from_str(""),
                    };
                    let ghost before = self.sites@;
                    match SiteTable::store(&mut self.sites, site) {
                        Ok(()) => {},
                        Err(e) => {
                            proof {
                                assert(max_site_id(old_sites) + needs > u32::MAX);
                            }
                            return Err(e);
                        },
                    }
                    proof {
                        assert(self.sites@.drop_last() =~= before);
                        assert(max_site_id(self.sites@) == max_site_id(before) + 1);
                    }
                    SiteTable::last_site_id(&self.sites)
                },
            };
            proof {
                crate::tables::lemma_max_site_id_bounds(old_sites);
                assert(self.sites@.len() == old_sites.len() + needs);
                assert(self.sites@.subrange(0, old_sites.len() as int) =~= old_sites);
                assert(max_site_id(old_sites) + needs <= u32::MAX);
                assert(takeoff_id as int == match found.0 {
                    Some(id) => id as int,
                    None => max_site_id(old_sites) + 1,
                });
                assert(landing_id as int == match found.1 {
                    Some(id) => id as int,
                    None => max_site_id(old_sites) + (if found.0 is None {
                        2int
                    } else {
                        1int
                    }),
                });
            }
        } else {
            proof {
                crate::tables::lemma_max_site_id_bounds(old_sites);
                assert(self.sites@.subrange(0, old_sites.len() as int) =~= old_sites);
            }
        }
        let row = FlightTable {
            flight_id: 0,
            wing_id: wing.wing_id,
            takeoff_id,
            landing_id,
            hash: trace.check,
            date: trace.date,
            duration,
            distance,
            score,
            code,
            track: None,
            raw_igc: Some(trace.raw_igc),
            profile: None,
        };
        let ghost before_flights = self.flights@;
        match FlightTable::store(&mut self.flights, row) {
            Ok(()) => {},
            Err(e) => {
                return Err(e);
            },
        }
        proof {
            assert(self.flights@.subrange(0, before_flights.len() as int) =~= before_flights);
        }
        Ok(())
    }
}

} // verus!
