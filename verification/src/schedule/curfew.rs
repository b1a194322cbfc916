//! The curfew engine: closes an airport for a window and takes the aircraft
//! from every flight that the closure leaves without a rotation.
//!
//! A flight is struck when it has an aircraft, touches the airport, and
//! overlaps one of the airport's curfews, the new one or an older one. The
//! earliest departure among the struck flights of an aircraft is the
//! aircraft's break point. Every flight of the aircraft that departs at or
//! after the break point loses the aircraft: the first of them in order of
//! departure because of the curfew, the others because the chain is broken.

use vstd::prelude::*;

use crate::airport::{
    airport_entry, airports_ascending, has_airport, lemma_with_curfew, with_curfew, AirportId, Curfew, CurfewView,
};
use crate::flight::{flight_views, Flight, FlightView, UnscheduledReason};
use crate::ident::names;
use crate::schedule::delay::unschedule;
use crate::schedule::order::{departs_before, departures_ascend};
use crate::schedule::{
    break_views, id_views, DisruptionReport, DisruptionReportView, DisruptionType, DisruptionTypeView, Schedule,
    ScheduleView,
};
use crate::time::{overlapping, Time};

verus! {

/// Some curfew of `curfews` overlaps the window in which `flight` flies.
pub open spec fn curfew_hits(curfews: Seq<CurfewView>, flight: FlightView) -> bool {
    exists|k: int|
        0 <= k < curfews.len() && overlapping(
            flight.departure,
            flight.arrival,
            (#[trigger] curfews[k]).from,
            curfews[k].to,
        )
}

/// The flight has an aircraft, departs from or arrives at `airport`, and
/// flies during one of the airport's curfews.
pub open spec fn struck_by(curfews: Seq<CurfewView>, airport: Seq<char>, flight: FlightView) -> bool {
    &&& flight.active()
    &&& flight.origin == airport || flight.destination == airport
    &&& curfew_hits(curfews, flight)
}

/// The flight at place `i` is cut off: it has an aircraft, and a struck
/// flight of the same aircraft departs at or before it.
pub open spec fn cut_off(flights: Seq<FlightView>, curfews: Seq<CurfewView>, airport: Seq<char>, i: int) -> bool {
    &&& flights[i].active()
    &&& exists|j: int|
        0 <= j < flights.len() && struck_by(curfews, airport, #[trigger] flights[j]) && flights[j].aircraft
            == flights[i].aircraft && flights[j].departure <= flights[i].departure
}

/// The flight at place `i` is the first, in order of departure, of the
/// flights of its aircraft that are cut off.
pub open spec fn heads_cut(flights: Seq<FlightView>, curfews: Seq<CurfewView>, airport: Seq<char>, i: int) -> bool {
    &&& cut_off(flights, curfews, airport, i)
    &&& forall|j: int|
        0 <= j < flights.len() && cut_off(flights, curfews, airport, j) && (#[trigger] flights[j]).aircraft
            == flights[i].aircraft ==> !departs_before(flights, j, i)
}

/// Why the flight at place `i` loses its aircraft, if it does.
pub open spec fn verdict(
    flights: Seq<FlightView>,
    curfews: Seq<CurfewView>,
    airport: Seq<char>,
    i: int,
) -> Option<UnscheduledReason> {
    if !cut_off(flights, curfews, airport, i) {
        None
    } else if heads_cut(flights, curfews, airport, i) {
        Some(UnscheduledReason::AirportCurfew)
    } else {
        Some(UnscheduledReason::BrokenChain)
    }
}

/// The flight at place `i` after the curfew.
pub open spec fn after_curfew(
    flights: Seq<FlightView>,
    curfews: Seq<CurfewView>,
    airport: Seq<char>,
    i: int,
) -> FlightView {
    match verdict(flights, curfews, airport, i) {
        Some(reason) => flights[i].released(reason),
        None => flights[i],
    }
}

/// The flights among the first `n` that lose their aircraft, each with the
/// reason, in the order of the list.
pub open spec fn breaks(
    flights: Seq<FlightView>,
    curfews: Seq<CurfewView>,
    airport: Seq<char>,
    n: int,
) -> Seq<(Seq<char>, UnscheduledReason)>
    decreases n,
{
    if n <= 0 {
        Seq::empty()
    } else {
        match verdict(flights, curfews, airport, n - 1) {
            Some(reason) => breaks(flights, curfews, airport, n - 1).push((flights[n - 1].id, reason)),
            None => breaks(flights, curfews, airport, n - 1),
        }
    }
}

impl ScheduleView {
    /// The curfews of `airport` once the window from `from` to `to` is
    /// declared there.
    pub open spec fn curfews_with(self, airport: Seq<char>, from: int, to: int) -> Seq<CurfewView> {
        airport_entry(self.airports, airport)->0.curfews.push(CurfewView { from, to })
    }

    /// The report of a curfew at `airport` from `from` to `to`. It is empty
    /// when there is no such airport.
    pub open spec fn curfew_report(self, airport: Seq<char>, from: int, to: int) -> DisruptionReportView {
        let unscheduled = if has_airport(self.airports, airport) {
            breaks(self.flights, self.curfews_with(airport, from, to), airport, self.flights.len() as int)
        } else {
            Seq::empty()
        };
        DisruptionReportView {
            kind: DisruptionTypeView::Curfew { airport, from, to },
            affected: Seq::empty(),
            unscheduled,
            first_break: DisruptionReportView::first_of(unscheduled),
        }
    }

    /// The schedule after a curfew at `airport` from `from` to `to`. An
    /// unknown airport changes neither airports nor flights.
    pub open spec fn curfewed(self, airport: Seq<char>, from: int, to: int) -> ScheduleView {
        ScheduleView {
            airports: with_curfew(self.airports, airport, CurfewView { from, to }),
            flights: if has_airport(self.airports, airport) {
                Seq::new(
                    self.flights.len(),
                    |i: int| after_curfew(self.flights, self.curfews_with(airport, from, to), airport, i),
                )
            } else {
                self.flights
            },
            last_report: Some(self.curfew_report(airport, from, to)),
            ..self
        }
    }
}

/// A curfew moves no flight in time, so the flights stay in the order in
/// which they stood.
pub proof fn lemma_curfew_keeps_order(schedule: ScheduleView, airport: Seq<char>, from: int, to: int)
    ensures
        schedule.curfewed(airport, from, to).flights.len() == schedule.flights.len(),
        forall|i: int|
            0 <= i < schedule.flights.len() ==> (#[trigger] schedule.curfewed(airport, from, to).flights[i]).departure
                == schedule.flights[i].departure && schedule.curfewed(airport, from, to).flights[i].arrival
                == schedule.flights[i].arrival,
        departures_ascend(schedule.flights) ==> departures_ascend(schedule.curfewed(airport, from, to).flights),
        schedule.rotations_in_list_order() ==> schedule.curfewed(airport, from, to).rotations_in_list_order(),
        schedule.no_flight_arrives_early() ==> schedule.curfewed(airport, from, to).no_flight_arrives_early(),
{
    let after = schedule.curfewed(airport, from, to);
    if departures_ascend(schedule.flights) {
        assert forall|i: int, j: int| 0 <= i < j < after.flights.len() implies (#[trigger] after.flights[i]).departure
            <= (#[trigger] after.flights[j]).departure by {
            assert(schedule.flights[i].departure <= schedule.flights[j].departure);
        }
    }
    if schedule.rotations_in_list_order() {
        assert forall|i: int, j: int| #[trigger] after.listed_ahead(i, j) implies after.flights[i].departure
            <= after.flights[j].departure by {
            assert(schedule.listed_ahead(i, j));
        }
    }
}

/// A curfew keeps status and ownership in step: a flight that loses its
/// aircraft is unscheduled, and no other flight changes. Every delay that
/// was positive still is.
pub proof fn lemma_curfew_keeps_dual(schedule: ScheduleView, airport: Seq<char>, from: int, to: int)
    ensures
        schedule.dual() ==> schedule.curfewed(airport, from, to).dual(),
        schedule.delays_positive() ==> schedule.curfewed(airport, from, to).delays_positive(),
{
    let after = schedule.curfewed(airport, from, to);
    if schedule.dual() {
        assert forall|i: int| 0 <= i < after.flights.len() implies #[trigger] after.owned_or_unscheduled(i) by {
            assert(schedule.owned_or_unscheduled(i));
        }
    }
    if schedule.delays_positive() {
        assert forall|i: int| 0 <= i < after.flights.len() implies #[trigger] after.delay_positive(i) by {
            assert(schedule.delay_positive(i));
        }
    }
}

/// A curfew keeps a consistent schedule consistent: it takes from each
/// rotation everything from the break point on, and what is left of the
/// rotation is still continuous and still starts at the home base.
pub proof fn lemma_curfew_keeps_consistent(schedule: ScheduleView, airport: Seq<char>, from: int, to: int)
    requires
        airports_ascending(schedule.airports),
        schedule.consistent(),
    ensures
        schedule.curfewed(airport, from, to).consistent(),
{
    let after = schedule.curfewed(airport, from, to);
    let given = schedule.flights;
    lemma_with_curfew(schedule.airports, airport, CurfewView { from, to });
    if has_airport(schedule.airports, airport) {
        let curfews = schedule.curfews_with(airport, from, to);
        assert forall|i: int| 0 <= i < after.flights.len() implies #[trigger] after.owned_or_unscheduled(i) by {
            assert(schedule.owned_or_unscheduled(i));
        }
        assert forall|i: int| 0 <= i < after.flights.len() implies #[trigger] after.delay_positive(i) by {
            assert(schedule.delay_positive(i));
        }
        assert forall|i: int, j: int| #[trigger] after.consecutive(i, j) implies after.connects(i, j) by {
            assert(schedule.owned_or_unscheduled(i));
            assert(schedule.owned_or_unscheduled(j));
            assert(!cut_off(given, curfews, airport, i));
            assert(!cut_off(given, curfews, airport, j));
            assert forall|k: int| !#[trigger] schedule.separates(i, k, j) by {
                if schedule.separates(i, k, j) {
                    assert(schedule.owned_or_unscheduled(k));
                    if cut_off(given, curfews, airport, k) {
                        let x = choose|x: int|
                            0 <= x < given.len() && struck_by(curfews, airport, #[trigger] given[x]) && given[x].aircraft
                                == given[k].aircraft && given[x].departure <= given[k].departure;
                        assert(struck_by(curfews, airport, given[x]) && given[x].aircraft == given[j].aircraft
                            && given[x].departure <= given[j].departure);
                        assert(cut_off(given, curfews, airport, j));
                    } else {
                        assert(after.separates(i, k, j));
                    }
                }
            }
            assert(schedule.consecutive(i, j));
            assert(schedule.connects(i, j));
        }
        assert forall|i: int| #[trigger] after.leads(i) implies after.departs_from_base(i) by {
            assert(schedule.owned_or_unscheduled(i));
            assert(!cut_off(given, curfews, airport, i));
            assert forall|k: int| !#[trigger] schedule.precedes_in_rotation(k, i) by {
                if schedule.precedes_in_rotation(k, i) {
                    assert(schedule.owned_or_unscheduled(k));
                    if cut_off(given, curfews, airport, k) {
                        let x = choose|x: int|
                            0 <= x < given.len() && struck_by(curfews, airport, #[trigger] given[x]) && given[x].aircraft
                                == given[k].aircraft && given[x].departure <= given[k].departure;
                        assert(struck_by(curfews, airport, given[x]) && given[x].aircraft == given[i].aircraft
                            && given[x].departure <= given[i].departure);
                        assert(cut_off(given, curfews, airport, i));
                    } else {
                        assert(after.precedes_in_rotation(k, i));
                    }
                }
            }
            assert(schedule.leads(i));
            assert(schedule.departs_from_base(i));
        }
    } else {
        assert(after.flights == given);
        assert(after.airports == schedule.airports);
        assert forall|i: int| 0 <= i < after.flights.len() implies #[trigger] after.owned_or_unscheduled(i) by {
            assert(schedule.owned_or_unscheduled(i));
        }
        assert forall|i: int| 0 <= i < after.flights.len() implies #[trigger] after.delay_positive(i) by {
            assert(schedule.delay_positive(i));
        }
        assert forall|i: int, j: int| #[trigger] after.consecutive(i, j) implies after.connects(i, j) by {
            assert forall|k: int| !#[trigger] schedule.separates(i, k, j) by {
                assert(!after.separates(i, k, j));
            }
            assert(schedule.consecutive(i, j));
        }
        assert forall|i: int| #[trigger] after.leads(i) implies after.departs_from_base(i) by {
            assert forall|k: int| !#[trigger] schedule.precedes_in_rotation(k, i) by {
                assert(!after.precedes_in_rotation(k, i));
            }
            assert(schedule.leads(i));
        }
    }
}

/// The curfews of a list as mathematical values.
pub open spec fn curfew_views(curfews: Seq<Curfew>) -> Seq<CurfewView> {
    curfews.map_values(|c: Curfew| c@)
}

/// Whether some curfew of `curfews` overlaps the window in which `flight`
/// flies.
fn hits(curfews: &Vec<Curfew>, flight: &Flight) -> (hit: bool)
    ensures
        hit == curfew_hits(curfew_views(curfews@), flight@),
{
    let n = curfews.len();
    let mut k: usize = 0;
    while k < n
        invariant
            n == curfews@.len(),
            k <= n,
            forall|h: int|
                0 <= h < k ==> !overlapping(
                    flight@.departure,
                    flight@.arrival,
                    (#[trigger] curfew_views(curfews@)[h]).from,
                    curfew_views(curfews@)[h].to,
                ),
        decreases n - k,
    {
        assert(curfews@[k as int]@ == curfew_views(curfews@)[k as int]);
        if Time::is_overlapping(&(flight.departure_time, flight.arrival_time), &(curfews[k].from, curfews[k].to)) {
            return true;
        }
        k = k + 1;
    }
    false
}

/// Whether `flight` has an aircraft, touches `airport`, and flies during
/// one of `curfews`.
fn is_struck(curfews: &Vec<Curfew>, airport: &String, flight: &Flight) -> (struck: bool)
    ensures
        struck == struck_by(curfew_views(curfews@), airport@, flight@),
{
    !flight.status.is_unscheduled() && flight.aircraft_id.is_some() && (flight.origin_id == *airport
        || flight.destination_id == *airport) && hits(curfews, flight)
}

/// Whether the flight at place `i` is cut off, given for each flight
/// whether it is struck.
fn is_cut_off(
    flights: &Vec<Flight>,
    struck: &Vec<bool>,
    i: usize,
    Ghost(curfews): Ghost<Seq<CurfewView>>,
    Ghost(airport): Ghost<Seq<char>>,
) -> (cut: bool)
    requires
        i < flights@.len(),
        struck@.len() == flights@.len(),
        forall|j: int|
            0 <= j < flights@.len() ==> struck@[j] == struck_by(
                curfews,
                airport,
                #[trigger] flight_views(flights@)[j],
            ),
    ensures
        cut == cut_off(flight_views(flights@), curfews, airport, i as int),
{
    let ghost given = flight_views(flights@);
    let flight = &flights[i];
    assert(flight@ == given[i as int]);
    if flight.status.is_unscheduled() {
        return false;
    }
    match &flight.aircraft_id {
        None => false,
        Some(plane) => {
            let n = flights.len();
            let mut j: usize = 0;
            while j < n
                invariant
                    n == flights@.len(),
                    j <= n,
                    i < n,
                    struck@.len() == n,
                    given == flight_views(flights@),
                    flight@ == given[i as int],
                    flight@.aircraft == Some(plane@),
                    flight@.active(),
                    forall|h: int| 0 <= h < n ==> struck@[h] == struck_by(curfews, airport, #[trigger] given[h]),
                    forall|h: int|
                        0 <= h < j ==> !(struck_by(curfews, airport, #[trigger] given[h]) && given[h].aircraft
                            == given[i as int].aircraft && given[h].departure <= given[i as int].departure),
                decreases n - j,
            {
                assert(flights@[j as int]@ == given[j as int]);
                assert(struck@[j as int] == struck_by(curfews, airport, given[j as int]));
                if struck[j] && names(&flights[j].aircraft_id, plane) && flights[j].departure_time.0
                    <= flight.departure_time.0 {
                    return true;
                }
                j = j + 1;
            }
            false
        },
    }
}

/// Whether no flight of the same aircraft that is cut off comes before the
/// flight at place `i` in order of departure.
fn is_head(
    flights: &Vec<Flight>,
    cut: &Vec<bool>,
    i: usize,
    Ghost(curfews): Ghost<Seq<CurfewView>>,
    Ghost(airport): Ghost<Seq<char>>,
) -> (head: bool)
    requires
        i < flights@.len(),
        cut@.len() == flights@.len(),
        cut@[i as int],
        forall|j: int|
            0 <= j < flights@.len() ==> #[trigger] cut@[j] == cut_off(flight_views(flights@), curfews, airport, j),
    ensures
        head == heads_cut(flight_views(flights@), curfews, airport, i as int),
{
    let ghost given = flight_views(flights@);
    let flight = &flights[i];
    assert(flight@ == given[i as int]);
    match &flight.aircraft_id {
        None => false,
        Some(plane) => {
            let n = flights.len();
            let mut j: usize = 0;
            while j < n
                invariant
                    n == flights@.len(),
                    j <= n,
                    i < n,
                    cut@.len() == n,
                    given == flight_views(flights@),
                    flight@ == given[i as int],
                    flight@.aircraft == Some(plane@),
                    forall|h: int| 0 <= h < n ==> #[trigger] cut@[h] == cut_off(given, curfews, airport, h),
                    forall|h: int|
                        0 <= h < j && cut_off(given, curfews, airport, h) && (#[trigger] given[h]).aircraft
                            == given[i as int].aircraft ==> !departs_before(given, h, i as int),
                decreases n - j,
            {
                assert(flights@[j as int]@ == given[j as int]);
                assert(cut@[j as int] == cut_off(given, curfews, airport, j as int));
                if cut[j] && names(&flights[j].aircraft_id, plane) && (flights[j].departure_time.0
                    < flight.departure_time.0 || (flights[j].departure_time.0 == flight.departure_time.0 && j < i)) {
                    return false;
                }
                j = j + 1;
            }
            true
        },
    }
}

impl Schedule {
    /// Closes the airport `airport_id` from `from` to `to` and takes the
    /// aircraft from every flight that the closure cuts off. Returns the
    /// report, which the schedule also keeps as its latest.
    ///
    /// An identifier that no airport carries changes neither airports nor
    /// flights; the empty report is kept. A consistent schedule stays
    /// consistent.
    pub fn apply_curfew(&mut self, airport_id: AirportId, from: Time, to: Time) -> (report: DisruptionReport)
        ensures
            final(self)@ == old(self)@.curfewed(airport_id@, from@, to@),
            report@ == old(self)@.curfew_report(airport_id@, from@, to@),
            final(self)@.flights.len() == old(self)@.flights.len(),
            departures_ascend(old(self)@.flights) ==> departures_ascend(final(self)@.flights),
            old(self)@.dual() ==> final(self)@.dual(),
            old(self)@.delays_positive() ==> final(self)@.delays_positive(),
            old(self)@.consistent() ==> final(self)@.consistent(),
            old(self)@.rotations_in_list_order() ==> final(self)@.rotations_in_list_order(),
            old(self)@.no_flight_arrives_early() ==> final(self)@.no_flight_arrives_early(),
    {
        self.airports.ordered();
        proof {
            if self@.consistent() {
                lemma_curfew_keeps_consistent(self@, airport_id@, from@, to@);
            }
            lemma_curfew_keeps_order(self@, airport_id@, from@, to@);
            lemma_curfew_keeps_dual(self@, airport_id@, from@, to@);
        }
        let ghost given = flight_views(self.flights@);
        let ghost airport = airport_id@;
        let kind = DisruptionType::Curfew { airport: airport_id.clone(), from, to };
        let affected: Vec<String> = Vec::new();
        let mut unscheduled: Vec<(String, UnscheduledReason)> = Vec::new();
        assert(id_views(affected@) =~= Seq::empty());
        assert(break_views(unscheduled@) =~= Seq::empty());
        let known = self.airports.add_curfew(&airport_id, Curfew { from, to });
        if known {
            let ghost curfews = old(self)@.curfews_with(airport, from@, to@);
            proof {
                lemma_with_curfew(old(self).airports@, airport, CurfewView { from: from@, to: to@ });
            }
            let n = self.flights.len();
            let mut verdicts: Vec<Option<UnscheduledReason>> = Vec::new();
            match self.airports.get(&airport_id) {
                None => {
                    assert(false);
                },
                Some(station) => {
                    assert(curfew_views(station.disruptions@) =~= curfews);
                    let mut struck: Vec<bool> = Vec::new();
                    let mut i: usize = 0;
                    while i < n
                        invariant
                            n == self.flights@.len(),
                            i <= n,
                            given == flight_views(self.flights@),
                            curfew_views(station.disruptions@) == curfews,
                            airport == airport_id@,
                            struck@.len() == i,
                            forall|j: int|
                                0 <= j < i ==> struck@[j] == struck_by(curfews, airport, #[trigger] given[j]),
                        decreases n - i,
                    {
                        assert(self.flights@[i as int]@ == given[i as int]);
                        struck.push(is_struck(&station.disruptions, &airport_id, &self.flights[i]));
                        i = i + 1;
                    }
                    let mut cut: Vec<bool> = Vec::new();
                    i = 0;
                    while i < n
                        invariant
                            n == self.flights@.len(),
                            i <= n,
                            given == flight_views(self.flights@),
                            struck@.len() == n,
                            forall|j: int|
                                0 <= j < n ==> struck@[j] == struck_by(curfews, airport, #[trigger] given[j]),
                            cut@.len() == i,
                            forall|j: int| 0 <= j < i ==> #[trigger] cut@[j] == cut_off(given, curfews, airport, j),
                        decreases n - i,
                    {
                        cut.push(is_cut_off(&self.flights, &struck, i, Ghost(curfews), Ghost(airport)));
                        i = i + 1;
                    }
                    i = 0;
                    while i < n
                        invariant
                            n == self.flights@.len(),
                            i <= n,
                            given == flight_views(self.flights@),
                            cut@.len() == n,
                            forall|j: int| 0 <= j < n ==> #[trigger] cut@[j] == cut_off(given, curfews, airport, j),
                            verdicts@.len() == i,
                            forall|j: int|
                                0 <= j < i ==> #[trigger] verdicts@[j] == verdict(given, curfews, airport, j),
                        decreases n - i,
                    {
                        assert(cut@[i as int] == cut_off(given, curfews, airport, i as int));
                        let v = if !cut[i] {
                            None
                        } else if is_head(&self.flights, &cut, i, Ghost(curfews), Ghost(airport)) {
                            Some(UnscheduledReason::AirportCurfew)
                        } else {
                            Some(UnscheduledReason::BrokenChain)
                        };
                        verdicts.push(v);
                        i = i + 1;
                    }
                },
            }
            let mut i: usize = 0;
            while i < n
                invariant
                    n == self.flights@.len(),
                    n == given.len(),
                    i <= n,
                    verdicts@.len() == n,
                    forall|j: int| 0 <= j < n ==> #[trigger] verdicts@[j] == verdict(given, curfews, airport, j),
                    self.aircraft@ == old(self).aircraft@,
                    self.airports@ == with_curfew(old(self).airports@, airport, CurfewView { from: from@, to: to@ }),
                    forall|j: int|
                        0 <= j < i ==> (#[trigger] flight_views(self.flights@)[j]) == after_curfew(
                            given,
                            curfews,
                            airport,
                            j,
                        ),
                    forall|j: int| i <= j < n ==> (#[trigger] flight_views(self.flights@)[j]) == given[j],
                    break_views(unscheduled@) == breaks(given, curfews, airport, i as int),
                decreases n - i,
            {
                assert(verdicts@[i as int] == verdict(given, curfews, airport, i as int));
                assert(flight_views(self.flights@)[i as int] == given[i as int]);
                assert(self.flights@[i as int]@ == given[i as int]);
                match verdicts[i] {
                    Some(reason) => {
                        let ghost before = break_views(unscheduled@);
                        unscheduled.push((self.flights[i].id.clone(), reason));
                        assert(break_views(unscheduled@) =~= before.push((given[i as int].id, reason)));
                        unschedule(&mut self.flights, i, reason);
                    },
                    None => {},
                }
                i = i + 1;
            }
            assert(flight_views(self.flights@) =~= old(self)@.curfewed(airport, from@, to@).flights);
        }
        let first_break = if unscheduled.len() > 0 {
            Some((unscheduled[0].0.clone(), unscheduled[0].1))
        } else {
            None
        };
        let report = DisruptionReport { kind, affected, unscheduled, first_break };
        self.last_report = Some(report.duplicate());
        report
    }
}

} // verus!
