//! The schedule of an airline: its fleet, its airports and its flights, the
//! engine that assigns aircraft to flights, and the engines that carry a
//! delay or a curfew through the rotations it touches.

use vstd::prelude::*;

use crate::aircraft::{AircraftView, Fleet};
use crate::airport::{AirportId, AirportTable, AirportView};
use crate::flight::{flight_views, Flight, FlightId, FlightView, UnscheduledReason};
use crate::ident::same_id;
use crate::schedule::delay::MAX_DELAY;
use crate::schedule::order::{by_departure, departing_at, departures_ascend, sort_by_departure};
use crate::time::Time;

pub mod assign;
pub mod curfew;
pub mod delay;
pub mod growth;
pub mod invariants;
pub mod order;
pub mod ripple;
pub mod rules;

verus! {

/// The event behind a disruption report.
#[derive(Clone, Debug, PartialEq, Eq)]
pub enum DisruptionType {
    /// The flight `flight` was delayed by `delay_by` minutes.
    Delay { flight: FlightId, delay_by: u64 },
    /// The airport `airport` was closed from `from` to `to`.
    Curfew { airport: AirportId, from: Time, to: Time },
}

/// A disruption event as a mathematical value.
pub enum DisruptionTypeView {
    Delay { flight: Seq<char>, delay_by: int },
    Curfew { airport: Seq<char>, from: int, to: int },
}

impl View for DisruptionType {
    type V = DisruptionTypeView;

    open spec fn view(&self) -> DisruptionTypeView {
        match *self {
            DisruptionType::Delay { flight, delay_by } => DisruptionTypeView::Delay {
                flight: flight@,
                delay_by: delay_by as int,
            },
            DisruptionType::Curfew { airport, from, to } => DisruptionTypeView::Curfew {
                airport: airport@,
                from: from@,
                to: to@,
            },
        }
    }
}

/// What one delay or one curfew did to the schedule.
#[derive(Clone, Debug, PartialEq, Eq)]
pub struct DisruptionReport {
    /// The event that was applied.
    pub kind: DisruptionType,
    /// The flights that were moved and kept their aircraft, in the order in
    /// which they were moved.
    pub affected: Vec<FlightId>,
    /// The flights that lost their aircraft, each with the reason, in the
    /// order in which they were found.
    pub unscheduled: Vec<(FlightId, UnscheduledReason)>,
    /// The first entry of `unscheduled`, if there is one.
    pub first_break: Option<(FlightId, UnscheduledReason)>,
}

/// A disruption report as a mathematical value.
pub struct DisruptionReportView {
    pub kind: DisruptionTypeView,
    pub affected: Seq<Seq<char>>,
    pub unscheduled: Seq<(Seq<char>, UnscheduledReason)>,
    pub first_break: Option<(Seq<char>, UnscheduledReason)>,
}

/// The identifiers of a list as sequences of characters.
pub open spec fn id_views(ids: Seq<String>) -> Seq<Seq<char>> {
    ids.map_values(|id: String| id@)
}

/// The entries of a list of unscheduled flights as mathematical values.
pub open spec fn break_views(breaks: Seq<(String, UnscheduledReason)>) -> Seq<(Seq<char>, UnscheduledReason)> {
    breaks.map_values(|b: (String, UnscheduledReason)| (b.0@, b.1))
}

impl View for DisruptionReport {
    type V = DisruptionReportView;

    open spec fn view(&self) -> DisruptionReportView {
        DisruptionReportView {
            kind: self.kind@,
            affected: id_views(self.affected@),
            unscheduled: break_views(self.unscheduled@),
            first_break: match self.first_break {
                Some(b) => Some((b.0@, b.1)),
                None => None,
            },
        }
    }
}

impl DisruptionReportView {
    /// The report of an event `kind` that touched no flight.
    pub open spec fn empty(kind: DisruptionTypeView) -> DisruptionReportView {
        DisruptionReportView { kind, affected: Seq::empty(), unscheduled: Seq::empty(), first_break: None }
    }

    /// What `first_break` holds for a list of unscheduled flights.
    pub open spec fn first_of(
        unscheduled: Seq<(Seq<char>, UnscheduledReason)>,
    ) -> Option<(Seq<char>, UnscheduledReason)> {
        if unscheduled.len() > 0 {
            Some(unscheduled[0])
        } else {
            None
        }
    }
}

/// The last place among the first `n` flights that holds a flight with the
/// identifier `id`.
pub open spec fn find_flight(flights: Seq<FlightView>, id: Seq<char>, n: int) -> Option<int>
    decreases n,
{
    if n <= 0 {
        None
    } else if flights[n - 1].id == id {
        Some(n - 1)
    } else {
        find_flight(flights, id, n - 1)
    }
}

/// What `find_flight` finds: a place that holds the identifier, behind
/// which no place among the first `n` holds it.
pub proof fn lemma_find_flight(flights: Seq<FlightView>, id: Seq<char>, n: int)
    requires
        n <= flights.len(),
    ensures
        match find_flight(flights, id, n) {
            Some(t) => 0 <= t < n && flights[t].id == id && forall|j: int|
                t < j < n ==> (#[trigger] flights[j]).id != id,
            None => forall|j: int| 0 <= j < n ==> (#[trigger] flights[j]).id != id,
        },
    decreases n,
{
    if n > 0 && flights[n - 1].id != id {
        lemma_find_flight(flights, id, n - 1);
    }
}

/// The place of the flight with the identifier `id`: the last one, should
/// several flights carry it.
pub fn locate_flight(flights: &Vec<Flight>, id: &String) -> (found: Option<usize>)
    ensures
        match found {
            Some(t) => find_flight(flight_views(flights@), id@, flights@.len() as int) == Some(t as int) && t
                < flights@.len(),
            None => find_flight(flight_views(flights@), id@, flights@.len() as int) is None,
        },
{
    let mut n: usize = flights.len();
    while n > 0
        invariant
            n <= flights@.len(),
            find_flight(flight_views(flights@), id@, flights@.len() as int) == find_flight(
                flight_views(flights@),
                id@,
                n as int,
            ),
        decreases n,
    {
        assert(flights@[n - 1]@ == flight_views(flights@)[n - 1]);
        if same_id(&flights[n - 1].id, id) {
            return Some(n - 1);
        }
        n = n - 1;
    }
    None
}

impl DisruptionReport {
    /// A report with the same content.
    pub fn duplicate(&self) -> (copy: DisruptionReport)
        ensures
            copy@ == self@,
    {
        let kind = match &self.kind {
            DisruptionType::Delay { flight, delay_by } => DisruptionType::Delay {
                flight: flight.clone(),
                delay_by: *delay_by,
            },
            DisruptionType::Curfew { airport, from, to } => DisruptionType::Curfew {
                airport: airport.clone(),
                from: *from,
                to: *to,
            },
        };
        let mut affected: Vec<String> = Vec::new();
        let n = self.affected.len();
        let mut i: usize = 0;
        while i < n
            invariant
                n == self.affected@.len(),
                i <= n,
                affected@.len() == i,
                forall|k: int| 0 <= k < i ==> (#[trigger] affected@[k])@ == self.affected@[k]@,
            decreases n - i,
        {
            affected.push(self.affected[i].clone());
            i = i + 1;
        }
        assert(id_views(affected@) =~= id_views(self.affected@));
        let mut unscheduled: Vec<(String, UnscheduledReason)> = Vec::new();
        let m = self.unscheduled.len();
        let mut j: usize = 0;
        while j < m
            invariant
                m == self.unscheduled@.len(),
                j <= m,
                unscheduled@.len() == j,
                forall|k: int|
                    0 <= k < j ==> (#[trigger] unscheduled@[k]).0@ == self.unscheduled@[k].0@ && unscheduled@[k].1
                        == self.unscheduled@[k].1,
            decreases m - j,
        {
            unscheduled.push((self.unscheduled[j].0.clone(), self.unscheduled[j].1));
            j = j + 1;
        }
        assert(break_views(unscheduled@) =~= break_views(self.unscheduled@));
        let first_break = match &self.first_break {
            Some(b) => Some((b.0.clone(), b.1)),
            None => None,
        };
        DisruptionReport { kind, affected, unscheduled, first_break }
    }
}

/// The fleet, the airports and the flights of an airline. The flights are
/// listed in ascending order of departure time: construction puts them in
/// that order, assignment and curfews move no flight, and a delay puts the
/// flights that it has moved back in their places.
#[derive(Debug, PartialEq, Eq)]
pub struct Schedule {
    pub aircraft: Fleet,
    pub airports: AirportTable,
    pub flights: Vec<Flight>,
    pub last_report: Option<DisruptionReport>,
}

/// A schedule as a mathematical value.
pub struct ScheduleView {
    /// The aircraft, ascending by identifier.
    pub aircraft: Seq<AircraftView>,
    /// The airports, ascending by identifier.
    pub airports: Seq<AirportView>,
    /// The flights, in the order of the list.
    pub flights: Seq<FlightView>,
    /// The report of the latest disruption.
    pub last_report: Option<DisruptionReportView>,
}

impl View for Schedule {
    type V = ScheduleView;

    open spec fn view(&self) -> ScheduleView {
        ScheduleView {
            aircraft: self.aircraft@,
            airports: self.airports@,
            flights: flight_views(self.flights@),
            last_report: match self.last_report {
                Some(report) => Some(report@),
                None => None,
            },
        }
    }
}

impl Schedule {
    /// The longest delay, in minutes, that a flight may take and keep its
    /// aircraft.
    pub const MAX_DELAY: u64 = MAX_DELAY;

    /// A schedule of the given fleet, airports and flights. The flights are
    /// put in ascending order of departure time; flights that depart at the
    /// same minute keep the order given.
    pub fn new(aircraft: Fleet, airports: AirportTable, flights: Vec<Flight>) -> (schedule: Schedule)
        ensures
            schedule@.aircraft == aircraft@,
            schedule@.airports == airports@,
            schedule@.flights == by_departure(flight_views(flights@)),
            schedule@.last_report is None,
            departures_ascend(schedule@.flights),
            schedule@.flights.len() == flights@.len(),
            schedule@.flights.to_multiset() == flight_views(flights@).to_multiset(),
            forall|departure: int| #[trigger]
                departing_at(schedule@.flights, departure) == departing_at(flight_views(flights@), departure),
    {
        let flights = sort_by_departure(flights);
        Schedule { aircraft, airports, flights, last_report: None }
    }

    /// The report of the latest disruption, if any was applied.
    pub fn last_report(&self) -> (report: Option<&DisruptionReport>)
        ensures
            match report {
                Some(r) => self.last_report == Some(*r),
                None => self.last_report is None,
            },
    {
        self.last_report.as_ref()
    }
}

} // verus!
