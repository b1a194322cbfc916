//! The delay engine: moves one flight later and carries the delay through
//! the rest of its aircraft's rotation.
//!
//! The flight that is delayed is struck first. The engine then walks the
//! flights that stand behind it in the list and have the same aircraft.
//! Each of them moves just as far as the flight ahead of it forces it to.
//! The walk halts at the first flight that can keep its times. A flight
//! that cannot be kept breaks the rotation: it and every later flight of
//! the aircraft lose the aircraft. At the end the flights are put back in
//! ascending order of departure time.

use vstd::prelude::*;

use crate::aircraft::{aircraft_entry, AircraftView, Availability, AvailabilityView};
use crate::airport::{AirportTable, AirportView};
use crate::flight::{flight_views, Flight, FlightId, FlightStatus, FlightView, UnscheduledReason};
use crate::ident::names;
use crate::schedule::invariants::lemma_ascending_rotations_in_order;
use crate::schedule::order::{departures_ascend, sort_by_departure};
use crate::schedule::ripple::{lemma_delay_keeps_consistent, lemma_delay_keeps_dual, lemma_delay_keeps_order};
use crate::schedule::rules::{
    airports_closed, at_wrong_airport, compute_shifted_times, is_airport_closed, is_at_wrong_airport, shifted_times,
    violates_aircraft_maintenance, violates_maintenance,
};
use crate::schedule::{
    break_views, find_flight, id_views, locate_flight, DisruptionReport, DisruptionReportView, DisruptionType,
    DisruptionTypeView, Schedule, ScheduleView,
};
use crate::time::Time;

verus! {

/// The longest delay, in minutes, that a flight may take and keep its
/// aircraft.
pub const MAX_DELAY: u64 = 2000;

/// The state of a delay on its way through a rotation.
pub struct Wave {
    /// The flights as changed so far.
    pub flights: Seq<FlightView>,
    /// The flights that were moved and kept their aircraft.
    pub affected: Seq<Seq<char>>,
    /// The flights that lost their aircraft, each with the reason.
    pub unscheduled: Seq<(Seq<char>, UnscheduledReason)>,
    /// Whether the rotation is broken.
    pub broken: bool,
    /// Whether a flight has absorbed the delay, so that no later flight is
    /// touched.
    pub halted: bool,
    /// The arrival of the latest flight that was moved.
    pub prev_arrival: int,
    /// The destination of the latest flight that was moved.
    pub prev_destination: Seq<char>,
}

/// The maintenance windows of the aircraft that `slot` names: none when it
/// names no aircraft of the fleet.
pub open spec fn windows_of(fleet: Seq<AircraftView>, slot: Option<Seq<char>>) -> Seq<AvailabilityView> {
    match slot {
        Some(id) => match aircraft_entry(fleet, id) {
            Some(aircraft) => aircraft.disruptions,
            None => Seq::empty(),
        },
        None => Seq::empty(),
    }
}

impl Wave {
    /// This wave after the flight at place `j` has moved to the times
    /// `departure` and `arrival`, `minutes` later than it ran: the flight
    /// is delayed, and the wave carries on from it.
    pub open spec fn holding(self, j: int, departure: int, arrival: int, minutes: u64) -> Wave {
        Wave {
            flights: self.flights.update(
                j,
                FlightView { departure, arrival, status: FlightStatus::Delayed { minutes }, ..self.flights[j] },
            ),
            affected: self.affected.push(self.flights[j].id),
            prev_arrival: arrival,
            prev_destination: self.flights[j].destination,
            ..self
        }
    }

    /// This wave after the flight at place `j` has lost its aircraft for
    /// `reason`: the rotation is broken.
    pub open spec fn breaking(self, j: int, reason: UnscheduledReason) -> Wave {
        Wave {
            flights: self.flights.update(j, self.flights[j].released(reason)),
            unscheduled: self.unscheduled.push((self.flights[j].id, reason)),
            broken: true,
            ..self
        }
    }
}

/// The wave after the flight at place `t`, whose aircraft has the
/// maintenance windows `windows`, has been delayed by `shift` minutes.
///
/// A shift above the maximum unschedules the flight at its planned times.
/// Any other shift moves departure and arrival. The flight is then
/// unscheduled when a maintenance window of its aircraft overlaps the
/// window from its planned departure to its new arrival, or when its origin
/// is closed at its planned departure or its destination at its new
/// arrival. Otherwise a flight that has an aircraft is delayed by `shift`.
/// A flight without aircraft is moved and no more: it stays unscheduled for
/// the reason it had, and the report does not name it.
pub open spec fn strike(
    airports: Seq<AirportView>,
    windows: Seq<AvailabilityView>,
    flights: Seq<FlightView>,
    t: int,
    shift: u64,
) -> Wave {
    let flight = flights[t];
    let moved = FlightView { departure: flight.departure + shift, arrival: flight.arrival + shift, ..flight };
    let calm = Wave {
        flights,
        affected: Seq::empty(),
        unscheduled: Seq::empty(),
        broken: false,
        halted: false,
        prev_arrival: flight.arrival,
        prev_destination: flight.destination,
    };
    let shifted = Wave { flights: flights.update(t, moved), prev_arrival: moved.arrival, ..calm };
    if shift > MAX_DELAY {
        calm.breaking(t, UnscheduledReason::MaxDelayExceeded)
    } else if violates_maintenance(windows, flight.departure, moved.arrival) {
        shifted.breaking(t, UnscheduledReason::AircraftMaintenance)
    } else if airports_closed(airports, flight.origin, flight.destination, flight.departure, moved.arrival) {
        shifted.breaking(t, UnscheduledReason::AirportCurfew)
    } else if flight.aircraft is Some {
        calm.holding(t, moved.departure, moved.arrival, shift)
    } else {
        shifted
    }
}

/// The wave after it has reached the flight at place `j`.
///
/// A flight of another aircraft, and any flight once the wave has halted,
/// is left alone. In a broken rotation the flight loses its aircraft.
/// Otherwise the flight's candidate times follow from the flight ahead of
/// it. The flight loses its aircraft when a maintenance window overlaps
/// the window from its planned departure to its candidate arrival, when a
/// maintenance window between the arrival of the flight ahead and its
/// planned departure pins the aircraft elsewhere, when its airports are
/// closed at the candidate times, or when the candidate departure lies
/// more than the maximum behind the planned one. A flight that is left
/// after that moves to its candidate times if it is displaced, and halts the
/// wave if it is not.
pub open spec fn carry(
    airports: Seq<AirportView>,
    windows: Seq<AvailabilityView>,
    aircraft: Seq<char>,
    wave: Wave,
    j: int,
) -> Wave {
    let flight = wave.flights[j];
    let to = shifted_times(airports, flight, wave.prev_arrival, wave.prev_destination);
    if wave.halted || !flight.flown_by(aircraft) {
        wave
    } else if wave.broken {
        wave.breaking(j, UnscheduledReason::BrokenChain)
    } else if violates_maintenance(windows, flight.departure, to.arrival) || at_wrong_airport(
        windows,
        flight.departure,
        wave.prev_destination,
        wave.prev_arrival,
    ) {
        wave.breaking(j, UnscheduledReason::AircraftMaintenance)
    } else if airports_closed(airports, flight.origin, flight.destination, to.departure, to.arrival) {
        wave.breaking(j, UnscheduledReason::AirportCurfew)
    } else if to.departure - flight.departure > MAX_DELAY {
        wave.breaking(j, UnscheduledReason::MaxDelayExceeded)
    } else if to.displaced {
        wave.holding(j, to.departure, to.arrival, (to.departure - flight.departure) as u64)
    } else {
        Wave { halted: true, ..wave }
    }
}

/// The wave of a delay of the flight at place `t` after it has reached the
/// first `n` flights of the list. A flight without aircraft is struck and
/// the wave goes no further.
pub open spec fn spread(
    airports: Seq<AirportView>,
    windows: Seq<AvailabilityView>,
    flights: Seq<FlightView>,
    t: int,
    shift: u64,
    n: int,
) -> Wave
    decreases n,
{
    if n <= 0 || n <= t + 1 || flights[t].aircraft is None {
        strike(airports, windows, flights, t, shift)
    } else {
        carry(airports, windows, flights[t].aircraft->0, spread(airports, windows, flights, t, shift, n - 1), n - 1)
    }
}

impl ScheduleView {
    /// The wave that a delay of the flight `id` by `shift` minutes sends
    /// through the schedule. Nothing moves when the shift is zero or no
    /// flight carries the identifier.
    pub open spec fn delay_wave(self, id: Seq<char>, shift: u64) -> Wave {
        match find_flight(self.flights, id, self.flights.len() as int) {
            Some(t) if shift != 0 => spread(
                self.airports,
                windows_of(self.aircraft, self.flights[t].aircraft),
                self.flights,
                t,
                shift,
                self.flights.len() as int,
            ),
            _ => Wave {
                flights: self.flights,
                affected: Seq::empty(),
                unscheduled: Seq::empty(),
                broken: false,
                halted: false,
                prev_arrival: 0,
                prev_destination: Seq::empty(),
            },
        }
    }

    /// The report of a delay of the flight `id` by `shift` minutes.
    pub open spec fn delay_report(self, id: Seq<char>, shift: u64) -> DisruptionReportView {
        let wave = self.delay_wave(id, shift);
        DisruptionReportView {
            kind: DisruptionTypeView::Delay { flight: id, delay_by: shift as int },
            affected: wave.affected,
            unscheduled: wave.unscheduled,
            first_break: DisruptionReportView::first_of(wave.unscheduled),
        }
    }

    /// The schedule as the wave of a delay of the flight `id` by `shift`
    /// minutes leaves it: every flight still at its place in the list.
    pub open spec fn shaken(self, id: Seq<char>, shift: u64) -> ScheduleView {
        ScheduleView {
            flights: self.delay_wave(id, shift).flights,
            last_report: Some(self.delay_report(id, shift)),
            ..self
        }
    }

    /// The schedule after a delay of the flight `id` by `shift` minutes:
    /// what the wave leaves, with the flights put back in ascending order of
    /// departure time, flights that depart at the same minute in the order
    /// in which they stood. A shift of zero leaves the schedule as it is,
    /// the latest report included; an identifier that no flight carries
    /// leaves every flight at its place.
    pub open spec fn delayed(self, id: Seq<char>, shift: u64) -> ScheduleView {
        if shift == 0 {
            self
        } else if find_flight(self.flights, id, self.flights.len() as int) is Some {
            self.shaken(id, shift).ordered()
        } else {
            self.shaken(id, shift)
        }
    }

    /// Every flight can be moved later by the maximum delay without its
    /// times leaving the range of a `u64`.
    pub open spec fn delay_headroom(self) -> bool {
        forall|i: int|
            0 <= i < self.flights.len() ==> (#[trigger] self.flights[i]).departure + MAX_DELAY <= u64::MAX
                && self.flights[i].arrival + MAX_DELAY <= u64::MAX
    }
}


/// A wave that has halted goes no further.
pub proof fn lemma_halted_wave_rests(
    airports: Seq<AirportView>,
    windows: Seq<AvailabilityView>,
    flights: Seq<FlightView>,
    t: int,
    shift: u64,
    m: int,
    n: int,
)
    requires
        m <= n,
        spread(airports, windows, flights, t, shift, m).halted,
    ensures
        spread(airports, windows, flights, t, shift, n) == spread(airports, windows, flights, t, shift, m),
    decreases n - m,
{
    if m < n {
        lemma_halted_wave_rests(airports, windows, flights, t, shift, m, n - 1);
    }
}

/// A copy of the identifier that `slot` holds.
fn copy_slot(slot: &Option<String>) -> (copy: Option<String>)
    ensures
        copy == *slot,
{
    match slot {
        Some(id) => Some(id.clone()),
        None => None,
    }
}

/// Takes the aircraft from the flight at place `j` and records `reason`.
pub fn unschedule(flights: &mut Vec<Flight>, j: usize, reason: UnscheduledReason)
    requires
        j < old(flights)@.len(),
    ensures
        flight_views(final(flights)@) == flight_views(old(flights)@).update(
            j as int,
            flight_views(old(flights)@)[j as int].released(reason),
        ),
        final(flights)@.len() == old(flights)@.len(),
{
    flights[j].status = FlightStatus::Unscheduled(reason);
    flights[j].aircraft_id = None;
    assert(flight_views(flights@) =~= flight_views(old(flights)@).update(
        j as int,
        flight_views(old(flights)@)[j as int].released(reason),
    ));
}

/// What the engine holds of a wave besides the flights.
struct Tide {
    affected: Vec<FlightId>,
    unscheduled: Vec<(FlightId, UnscheduledReason)>,
    broken: bool,
    halted: bool,
    prev_arrival: Time,
    prev_destination: String,
}

impl Tide {
    /// The wave that this state and `flights` make up.
    spec fn wave(self, flights: Seq<Flight>) -> Wave {
        Wave {
            flights: flight_views(flights),
            affected: id_views(self.affected@),
            unscheduled: break_views(self.unscheduled@),
            broken: self.broken,
            halted: self.halted,
            prev_arrival: self.prev_arrival@,
            prev_destination: self.prev_destination@,
        }
    }

    /// Takes the aircraft from the flight at place `j` for `reason`: the
    /// rotation is broken.
    fn release(&mut self, flights: &mut Vec<Flight>, j: usize, reason: UnscheduledReason)
        requires
            j < old(flights)@.len(),
        ensures
            final(self).wave(final(flights)@) == old(self).wave(old(flights)@).breaking(j as int, reason),
            final(flights)@.len() == old(flights)@.len(),
    {
        let ghost before = self.wave(flights@);
        assert(flights@[j as int]@ == before.flights[j as int]);
        self.unscheduled.push((flights[j].id.clone(), reason));
        unschedule(flights, j, reason);
        self.broken = true;
        assert(break_views(self.unscheduled@) =~= before.unscheduled.push((before.flights[j as int].id, reason)));
    }

    /// Moves the flight at place `j` to the times `departure` and
    /// `arrival`, `minutes` later than it ran, and carries on from it.
    fn hold_back(&mut self, flights: &mut Vec<Flight>, j: usize, departure: Time, arrival: Time, minutes: u64)
        requires
            j < old(flights)@.len(),
        ensures
            final(self).wave(final(flights)@) == old(self).wave(old(flights)@).holding(
                j as int,
                departure@,
                arrival@,
                minutes,
            ),
            final(flights)@.len() == old(flights)@.len(),
    {
        let ghost before = self.wave(flights@);
        assert(flights@[j as int]@ == before.flights[j as int]);
        flights[j].status = FlightStatus::Delayed { minutes };
        flights[j].departure_time = departure;
        flights[j].arrival_time = arrival;
        self.prev_arrival = arrival;
        self.prev_destination = flights[j].destination_id.clone();
        self.affected.push(flights[j].id.clone());
        assert(id_views(self.affected@) =~= before.affected.push(before.flights[j as int].id));
        assert(flight_views(flights@) =~= before.holding(j as int, departure@, arrival@, minutes).flights);
    }
}

/// Delays the flight at place `t`, whose aircraft has the maintenance
/// windows `windows`, by `shift` minutes.
fn strike_flight(
    flights: &mut Vec<Flight>,
    airports: &AirportTable,
    windows: &Vec<Availability>,
    t: usize,
    shift: u64,
) -> (tide: Tide)
    requires
        t < old(flights)@.len(),
        flight_views(old(flights)@)[t as int].departure + MAX_DELAY <= u64::MAX,
        flight_views(old(flights)@)[t as int].arrival + MAX_DELAY <= u64::MAX,
    ensures
        tide.wave(final(flights)@) == strike(
            airports@,
            windows@.map_values(|d: Availability| d@),
            flight_views(old(flights)@),
            t as int,
            shift,
        ),
        final(flights)@.len() == old(flights)@.len(),
{
    let ghost given = flight_views(flights@);
    assert(flights@[t as int]@ == given[t as int]);
    let mut tide = Tide {
        affected: Vec::new(),
        unscheduled: Vec::new(),
        broken: false,
        halted: false,
        prev_arrival: flights[t].arrival_time,
        prev_destination: flights[t].destination_id.clone(),
    };
    assert(id_views(tide.affected@) =~= Seq::empty());
    assert(break_views(tide.unscheduled@) =~= Seq::empty());
    if shift > MAX_DELAY {
        tide.release(flights, t, UnscheduledReason::MaxDelayExceeded);
    } else {
        let planned = flights[t].departure_time;
        let departure = Time(planned.0 + shift);
        let arrival = Time(flights[t].arrival_time.0 + shift);
        let grounded = violates_aircraft_maintenance(windows, planned.0 as u128, arrival.0 as u128);
        if grounded || is_airport_closed(airports, &flights[t], planned.0 as u128, arrival.0 as u128) {
            flights[t].departure_time = departure;
            flights[t].arrival_time = arrival;
            tide.prev_arrival = arrival;
            assert(flight_views(flights@) =~= given.update(
                t as int,
                FlightView { departure: departure@, arrival: arrival@, ..given[t as int] },
            ));
            tide.release(
                flights,
                t,
                if grounded {
                    UnscheduledReason::AircraftMaintenance
                } else {
                    UnscheduledReason::AirportCurfew
                },
            );
        } else if flights[t].aircraft_id.is_some() {
            tide.hold_back(flights, t, departure, arrival, shift);
        } else {
            flights[t].departure_time = departure;
            flights[t].arrival_time = arrival;
            tide.prev_arrival = arrival;
        }
    }
    assert(tide.wave(flights@).flights =~= strike(
        airports@,
        windows@.map_values(|d: Availability| d@),
        given,
        t as int,
        shift,
    ).flights);
    tide
}

/// Carries the wave to the flight at place `j`.
fn carry_wave(
    flights: &mut Vec<Flight>,
    airports: &AirportTable,
    windows: &Vec<Availability>,
    plane: &String,
    tide: &mut Tide,
    j: usize,
)
    requires
        j < old(flights)@.len(),
        flight_views(old(flights)@)[j as int].departure + MAX_DELAY <= u64::MAX,
        flight_views(old(flights)@)[j as int].arrival + MAX_DELAY <= u64::MAX,
    ensures
        final(tide).wave(final(flights)@) == carry(
            airports@,
            windows@.map_values(|d: Availability| d@),
            plane@,
            old(tide).wave(old(flights)@),
            j as int,
        ),
        final(flights)@.len() == old(flights)@.len(),
{
    assert(flights@[j as int]@ == flight_views(flights@)[j as int]);
    if tide.halted || !names(&flights[j].aircraft_id, plane) {
        return ;
    }
    if tide.broken {
        tide.release(flights, j, UnscheduledReason::BrokenChain);
        return ;
    }
    let (dep_time, arr_time, displaced) = compute_shifted_times(
        airports,
        &flights[j],
        tide.prev_arrival,
        &tide.prev_destination,
    );
    let planned = flights[j].departure_time;
    if violates_aircraft_maintenance(windows, planned.0 as u128, arr_time) || is_at_wrong_airport(
        windows,
        planned,
        &tide.prev_destination,
        tide.prev_arrival.0 as u128,
    ) {
        tide.release(flights, j, UnscheduledReason::AircraftMaintenance);
    } else if is_airport_closed(airports, &flights[j], dep_time, arr_time) {
        tide.release(flights, j, UnscheduledReason::AirportCurfew);
    } else if dep_time - planned.0 as u128 > MAX_DELAY as u128 {
        tide.release(flights, j, UnscheduledReason::MaxDelayExceeded);
    } else if displaced {
        let minutes = (dep_time - planned.0 as u128) as u64;
        tide.hold_back(flights, j, Time(dep_time as u64), Time(arr_time as u64), minutes);
    } else {
        tide.halted = true;
    }
}

impl Schedule {
    /// Whether every flight can be moved later by the maximum delay without
    /// its times leaving the range of a `u64`.
    pub fn has_delay_headroom(&self) -> (roomy: bool)
        ensures
            roomy == self@.delay_headroom(),
    {
        let n = self.flights.len();
        let mut i: usize = 0;
        while i < n
            invariant
                n == self.flights@.len(),
                i <= n,
                forall|h: int|
                    0 <= h < i ==> (#[trigger] self@.flights[h]).departure + MAX_DELAY <= u64::MAX
                        && self@.flights[h].arrival + MAX_DELAY <= u64::MAX,
            decreases n - i,
        {
            assert(self@.flights[i as int] == self.flights@[i as int]@);
            if self.flights[i].departure_time.0 > u64::MAX - MAX_DELAY || self.flights[i].arrival_time.0
                > u64::MAX - MAX_DELAY {
                return false;
            }
            i = i + 1;
        }
        true
    }

    /// Delays the flight `flight_id` by `shift` minutes and carries the
    /// delay through the flights that follow it in its aircraft's rotation.
    /// Returns the report, which the schedule also keeps as its latest.
    ///
    /// The flights that the delay has moved are put back in their places:
    /// the list is left in ascending order of departure time.
    ///
    /// A shift of zero changes nothing and reports nothing. An identifier
    /// that no flight carries changes no flight; the empty report is kept.
    /// A flight without aircraft is moved in time, or unscheduled anew where
    /// the shift is too long or an airport is closed; it is never marked
    /// delayed.
    ///
    /// A schedule in which every flight has an aircraft exactly if it is not
    /// unscheduled stays so, and delays stay positive. A consistent
    /// schedule stays consistent where the list ascends in departure time,
    /// or at least the flights of each aircraft stand in it in order of
    /// departure, and no flight arrives before it departs.
    pub fn apply_delay(&mut self, flight_id: FlightId, shift: u64) -> (report: DisruptionReport)
        requires
            shift != 0 ==> old(self)@.delay_headroom(),
        ensures
            final(self)@ == old(self)@.delayed(flight_id@, shift),
            report@ == old(self)@.delay_report(flight_id@, shift),
            final(self)@.flights.len() == old(self)@.flights.len(),
            departures_ascend(old(self)@.flights) ==> departures_ascend(final(self)@.flights),
            old(self)@.dual() ==> final(self)@.dual(),
            old(self)@.delays_positive() ==> final(self)@.delays_positive(),
            old(self)@.no_flight_arrives_early() ==> final(self)@.no_flight_arrives_early(),
            old(self)@.consistent() && old(self)@.rotations_in_list_order() && old(self)@.no_flight_arrives_early()
                ==> final(self)@.consistent() && final(self)@.rotations_in_list_order(),
            old(self)@.consistent() && departures_ascend(old(self)@.flights) && old(self)@.no_flight_arrives_early()
                ==> final(self)@.consistent(),
    {
        proof {
            lemma_delay_keeps_dual(self@, flight_id@, shift);
            lemma_delay_keeps_order(self@, flight_id@, shift);
            if departures_ascend(self@.flights) {
                lemma_ascending_rotations_in_order(self@);
            }
            if self@.consistent() && self@.rotations_in_list_order() && self@.no_flight_arrives_early() {
                lemma_delay_keeps_consistent(self@, flight_id@, shift);
            }
        }
        let kind = DisruptionType::Delay { flight: flight_id.clone(), delay_by: shift };
        let mut report = DisruptionReport { kind, affected: Vec::new(), unscheduled: Vec::new(), first_break: None };
        assert(id_views(report.affected@) =~= Seq::empty());
        assert(break_views(report.unscheduled@) =~= Seq::empty());
        if shift == 0 {
            return report;
        }
        let ghost given = flight_views(self.flights@);
        let n = self.flights.len();
        match locate_flight(&self.flights, &flight_id) {
            None => {},
            Some(t) => {
                assert(self.flights@[t as int]@ == given[t as int]);
                let aircraft = copy_slot(&self.flights[t].aircraft_id);
                let none: Vec<Availability> = Vec::new();
                let windows: &Vec<Availability> = match &aircraft {
                    Some(id) => match self.aircraft.get(id) {
                        Some(plane) => &plane.disruptions,
                        None => &none,
                    },
                    None => &none,
                };
                let ghost marked = windows@.map_values(|d: Availability| d@);
                assert(marked =~= windows_of(self.aircraft@, given[t as int].aircraft));
                let mut tide = strike_flight(&mut self.flights, &self.airports, windows, t, shift);
                match &aircraft {
                    None => {},
                    Some(plane) => {
                        let mut j: usize = t + 1;
                        while j < n && !tide.halted
                            invariant
                                n == given.len(),
                                t < j <= n,
                                self.aircraft@ == old(self).aircraft@,
                                self.airports@ == old(self).airports@,
                                self.last_report == old(self).last_report,
                                self.flights@.len() == n,
                                old(self)@.delay_headroom(),
                                given == old(self)@.flights,
                                given[t as int].aircraft == Some(plane@),
                                marked == windows@.map_values(|d: Availability| d@),
                                forall|h: int| j <= h < n ==> (#[trigger] flight_views(self.flights@)[h]) == given[h],
                                tide.wave(self.flights@) == spread(
                                    self.airports@,
                                    marked,
                                    given,
                                    t as int,
                                    shift,
                                    j as int,
                                ),
                            decreases n - j,
                        {
                            assert(flight_views(self.flights@)[j as int] == given[j as int]);
                            carry_wave(&mut self.flights, &self.airports, windows, plane, &mut tide, j);
                            j = j + 1;
                        }
                        proof {
                            if tide.halted {
                                lemma_halted_wave_rests(
                                    self.airports@,
                                    marked,
                                    given,
                                    t as int,
                                    shift,
                                    j as int,
                                    n as int,
                                );
                            }
                        }
                    },
                }
                assert(tide.wave(self.flights@) == old(self)@.delay_wave(flight_id@, shift));
                if tide.unscheduled.len() > 0 {
                    report.first_break = Some((tide.unscheduled[0].0.clone(), tide.unscheduled[0].1));
                }
                report.affected = tide.affected;
                report.unscheduled = tide.unscheduled;
                let mut moved: Vec<Flight> = Vec::new();
                core::mem::swap(&mut self.flights, &mut moved);
                self.flights = sort_by_departure(moved);
            },
        }
        self.last_report = Some(report.duplicate());
        report
    }
}

} // verus!
