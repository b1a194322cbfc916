//! The assignment engine: a greedy pass that binds aircraft to the flights
//! that have none.
//!
//! The pass takes the flights in the order of the list, which the
//! schedule keeps in ascending order of departure time. It keeps, for each
//! aircraft, the airport at which the aircraft stands and the instant from
//! which it is ready there. A flight without aircraft gets the first
//! aircraft, in ascending order of identifier, that stands at the flight's
//! origin and is free for it; the aircraft then stands at the destination.

use vstd::prelude::*;

use crate::aircraft::{aircraft_ascending, Aircraft, AircraftView, Fleet};
use crate::airport::{AirportTable, AirportView};
use crate::flight::{flight_views, Flight, FlightStatus, FlightView};
use crate::ident::{id_before, names};
use crate::schedule::rules::{
    airports_closed, at_wrong_airport, get_ready_time, is_airport_closed, is_at_wrong_airport, ready_time,
    violates_aircraft_maintenance, violates_maintenance,
};
use crate::schedule::growth::{lemma_ascending_runs_forward, lemma_assign_keeps_consistent};
use crate::schedule::order::departures_ascend;
use crate::schedule::{Schedule, ScheduleView};
use crate::time::{overlapping, Time};

verus! {

/// Where an aircraft stands, and from when it is ready to depart there.
pub struct Position {
    pub location: Seq<char>,
    pub ready: int,
}

/// A window during which an aircraft is busy with a flight: from the
/// flight's departure until the aircraft is ready again.
pub struct Busy {
    pub from: int,
    pub until: int,
}

/// The state of an assignment pass: the flights as bound so far and, in the
/// order of the fleet, the position of each aircraft and the windows in
/// which it is busy.
pub struct Roster {
    pub flights: Seq<FlightView>,
    pub positions: Seq<Position>,
    pub books: Seq<Seq<Busy>>,
}

/// The instant until which `flight` keeps its aircraft busy: its arrival
/// plus the turnaround time of its destination.
pub open spec fn busy_until(airports: Seq<AirportView>, flight: FlightView) -> int {
    ready_time(airports, flight.arrival, flight.destination)
}

/// The window during which `flight` keeps its aircraft busy.
pub open spec fn busy_with(airports: Seq<AirportView>, flight: FlightView) -> Busy {
    Busy { from: flight.departure, until: busy_until(airports, flight) }
}

/// The busy windows of the aircraft `id` before the pass: one for each of
/// the first `n` flights that name it as their aircraft, in the order of the
/// list.
pub open spec fn booked(airports: Seq<AirportView>, flights: Seq<FlightView>, id: Seq<char>, n: int) -> Seq<Busy>
    decreases n,
{
    if n <= 0 {
        Seq::empty()
    } else if flights[n - 1].flown_by(id) {
        booked(airports, flights, id, n - 1).push(busy_with(airports, flights[n - 1]))
    } else {
        booked(airports, flights, id, n - 1)
    }
}

/// None of the busy windows of `book` overlaps the window from `departure`
/// to `arrival`.
pub open spec fn is_free(book: Seq<Busy>, departure: int, arrival: int) -> bool {
    forall|b: int| 0 <= b < book.len() ==> !overlapping(departure, arrival, (#[trigger] book[b]).from, book[b].until)
}

/// The position of `aircraft` after the first `n` flights of the list: the
/// destination of the last of them that it flies, ready after the
/// turnaround there; its home base at time zero when it flies none of them.
pub open spec fn standing(
    airports: Seq<AirportView>,
    flights: Seq<FlightView>,
    aircraft: AircraftView,
    n: int,
) -> Position
    decreases n,
{
    if n <= 0 {
        Position { location: aircraft.initial_location, ready: 0 }
    } else if flights[n - 1].active() && flights[n - 1].flown_by(aircraft.id) {
        Position { location: flights[n - 1].destination, ready: busy_until(airports, flights[n - 1]) }
    } else {
        standing(airports, flights, aircraft, n - 1)
    }
}

/// The state in which a pass over `flights` starts.
pub open spec fn opening(fleet: Seq<AircraftView>, airports: Seq<AirportView>, flights: Seq<FlightView>) -> Roster {
    Roster {
        flights,
        positions: Seq::new(fleet.len(), |i: int| standing(airports, flights, fleet[i], flights.len() as int)),
        books: Seq::new(fleet.len(), |i: int| booked(airports, flights, fleet[i].id, flights.len() as int)),
    }
}

/// The aircraft at place `i` of the fleet can take the flight `flight`: it
/// stands at the flight's origin, no maintenance window overlaps the flight,
/// no maintenance window since it became ready pins it elsewhere, and it is
/// not busy during the flight.
pub open spec fn serves(
    fleet: Seq<AircraftView>,
    airports: Seq<AirportView>,
    roster: Roster,
    i: int,
    flight: FlightView,
) -> bool {
    &&& roster.positions[i].location == flight.origin
    &&& !violates_maintenance(fleet[i].disruptions, flight.departure, flight.arrival)
    &&& !at_wrong_airport(
        fleet[i].disruptions,
        flight.departure,
        roster.positions[i].location,
        roster.positions[i].ready,
    )
    &&& is_free(roster.books[i], flight.departure, flight.arrival)
}

/// The first place of the fleet, from `from` on, whose aircraft can take
/// `flight`.
pub open spec fn first_serving(
    fleet: Seq<AircraftView>,
    airports: Seq<AirportView>,
    roster: Roster,
    flight: FlightView,
    from: int,
) -> Option<int>
    decreases fleet.len() - from,
{
    if from < 0 || from >= fleet.len() {
        None
    } else if serves(fleet, airports, roster, from, flight) {
        Some(from)
    } else {
        first_serving(fleet, airports, roster, flight, from + 1)
    }
}

/// The place in the fleet of the aircraft that `flight` gets: none while
/// its origin is closed at its departure or its destination at its arrival,
/// else the first aircraft that can take it.
pub open spec fn choice(
    fleet: Seq<AircraftView>,
    airports: Seq<AirportView>,
    roster: Roster,
    flight: FlightView,
) -> Option<int> {
    if airports_closed(airports, flight.origin, flight.destination, flight.departure, flight.arrival) {
        None
    } else {
        first_serving(fleet, airports, roster, flight, 0)
    }
}

/// The state after the pass has considered the flight at place `k`. A
/// flight that is not unscheduled is passed over. An unscheduled flight
/// with a choice is bound to the chosen aircraft, which is busy with it and
/// moves to its destination.
pub open spec fn consider(
    fleet: Seq<AircraftView>,
    airports: Seq<AirportView>,
    roster: Roster,
    k: int,
) -> Roster {
    let flight = roster.flights[k];
    if flight.status is Unscheduled {
        match choice(fleet, airports, roster, flight) {
            Some(i) => Roster {
                flights: roster.flights.update(k, flight.bound_to(fleet[i].id)),
                positions: roster.positions.update(
                    i,
                    Position { location: flight.destination, ready: busy_until(airports, flight) },
                ),
                books: roster.books.update(i, roster.books[i].push(busy_with(airports, flight))),
            },
            None => roster,
        }
    } else {
        roster
    }
}

/// The state after the pass has considered the first `n` flights.
pub open spec fn pass(
    fleet: Seq<AircraftView>,
    airports: Seq<AirportView>,
    flights: Seq<FlightView>,
    n: int,
) -> Roster
    decreases n,
{
    if n <= 0 {
        opening(fleet, airports, flights)
    } else {
        consider(fleet, airports, pass(fleet, airports, flights, n - 1), n - 1)
    }
}

impl ScheduleView {
    /// The schedule after an assignment pass over all its flights.
    pub open spec fn assigned(self) -> ScheduleView {
        ScheduleView {
            flights: pass(self.aircraft, self.airports, self.flights, self.flights.len() as int).flights,
            ..self
        }
    }
}

/// A place found by the search lies in the fleet, at or behind the place
/// where the search began, its aircraft can take the flight, and no
/// aircraft between the two can.
pub proof fn lemma_first_serving_in_fleet(
    fleet: Seq<AircraftView>,
    airports: Seq<AirportView>,
    roster: Roster,
    flight: FlightView,
    from: int,
)
    requires
        0 <= from,
    ensures
        match first_serving(fleet, airports, roster, flight, from) {
            Some(i) => from <= i < fleet.len() && serves(fleet, airports, roster, i, flight) && forall|j: int|
                from <= j < i ==> !serves(fleet, airports, roster, j, flight),
            None => forall|j: int| from <= j < fleet.len() ==> !serves(fleet, airports, roster, j, flight),
        },
    decreases fleet.len() - from,
{
    if from < fleet.len() && !serves(fleet, airports, roster, from, flight) {
        lemma_first_serving_in_fleet(fleet, airports, roster, flight, from + 1);
    }
}

/// What a pass may have done to a flight: nothing, or, if the flight was
/// unscheduled, bound it to an aircraft of the fleet.
pub open spec fn kept_or_bound(fleet: Seq<AircraftView>, before: FlightView, after: FlightView) -> bool {
    after == before || (before.status is Unscheduled && exists|i: int|
        0 <= i < fleet.len() && after == before.bound_to(#[trigger] fleet[i].id))
}

/// A pass changes a flight at most once, when it considers it: flights that
/// it has not reached are as given, and every flight is as given or was
/// unscheduled and is now bound to an aircraft of the fleet.
pub proof fn lemma_pass_frame(
    fleet: Seq<AircraftView>,
    airports: Seq<AirportView>,
    flights: Seq<FlightView>,
    n: int,
)
    requires
        n <= flights.len(),
    ensures
        pass(fleet, airports, flights, n).flights.len() == flights.len(),
        pass(fleet, airports, flights, n).positions.len() == fleet.len(),
        pass(fleet, airports, flights, n).books.len() == fleet.len(),
        forall|j: int|
            0 <= j < flights.len() ==> kept_or_bound(
                fleet,
                flights[j],
                #[trigger] pass(fleet, airports, flights, n).flights[j],
            ),
        forall|j: int|
            n <= j < flights.len() && 0 <= j ==> (#[trigger] pass(fleet, airports, flights, n).flights[j])
                == flights[j],
    decreases n,
{
    if n > 0 {
        lemma_pass_frame(fleet, airports, flights, n - 1);
        let before = pass(fleet, airports, flights, n - 1);
        let after = pass(fleet, airports, flights, n);
        lemma_first_serving_in_fleet(fleet, airports, before, before.flights[n - 1], 0);
        assert(before.flights[n - 1] == flights[n - 1]);
        assert forall|j: int| 0 <= j < flights.len() implies kept_or_bound(
            fleet,
            flights[j],
            #[trigger] after.flights[j],
        ) by {
            assert(kept_or_bound(fleet, flights[j], before.flights[j]));
        }
        assert forall|j: int| n <= j < flights.len() && 0 <= j implies (#[trigger] after.flights[j]) == flights[j] by {
            assert(before.flights[j] == flights[j]);
        }
    }
}

/// Assignment leaves the fleet, the airports and the latest report as they
/// are, keeps every flight that has an aircraft, and changes nothing of an
/// unscheduled flight but its aircraft and its status.
pub proof fn lemma_assign_frame(schedule: ScheduleView)
    ensures
        schedule.assigned().aircraft == schedule.aircraft,
        schedule.assigned().airports == schedule.airports,
        schedule.assigned().last_report == schedule.last_report,
        schedule.assigned().flights.len() == schedule.flights.len(),
        forall|j: int|
            0 <= j < schedule.flights.len() ==> kept_or_bound(
                schedule.aircraft,
                schedule.flights[j],
                #[trigger] schedule.assigned().flights[j],
            ),
{
    lemma_pass_frame(schedule.aircraft, schedule.airports, schedule.flights, schedule.flights.len() as int);
}

/// Assignment keeps status and ownership in step: where every flight had
/// an aircraft exactly if it was not unscheduled, that still holds. Every
/// delay that was positive still is.
pub proof fn lemma_assign_keeps_dual(schedule: ScheduleView)
    ensures
        schedule.dual() ==> schedule.assigned().dual(),
        schedule.delays_positive() ==> schedule.assigned().delays_positive(),
{
    lemma_assign_frame(schedule);
    let after = schedule.assigned();
    if schedule.dual() {
        assert forall|i: int| 0 <= i < after.flights.len() implies #[trigger] after.owned_or_unscheduled(i) by {
            assert(schedule.owned_or_unscheduled(i));
            assert(kept_or_bound(schedule.aircraft, schedule.flights[i], after.flights[i]));
        }
    }
    if schedule.delays_positive() {
        assert forall|i: int| 0 <= i < after.flights.len() implies #[trigger] after.delay_positive(i) by {
            assert(schedule.delay_positive(i));
            assert(kept_or_bound(schedule.aircraft, schedule.flights[i], after.flights[i]));
        }
    }
}

/// Assignment moves no flight, in time or in the list: a list that ascends
/// in departure time still does.
pub proof fn lemma_assign_keeps_order(schedule: ScheduleView)
    ensures
        schedule.assigned().flights.len() == schedule.flights.len(),
        forall|i: int|
            0 <= i < schedule.flights.len() ==> (#[trigger] schedule.assigned().flights[i]).departure
                == schedule.flights[i].departure && schedule.assigned().flights[i].arrival
                == schedule.flights[i].arrival,
        departures_ascend(schedule.flights) ==> departures_ascend(schedule.assigned().flights),
{
    lemma_assign_frame(schedule);
    let after = schedule.assigned();
    assert forall|i: int| 0 <= i < schedule.flights.len() implies (#[trigger] after.flights[i]).departure
        == schedule.flights[i].departure && after.flights[i].arrival == schedule.flights[i].arrival by {
        assert(kept_or_bound(schedule.aircraft, schedule.flights[i], after.flights[i]));
    }
    if departures_ascend(schedule.flights) {
        assert forall|i: int, j: int| 0 <= i < j < after.flights.len() implies (#[trigger] after.flights[i]).departure
            <= (#[trigger] after.flights[j]).departure by {
            assert(schedule.flights[i].departure <= schedule.flights[j].departure);
        }
    }
}

/// Of the aircraft that can take a flight, the one with the smallest
/// identifier is chosen; none is chosen exactly if none can take it or one
/// of its airports is closed.
pub proof fn lemma_choice_takes_smallest_id(
    fleet: Seq<AircraftView>,
    airports: Seq<AirportView>,
    roster: Roster,
    flight: FlightView,
)
    requires
        aircraft_ascending(fleet),
    ensures
        match choice(fleet, airports, roster, flight) {
            Some(i) => {
                &&& 0 <= i < fleet.len()
                &&& serves(fleet, airports, roster, i, flight)
                &&& !airports_closed(airports, flight.origin, flight.destination, flight.departure, flight.arrival)
                &&& forall|j: int|
                    0 <= j < fleet.len() && j != i && serves(fleet, airports, roster, j, flight) ==> id_before(
                        fleet[i].id,
                        #[trigger] fleet[j].id,
                    )
            },
            None => airports_closed(airports, flight.origin, flight.destination, flight.departure, flight.arrival)
                || forall|j: int| 0 <= j < fleet.len() ==> !serves(fleet, airports, roster, j, flight),
        },
{
    lemma_first_serving_in_fleet(fleet, airports, roster, flight, 0);
}

/// Assignment is a function of the fleet, the airports and the flights:
/// schedules that agree in these are assigned alike.
pub proof fn lemma_assign_deterministic(one: ScheduleView, other: ScheduleView)
    requires
        one.aircraft == other.aircraft,
        one.airports == other.airports,
        one.flights == other.flights,
    ensures
        one.assigned().flights == other.assigned().flights,
{
}

impl ScheduleView {
    /// No unscheduled flight has an aircraft that could take it: for each
    /// of them the choice, made in the state in which a pass starts, is
    /// empty.
    pub open spec fn settled(self) -> bool {
        forall|k: int|
            0 <= k < self.flights.len() && (#[trigger] self.flights[k]).status is Unscheduled ==> choice(
                self.aircraft,
                self.airports,
                opening(self.aircraft, self.airports, self.flights),
                self.flights[k],
            ) is None
    }
}

/// A pass over a settled schedule changes nothing.
proof fn lemma_settled_pass_rests(
    fleet: Seq<AircraftView>,
    airports: Seq<AirportView>,
    flights: Seq<FlightView>,
    n: int,
)
    requires
        n <= flights.len(),
        (ScheduleView { aircraft: fleet, airports, flights, last_report: None }).settled(),
    ensures
        pass(fleet, airports, flights, n) == opening(fleet, airports, flights),
    decreases n,
{
    if n > 0 {
        lemma_settled_pass_rests(fleet, airports, flights, n - 1);
    }
}

/// A pass that binds a flight leaves it bound, so the flight differs from
/// the given one in the end.
proof fn lemma_bound_stays_bound(
    fleet: Seq<AircraftView>,
    airports: Seq<AirportView>,
    flights: Seq<FlightView>,
    k: int,
    n: int,
)
    requires
        0 <= k < n <= flights.len(),
    ensures
        pass(fleet, airports, flights, n).flights[k] == pass(fleet, airports, flights, k + 1).flights[k],
    decreases n,
{
    if n > k + 1 {
        lemma_bound_stays_bound(fleet, airports, flights, k, n - 1);
        lemma_pass_frame(fleet, airports, flights, n - 1);
        let before = pass(fleet, airports, flights, n - 1);
        lemma_first_serving_in_fleet(fleet, airports, before, before.flights[n - 1], 0);
    }
}

/// A pass that changes no flight has found no choice for any flight.
proof fn lemma_idle_pass_rests(
    fleet: Seq<AircraftView>,
    airports: Seq<AirportView>,
    flights: Seq<FlightView>,
    n: int,
)
    requires
        0 <= n <= flights.len(),
        pass(fleet, airports, flights, flights.len() as int).flights == flights,
    ensures
        pass(fleet, airports, flights, n) == opening(fleet, airports, flights),
        forall|k: int|
            0 <= k < n && (#[trigger] flights[k]).status is Unscheduled ==> choice(
                fleet,
                airports,
                opening(fleet, airports, flights),
                flights[k],
            ) is None,
    decreases n,
{
    if n > 0 {
        lemma_idle_pass_rests(fleet, airports, flights, n - 1);
        let before = pass(fleet, airports, flights, n - 1);
        lemma_bound_stays_bound(fleet, airports, flights, n - 1, flights.len() as int);
        lemma_first_serving_in_fleet(fleet, airports, before, before.flights[n - 1], 0);
        if flights[n - 1].status is Unscheduled && choice(fleet, airports, before, flights[n - 1]) is Some {
            let i = choice(fleet, airports, before, flights[n - 1])->0;
            assert(pass(fleet, airports, flights, n).flights[n - 1] == flights[n - 1].bound_to(fleet[i].id));
            assert(false);
        }
    }
}

/// Assignment changes no flight exactly if the schedule is settled.
pub proof fn lemma_assign_rests_iff_settled(schedule: ScheduleView)
    ensures
        schedule.assigned().flights == schedule.flights <==> schedule.settled(),
{
    let n = schedule.flights.len() as int;
    if schedule.settled() {
        assert((ScheduleView {
            aircraft: schedule.aircraft,
            airports: schedule.airports,
            flights: schedule.flights,
            last_report: None,
        }).settled());
        lemma_settled_pass_rests(schedule.aircraft, schedule.airports, schedule.flights, n);
    }
    if schedule.assigned().flights == schedule.flights {
        lemma_idle_pass_rests(schedule.aircraft, schedule.airports, schedule.flights, n);
    }
}

/// A second assignment right after a first changes no flight exactly if the
/// first left the schedule settled.
pub proof fn lemma_assign_twice(schedule: ScheduleView)
    ensures
        schedule.assigned().assigned().flights == schedule.assigned().flights <==> schedule.assigned().settled(),
{
    lemma_assign_rests_iff_settled(schedule.assigned());
}

/// The positions that the vectors `locations` and `ready` hold.
pub open spec fn positions_of(locations: Seq<String>, ready: Seq<u128>) -> Seq<Position> {
    Seq::new(locations.len(), |i: int| Position { location: locations[i]@, ready: ready[i] as int })
}

/// The busy windows that the vector `book` holds.
pub open spec fn book_of(book: Seq<(u64, u128)>) -> Seq<Busy> {
    Seq::new(book.len(), |b: int| Busy { from: book[b].0 as int, until: book[b].1 as int })
}

/// The busy windows that the vectors of `books` hold, aircraft by aircraft.
pub open spec fn books_of(books: Seq<Vec<(u64, u128)>>) -> Seq<Seq<Busy>> {
    Seq::new(books.len(), |i: int| book_of(books[i]@))
}

/// The position of `aircraft` before the pass: behind the last flight of
/// the list that it flies, or at its home base.
fn standing_of(airports: &AirportTable, flights: &Vec<Flight>, aircraft: &Aircraft) -> (position: (String, u128))
    ensures
        standing(airports@, flight_views(flights@), aircraft@, flights@.len() as int) == (Position {
            location: position.0@,
            ready: position.1 as int,
        }),
{
    let mut n: usize = flights.len();
    while n > 0
        invariant
            n <= flights@.len(),
            standing(airports@, flight_views(flights@), aircraft@, flights@.len() as int) == standing(
                airports@,
                flight_views(flights@),
                aircraft@,
                n as int,
            ),
        decreases n,
    {
        let flight = &flights[n - 1];
        assert(flight@ == flight_views(flights@)[n - 1]);
        if !flight.status.is_unscheduled() && names(&flight.aircraft_id, &aircraft.id) {
            let ready = get_ready_time(airports, flight.arrival_time, &flight.destination_id);
            return (flight.destination_id.clone(), ready);
        }
        n = n - 1;
    }
    (aircraft.initial_location_id.clone(), 0)
}

/// The busy windows of the aircraft `id` before the pass.
fn booked_of(airports: &AirportTable, flights: &Vec<Flight>, id: &String) -> (book: Vec<(u64, u128)>)
    ensures
        book_of(book@) == booked(airports@, flight_views(flights@), id@, flights@.len() as int),
{
    let mut book: Vec<(u64, u128)> = Vec::new();
    let n = flights.len();
    let mut j: usize = 0;
    assert(book_of(book@) =~= booked(airports@, flight_views(flights@), id@, 0));
    while j < n
        invariant
            n == flights@.len(),
            j <= n,
            book_of(book@) == booked(airports@, flight_views(flights@), id@, j as int),
        decreases n - j,
    {
        let flight = &flights[j];
        assert(flight@ == flight_views(flights@)[j as int]);
        if names(&flight.aircraft_id, id) {
            let until = get_ready_time(airports, flight.arrival_time, &flight.destination_id);
            let ghost before = book_of(book@);
            book.push((flight.departure_time.0, until));
            assert(book_of(book@) =~= before.push(busy_with(airports@, flight@)));
        }
        j = j + 1;
    }
    book
}

/// Whether none of the busy windows of `book` overlaps the window from
/// `departure` to `arrival`.
fn is_free_for(book: &Vec<(u64, u128)>, departure: Time, arrival: Time) -> (free: bool)
    ensures
        free == is_free(book_of(book@), departure@, arrival@),
{
    let n = book.len();
    let mut b: usize = 0;
    while b < n
        invariant
            n == book@.len(),
            b <= n,
            forall|h: int|
                0 <= h < b ==> !overlapping(
                    departure@,
                    arrival@,
                    (#[trigger] book_of(book@)[h]).from,
                    book_of(book@)[h].until,
                ),
        decreases n - b,
    {
        assert(book_of(book@)[b as int] == (Busy { from: book@[b as int].0 as int, until: book@[b as int].1 as int }));
        if (departure.0 as u128) < book[b].1 && arrival.0 > book[b].0 {
            return false;
        }
        b = b + 1;
    }
    true
}

/// The state that the flights and the vectors of an assignment pass hold.
pub open spec fn roster_of(
    flights: Seq<Flight>,
    locations: Seq<String>,
    ready: Seq<u128>,
    books: Seq<Vec<(u64, u128)>>,
) -> Roster {
    Roster { flights: flight_views(flights), positions: positions_of(locations, ready), books: books_of(books) }
}

/// The place in the fleet of the aircraft that the flight at place `k`
/// gets in the state that `flights`, `locations`, `ready` and `books` hold.
fn pick(
    fleet: &Fleet,
    airports: &AirportTable,
    flights: &Vec<Flight>,
    locations: &Vec<String>,
    ready: &Vec<u128>,
    books: &Vec<Vec<(u64, u128)>>,
    k: usize,
) -> (chosen: Option<usize>)
    requires
        k < flights@.len(),
        locations@.len() == fleet@.len(),
        ready@.len() == fleet@.len(),
        books@.len() == fleet@.len(),
    ensures
        match chosen {
            Some(i) => choice(
                fleet@,
                airports@,
                roster_of(flights@, locations@, ready@, books@),
                flight_views(flights@)[k as int],
            ) == Some(i as int) && i < fleet@.len(),
            None => choice(
                fleet@,
                airports@,
                roster_of(flights@, locations@, ready@, books@),
                flight_views(flights@)[k as int],
            ) is None,
        },
{
    let flight = &flights[k];
    let ghost roster = roster_of(flights@, locations@, ready@, books@);
    assert(flight@ == flight_views(flights@)[k as int]);
    if is_airport_closed(airports, flight, flight.departure_time.0 as u128, flight.arrival_time.0 as u128) {
        return None;
    }
    let n = fleet.len();
    let mut i: usize = 0;
    while i < n
        invariant
            n == fleet@.len(),
            i <= n,
            locations@.len() == fleet@.len(),
            ready@.len() == fleet@.len(),
            books@.len() == fleet@.len(),
            k < flights@.len(),
            flight@ == flight_views(flights@)[k as int],
            !airports_closed(
                airports@,
                flight@.origin,
                flight@.destination,
                flight@.departure,
                flight@.arrival,
            ),
            roster == roster_of(flights@, locations@, ready@, books@),
            first_serving(fleet@, airports@, roster, flight@, 0) == first_serving(
                fleet@,
                airports@,
                roster,
                flight@,
                i as int,
            ),
        decreases n - i,
    {
        let aircraft = fleet.at(i);
        assert(roster.positions[i as int] == (Position {
            location: locations@[i as int]@,
            ready: ready@[i as int] as int,
        }));
        assert(roster.books[i as int] == book_of(books@[i as int]@));
        if locations[i] == flight.origin_id && !violates_aircraft_maintenance(
            &aircraft.disruptions,
            flight.departure_time.0 as u128,
            flight.arrival_time.0 as u128,
        ) && !is_at_wrong_airport(&aircraft.disruptions, flight.departure_time, &locations[i], ready[i])
            && is_free_for(&books[i], flight.departure_time, flight.arrival_time) {
            return Some(i);
        }
        i = i + 1;
    }
    None
}

impl Schedule {
    /// Binds an aircraft to every flight without one that an aircraft can
    /// take, in one pass over the flights in the order of the list, which
    /// is the order of departure wherever the list ascends. Flights that
    /// have an aircraft are left as they are, and no flight is moved.
    ///
    /// A schedule in which every flight has an aircraft exactly if it is not
    /// unscheduled stays so. A consistent schedule stays consistent where
    /// every flight arrives after it departs and the list runs forward in
    /// time: where it ascends in departure time and no unscheduled flight
    /// departs before a flight that has an aircraft.
    pub fn assign(&mut self)
        ensures
            final(self)@ == old(self)@.assigned(),
            final(self)@.flights.len() == old(self)@.flights.len(),
            departures_ascend(old(self)@.flights) ==> departures_ascend(final(self)@.flights),
            old(self)@.dual() ==> final(self)@.dual(),
            old(self)@.delays_positive() ==> final(self)@.delays_positive(),
            old(self)@.consistent() && old(self)@.flights_take_time() && old(self)@.runs_forward()
                ==> final(self)@.consistent(),
            old(self)@.consistent() && old(self)@.flights_take_time() && departures_ascend(old(self)@.flights)
                && old(self)@.waiting_follow_flown() ==> final(self)@.consistent(),
    {
        self.aircraft.ordered();
        proof {
            lemma_assign_keeps_dual(self@);
            lemma_assign_keeps_order(self@);
            if departures_ascend(self@.flights) && self@.waiting_follow_flown() {
                lemma_ascending_runs_forward(self@);
            }
            if self@.consistent() && self@.flights_take_time() && self@.runs_forward() {
                lemma_assign_keeps_consistent(self@);
            }
        }
        let ghost fleet = self.aircraft@;
        let ghost airports = self.airports@;
        let ghost given = flight_views(self.flights@);
        let planes = self.aircraft.len();
        let mut locations: Vec<String> = Vec::new();
        let mut ready: Vec<u128> = Vec::new();
        let mut books: Vec<Vec<(u64, u128)>> = Vec::new();
        let mut a: usize = 0;
        while a < planes
            invariant
                planes == fleet.len(),
                a <= planes,
                fleet == self.aircraft@,
                airports == self.airports@,
                given == flight_views(self.flights@),
                locations@.len() == a,
                ready@.len() == a,
                books@.len() == a,
                forall|i: int|
                    0 <= i < a ==> (#[trigger] positions_of(locations@, ready@)[i]) == standing(
                        airports,
                        given,
                        fleet[i],
                        given.len() as int,
                    ),
                forall|i: int|
                    0 <= i < a ==> (#[trigger] books_of(books@)[i]) == booked(
                        airports,
                        given,
                        fleet[i].id,
                        given.len() as int,
                    ),
            decreases planes - a,
        {
            let position = standing_of(&self.airports, &self.flights, self.aircraft.at(a));
            let book = booked_of(&self.airports, &self.flights, &self.aircraft.at(a).id);
            let ghost earlier = positions_of(locations@, ready@);
            let ghost earlier_books = books_of(books@);
            locations.push(position.0);
            ready.push(position.1);
            books.push(book);
            proof {
                assert forall|i: int| 0 <= i < a + 1 implies (#[trigger] books_of(books@)[i]) == booked(
                    airports,
                    given,
                    fleet[i].id,
                    given.len() as int,
                ) by {
                    if i < a {
                        assert(books_of(books@)[i] == earlier_books[i]);
                    }
                }
                assert forall|i: int| 0 <= i < a + 1 implies (#[trigger] positions_of(locations@, ready@)[i])
                    == standing(airports, given, fleet[i], given.len() as int) by {
                    if i < a {
                        assert(positions_of(locations@, ready@)[i] == earlier[i]);
                    }
                }
            }
            a = a + 1;
        }
        assert(positions_of(locations@, ready@) =~= opening(fleet, airports, given).positions);
        assert(books_of(books@) =~= opening(fleet, airports, given).books);
        let n = self.flights.len();
        let mut k: usize = 0;
        while k < n
            invariant
                n == given.len(),
                k <= n,
                fleet == self.aircraft@,
                airports == self.airports@,
                self.last_report == old(self).last_report,
                locations@.len() == fleet.len(),
                ready@.len() == fleet.len(),
                books@.len() == fleet.len(),
                self.flights@.len() == n,
                roster_of(self.flights@, locations@, ready@, books@) == pass(fleet, airports, given, k as int),
            decreases n - k,
        {
            let ghost before = roster_of(self.flights@, locations@, ready@, books@);
            if self.flights[k].status.is_unscheduled() {
                match pick(&self.aircraft, &self.airports, &self.flights, &locations, &ready, &books, k) {
                    Some(i) => {
                        let id = self.aircraft.at(i).id.clone();
                        let destination = self.flights[k].destination_id.clone();
                        let until = get_ready_time(
                            &self.airports,
                            self.flights[k].arrival_time,
                            &self.flights[k].destination_id,
                        );
                        let departure = self.flights[k].departure_time.0;
                        self.flights[k].aircraft_id = Some(id);
                        self.flights[k].status = FlightStatus::Scheduled;
                        locations[i] = destination;
                        ready[i] = until;
                        books[i].push((departure, until));
                        proof {
                            let after = consider(fleet, airports, before, k as int);
                            assert(flight_views(self.flights@) =~= after.flights);
                            assert(positions_of(locations@, ready@) =~= after.positions);
                            assert(book_of(books@[i as int]@) =~= after.books[i as int]);
                            assert(books_of(books@) =~= after.books);
                        }
                    },
                    None => {},
                }
            }
            k = k + 1;
        }
    }
}

} // verus!
