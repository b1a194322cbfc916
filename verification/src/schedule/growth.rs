//! Assignment lengthens rotations at their ends.
//!
//! A pass binds a flight to an aircraft that stands at the flight's origin
//! and is free for it. Where the flights without aircraft lie in the
//! future of the flights that have one, the aircraft stands where its
//! rotation ends, the new flight departs after the aircraft has turned
//! around, and the rotation stays continuous.

use vstd::prelude::*;

use crate::aircraft::{aircraft_ascending, lemma_aircraft_entry_at, lemma_aircraft_unique, AircraftView};
use crate::airport::AirportView;
use crate::flight::FlightView;
use crate::schedule::assign::{
    booked, busy_until, busy_with, choice, kept_or_bound, lemma_first_serving_in_fleet, lemma_pass_frame, opening, pass,
    serves, standing, Busy, Position,
};
use crate::schedule::order::{departs_before, departures_ascend};
use crate::schedule::ScheduleView;

verus! {

impl ScheduleView {
    /// Every flight arrives after it departs.
    pub open spec fn flights_take_time(self) -> bool {
        forall|i: int| 0 <= i < self.flights.len() ==> (#[trigger] self.flights[i]).departure < self.flights[i].arrival
    }

    /// The flight at place `j` is unscheduled, and the flight at place `i`
    /// has an aircraft or is unscheduled too and stands ahead of it in the
    /// list.
    pub open spec fn waits_behind(self, i: int, j: int) -> bool {
        &&& 0 <= i < self.flights.len()
        &&& 0 <= j < self.flights.len()
        &&& self.flights[j].status is Unscheduled
        &&& self.flights[i].aircraft is Some || (self.flights[i].status is Unscheduled && i < j)
    }

    /// The unscheduled flights lie in the future: they stand in the list
    /// in order of departure, and none of them departs before a flight that
    /// has an aircraft.
    pub open spec fn unscheduled_lie_ahead(self) -> bool {
        forall|i: int, j: int| #[trigger]
            self.waits_behind(i, j) ==> self.flights[i].departure <= self.flights[j].departure
    }

    /// The list runs forward in time: the flights of each aircraft stand in
    /// the list in order of departure, so do the unscheduled flights, and no
    /// unscheduled flight departs before a flight that has an aircraft.
    pub open spec fn runs_forward(self) -> bool {
        self.rotations_in_list_order() && self.unscheduled_lie_ahead()
    }
}

/// The aircraft `id` flies the flight at place `k`, which departs after the
/// flight at place `l`.
pub open spec fn outlasts(flights: Seq<FlightView>, id: Seq<char>, k: int, l: int) -> bool {
    0 <= k < flights.len() && flights[k].flown_by(id) && departs_before(flights, l, k)
}

/// The flight at place `l` is the last of the rotation of the aircraft
/// `id`.
pub open spec fn ends_rotation(flights: Seq<FlightView>, id: Seq<char>, l: int) -> bool {
    &&& 0 <= l < flights.len()
    &&& flights[l].flown_by(id)
    &&& forall|k: int| !#[trigger] outlasts(flights, id, k, l)
}

/// The aircraft `id` flies no flight.
pub open spec fn grounded(flights: Seq<FlightView>, id: Seq<char>) -> bool {
    forall|k: int| 0 <= k < flights.len() ==> !(#[trigger] flights[k]).flown_by(id)
}

/// Where an aircraft stands behind the flight `flight`.
pub open spec fn behind(airports: Seq<AirportView>, flight: FlightView) -> Position {
    Position { location: flight.destination, ready: busy_until(airports, flight) }
}

/// The position is that of the aircraft at the end of its rotation: behind
/// its last flight, or at its home base at time zero if it flies none.
pub open spec fn anchored(
    airports: Seq<AirportView>,
    flights: Seq<FlightView>,
    aircraft: AircraftView,
    position: Position,
) -> bool {
    ||| grounded(flights, aircraft.id) && position == (Position { location: aircraft.initial_location, ready: 0 })
    ||| exists|l: int| #[trigger] ends_rotation(flights, aircraft.id, l) && position == behind(airports, flights[l])
}

/// Every aircraft of the fleet stands at the end of its rotation.
pub open spec fn all_anchored(
    fleet: Seq<AircraftView>,
    airports: Seq<AirportView>,
    flights: Seq<FlightView>,
    positions: Seq<Position>,
) -> bool {
    &&& positions.len() == fleet.len()
    &&& forall|i: int| 0 <= i < fleet.len() ==> anchored(airports, flights, #[trigger] fleet[i], positions[i])
}

/// The book holds the busy window `window`.
pub open spec fn noted(book: Seq<Busy>, window: Busy) -> bool {
    exists|b: int| 0 <= b < book.len() && #[trigger] book[b] == window
}

/// If the aircraft at place `i` of the fleet flies the flight at place
/// `x`, its book holds the window of that flight.
pub open spec fn covers(
    fleet: Seq<AircraftView>,
    airports: Seq<AirportView>,
    flights: Seq<FlightView>,
    books: Seq<Seq<Busy>>,
    i: int,
    x: int,
) -> bool {
    flights[x].flown_by(fleet[i].id) ==> noted(books[i], busy_with(airports, flights[x]))
}

/// The book of every aircraft holds a window for each flight that it
/// flies.
pub open spec fn books_cover(
    fleet: Seq<AircraftView>,
    airports: Seq<AirportView>,
    flights: Seq<FlightView>,
    books: Seq<Seq<Busy>>,
) -> bool {
    &&& books.len() == fleet.len()
    &&& forall|i: int, x: int|
        0 <= i < fleet.len() && 0 <= x < flights.len() ==> #[trigger] covers(fleet, airports, flights, books, i, x)
}

/// The book with which an aircraft starts into a pass holds a window for
/// each flight that it flies.
proof fn lemma_booked_covers(airports: Seq<AirportView>, flights: Seq<FlightView>, id: Seq<char>, n: int)
    requires
        0 <= n <= flights.len(),
    ensures
        forall|x: int|
            0 <= x < n && (#[trigger] flights[x]).flown_by(id) ==> noted(
                booked(airports, flights, id, n),
                busy_with(airports, flights[x]),
            ),
    decreases n,
{
    if n > 0 {
        lemma_booked_covers(airports, flights, id, n - 1);
        let before = booked(airports, flights, id, n - 1);
        let after = booked(airports, flights, id, n);
        assert forall|x: int| 0 <= x < n && (#[trigger] flights[x]).flown_by(id) implies noted(
            after,
            busy_with(airports, flights[x]),
        ) by {
            if x < n - 1 {
                let b = choose|b: int| 0 <= b < before.len() && #[trigger] before[b] == busy_with(airports, flights[x]);
                assert(after[b] == busy_with(airports, flights[x]));
            } else {
                assert(after[after.len() - 1] == busy_with(airports, flights[x]));
            }
        }
    }
}

/// Where a list runs forward, an aircraft that has flown the first `n`
/// flights stands behind the last of them that it flies.
proof fn lemma_standing_anchored(schedule: ScheduleView, aircraft: AircraftView, n: int)
    requires
        schedule.dual(),
        schedule.runs_forward(),
        0 <= n <= schedule.flights.len(),
    ensures
        ({
            let position = standing(schedule.airports, schedule.flights, aircraft, n);
            ||| (forall|k: int| 0 <= k < n ==> !(#[trigger] schedule.flights[k]).flown_by(aircraft.id)) && position
                == (Position { location: aircraft.initial_location, ready: 0 })
            ||| exists|l: int|
                0 <= l < n && (#[trigger] schedule.flights[l]).flown_by(aircraft.id) && position == behind(
                    schedule.airports,
                    schedule.flights[l],
                ) && forall|k: int| l < k < n ==> !(#[trigger] schedule.flights[k]).flown_by(aircraft.id)
        }),
    decreases n,
{
    if n > 0 {
        let last = schedule.flights[n - 1];
        assert(schedule.owned_or_unscheduled(n - 1));
        if last.active() && last.flown_by(aircraft.id) {
        } else {
            lemma_standing_anchored(schedule, aircraft, n - 1);
            assert(!last.flown_by(aircraft.id));
            let position = standing(schedule.airports, schedule.flights, aircraft, n - 1);
            if forall|k: int| 0 <= k < n - 1 ==> !(#[trigger] schedule.flights[k]).flown_by(aircraft.id) {
            } else {
                let l = choose|l: int|
                    0 <= l < n - 1 && (#[trigger] schedule.flights[l]).flown_by(aircraft.id) && position == behind(
                        schedule.airports,
                        schedule.flights[l],
                    ) && forall|k: int| l < k < n - 1 ==> !(#[trigger] schedule.flights[k]).flown_by(aircraft.id);
                assert(forall|k: int| l < k < n ==> !(#[trigger] schedule.flights[k]).flown_by(aircraft.id));
            }
        }
    }
}

/// Where a list runs forward, a pass starts with every aircraft at the end
/// of its rotation.
proof fn lemma_opening_anchored(schedule: ScheduleView)
    requires
        schedule.dual(),
        schedule.runs_forward(),
    ensures
        all_anchored(
            schedule.aircraft,
            schedule.airports,
            schedule.flights,
            opening(schedule.aircraft, schedule.airports, schedule.flights).positions,
        ),
        books_cover(
            schedule.aircraft,
            schedule.airports,
            schedule.flights,
            opening(schedule.aircraft, schedule.airports, schedule.flights).books,
        ),
{
    let roster = opening(schedule.aircraft, schedule.airports, schedule.flights);
    let flights = schedule.flights;
    let n = flights.len() as int;
    assert forall|i: int, x: int| 0 <= i < schedule.aircraft.len() && 0 <= x < n implies #[trigger] covers(
        schedule.aircraft,
        schedule.airports,
        flights,
        roster.books,
        i,
        x,
    ) by {
        lemma_booked_covers(schedule.airports, flights, schedule.aircraft[i].id, n);
    }
    assert forall|i: int| 0 <= i < schedule.aircraft.len() implies anchored(
        schedule.airports,
        roster.flights,
        #[trigger] schedule.aircraft[i],
        roster.positions[i],
    ) by {
        let aircraft = schedule.aircraft[i];
        let position = roster.positions[i];
        lemma_standing_anchored(schedule, aircraft, n);
        if forall|k: int| 0 <= k < n ==> !(#[trigger] flights[k]).flown_by(aircraft.id) {
            assert(grounded(flights, aircraft.id));
        } else {
            let l = choose|l: int|
                0 <= l < n && (#[trigger] flights[l]).flown_by(aircraft.id) && position == behind(
                    schedule.airports,
                    flights[l],
                ) && forall|k: int| l < k < n ==> !(#[trigger] flights[k]).flown_by(aircraft.id);
            assert forall|k: int| !#[trigger] outlasts(flights, aircraft.id, k, l) by {
                if outlasts(flights, aircraft.id, k, l) {
                    assert(k < l);
                    assert(schedule.listed_ahead(k, l));
                }
            }
            assert(ends_rotation(flights, aircraft.id, l));
        }
    }
}

/// Binding the unscheduled flight at place `n` to an aircraft that stands
/// at its origin, at the end of a rotation whose flights all depart before
/// it and leave the aircraft ready by its departure, keeps every rotation
/// continuous and rooted and every aircraft at the end of its rotation.
proof fn lemma_binding_lengthens(
    schedule: ScheduleView,
    positions: Seq<Position>,
    books: Seq<Seq<Busy>>,
    n: int,
    i: int,
)
    requires
        aircraft_ascending(schedule.aircraft),
        schedule.dual(),
        schedule.delays_positive(),
        schedule.continuous(),
        schedule.rooted(),
        all_anchored(schedule.aircraft, schedule.airports, schedule.flights, positions),
        books_cover(schedule.aircraft, schedule.airports, schedule.flights, books),
        0 <= n < schedule.flights.len(),
        0 <= i < schedule.aircraft.len(),
        schedule.flights[n].status is Unscheduled,
        positions[i].location == schedule.flights[n].origin,
        forall|x: int|
            0 <= x < schedule.flights.len() && (#[trigger] schedule.flights[x]).flown_by(schedule.aircraft[i].id)
                ==> schedule.flights[x].departure < schedule.flights[n].departure && busy_until(
                schedule.airports,
                schedule.flights[x],
            ) <= schedule.flights[n].departure,
    ensures
        ({
            let after = ScheduleView {
                flights: schedule.flights.update(n, schedule.flights[n].bound_to(schedule.aircraft[i].id)),
                ..schedule
            };
            &&& after.dual()
            &&& after.delays_positive()
            &&& after.continuous()
            &&& after.rooted()
            &&& all_anchored(
                schedule.aircraft,
                schedule.airports,
                after.flights,
                positions.update(i, behind(schedule.airports, schedule.flights[n])),
            )
            &&& books_cover(
                schedule.aircraft,
                schedule.airports,
                after.flights,
                books.update(i, books[i].push(busy_with(schedule.airports, schedule.flights[n]))),
            )
        }),
{
    let fleet = schedule.aircraft;
    let airports = schedule.airports;
    let flights = schedule.flights;
    let id = fleet[i].id;
    let flight = flights[n];
    let after = ScheduleView { flights: flights.update(n, flight.bound_to(id)), ..schedule };
    let moved = positions.update(i, behind(airports, flight));
    let noted_too = books.update(i, books[i].push(busy_with(airports, flight)));
    assert forall|a: int, x: int| 0 <= a < fleet.len() && 0 <= x < flights.len() implies #[trigger] covers(
        fleet,
        airports,
        after.flights,
        noted_too,
        a,
        x,
    ) by {
        if after.flights[x].flown_by(fleet[a].id) {
            if x == n {
                lemma_aircraft_unique(fleet, a, i);
                assert(noted_too[i][books[i].len() as int] == busy_with(airports, after.flights[n]));
            } else {
                assert(covers(fleet, airports, flights, books, a, x));
                let b = choose|b: int|
                    0 <= b < books[a].len() && #[trigger] books[a][b] == busy_with(airports, flights[x]);
                assert(noted_too[a][b] == busy_with(airports, flights[x]));
            }
        }
    }
    assert(schedule.owned_or_unscheduled(n));
    assert(flight.aircraft is None);
    assert forall|h: int| 0 <= h < after.flights.len() implies #[trigger] after.owned_or_unscheduled(h) by {
        assert(schedule.owned_or_unscheduled(h));
    }
    assert forall|h: int| 0 <= h < after.flights.len() implies #[trigger] after.delay_positive(h) by {
        assert(schedule.delay_positive(h));
    }
    assert(anchored(airports, flights, fleet[i], positions[i]));
    assert forall|p: int, q: int| #[trigger] after.consecutive(p, q) implies after.connects(p, q) by {
        if q == n {
            assert(flights[p].flown_by(id));
            assert(!grounded(flights, id));
            let l = choose|l: int|
                #[trigger] ends_rotation(flights, id, l) && positions[i] == behind(airports, flights[l]);
            if p != l {
                assert(!outlasts(flights, id, p, l));
                assert(flights[l].flown_by(id));
                assert(after.separates(p, l, n));
            }
        } else if p == n {
            assert(flights[q].flown_by(id));
        } else {
            assert forall|k: int| !#[trigger] schedule.separates(p, k, q) by {
                if schedule.separates(p, k, q) {
                    assert(after.separates(p, k, q));
                }
            }
            assert(schedule.consecutive(p, q));
            assert(schedule.connects(p, q));
        }
    }
    assert forall|p: int| #[trigger] after.leads(p) implies after.departs_from_base(p) by {
        if p == n {
            lemma_aircraft_entry_at(fleet, i);
            if !grounded(flights, id) {
                let x = choose|x: int| 0 <= x < flights.len() && (#[trigger] flights[x]).flown_by(id);
                assert(after.precedes_in_rotation(x, n));
            }
        } else {
            assert forall|k: int| !#[trigger] schedule.precedes_in_rotation(k, p) by {
                if schedule.precedes_in_rotation(k, p) {
                    assert(after.precedes_in_rotation(k, p));
                }
            }
            assert(schedule.leads(p));
            assert(schedule.departs_from_base(p));
        }
    }
    assert forall|a: int| 0 <= a < fleet.len() implies anchored(
        airports,
        after.flights,
        #[trigger] fleet[a],
        moved[a],
    ) by {
        if a == i {
            assert forall|k: int| !#[trigger] outlasts(after.flights, id, k, n) by {
                if outlasts(after.flights, id, k, n) {
                    assert(flights[k].flown_by(id));
                }
            }
            assert(ends_rotation(after.flights, id, n));
        } else {
            if fleet[a].id == id {
                lemma_aircraft_unique(fleet, a, i);
            }
            assert(anchored(airports, flights, fleet[a], positions[a]));
            if grounded(flights, fleet[a].id) {
                assert(grounded(after.flights, fleet[a].id));
            } else {
                let l = choose|l: int|
                    #[trigger] ends_rotation(flights, fleet[a].id, l) && positions[a] == behind(airports, flights[l]);
                assert forall|k: int| !#[trigger] outlasts(after.flights, fleet[a].id, k, l) by {
                    if outlasts(after.flights, fleet[a].id, k, l) {
                        assert(outlasts(flights, fleet[a].id, k, l));
                    }
                }
                assert(ends_rotation(after.flights, fleet[a].id, l));
            }
        }
    }
}

/// Where a list runs forward and its flights take time, every flight that
/// the chosen aircraft already flies departs before the flight it is chosen
/// for and leaves the aircraft ready by that flight's departure.
proof fn lemma_chosen_is_clear(schedule: ScheduleView, n: int, i: int)
    requires
        schedule.dual(),
        schedule.flights_take_time(),
        schedule.runs_forward(),
        0 <= n < schedule.flights.len(),
        books_cover(
            schedule.aircraft,
            schedule.airports,
            pass(schedule.aircraft, schedule.airports, schedule.flights, n).flights,
            pass(schedule.aircraft, schedule.airports, schedule.flights, n).books,
        ),
        schedule.flights[n].status is Unscheduled,
        choice(
            schedule.aircraft,
            schedule.airports,
            pass(schedule.aircraft, schedule.airports, schedule.flights, n),
            schedule.flights[n],
        ) == Some(i),
    ensures
        0 <= i < schedule.aircraft.len(),
        pass(schedule.aircraft, schedule.airports, schedule.flights, n).positions[i].location
            == schedule.flights[n].origin,
        forall|x: int|
            0 <= x < schedule.flights.len() && (#[trigger] pass(
                schedule.aircraft,
                schedule.airports,
                schedule.flights,
                n,
            ).flights[x]).flown_by(schedule.aircraft[i].id) ==> schedule.flights[x].departure
                < schedule.flights[n].departure && busy_until(schedule.airports, schedule.flights[x])
                <= schedule.flights[n].departure,
{
    let fleet = schedule.aircraft;
    let airports = schedule.airports;
    let roster = pass(fleet, airports, schedule.flights, n);
    let flight = schedule.flights[n];
    lemma_pass_frame(fleet, airports, schedule.flights, n);
    lemma_first_serving_in_fleet(fleet, airports, roster, flight, 0);
    assert(serves(fleet, airports, roster, i, flight));
    assert forall|x: int|
        0 <= x < schedule.flights.len() && (#[trigger] roster.flights[x]).flown_by(
            fleet[i].id,
        ) implies schedule.flights[x].departure < flight.departure && busy_until(airports, schedule.flights[x])
        <= flight.departure by {
        let given = schedule.flights[x];
        assert(kept_or_bound(fleet, given, roster.flights[x]));
        assert(schedule.owned_or_unscheduled(x));
        if given.aircraft is None {
            assert(x < n);
        }
        assert(schedule.waits_behind(x, n));
        assert(given.departure <= flight.departure);
        assert(roster.flights[x].departure == given.departure);
        assert(busy_until(airports, roster.flights[x]) == busy_until(airports, given));
        assert(covers(fleet, airports, roster.flights, roster.books, i, x));
        let b = choose|b: int|
            0 <= b < roster.books[i].len() && #[trigger] roster.books[i][b] == busy_with(airports, roster.flights[x]);
        assert(roster.books[i][b].from == given.departure);
    }
}

/// Where a consistent list runs forward and its flights take time, a pass
/// keeps, flight by flight, every rotation continuous and rooted and every
/// aircraft at the end of its rotation.
proof fn lemma_pass_lengthens(schedule: ScheduleView, n: int)
    requires
        aircraft_ascending(schedule.aircraft),
        schedule.consistent(),
        schedule.flights_take_time(),
        schedule.runs_forward(),
        0 <= n <= schedule.flights.len(),
    ensures
        ({
            let roster = pass(schedule.aircraft, schedule.airports, schedule.flights, n);
            let now = ScheduleView { flights: roster.flights, ..schedule };
            &&& now.dual()
            &&& now.delays_positive()
            &&& now.continuous()
            &&& now.rooted()
            &&& all_anchored(schedule.aircraft, schedule.airports, roster.flights, roster.positions)
            &&& books_cover(schedule.aircraft, schedule.airports, roster.flights, roster.books)
        }),
    decreases n,
{
    let fleet = schedule.aircraft;
    let airports = schedule.airports;
    if n == 0 {
        lemma_opening_anchored(schedule);
        let roster = pass(fleet, airports, schedule.flights, 0);
        let now = ScheduleView { flights: roster.flights, ..schedule };
        assert(now == schedule);
    } else {
        lemma_pass_lengthens(schedule, n - 1);
        lemma_pass_frame(fleet, airports, schedule.flights, n - 1);
        let roster = pass(fleet, airports, schedule.flights, n - 1);
        let now = ScheduleView { flights: roster.flights, ..schedule };
        let flight = roster.flights[n - 1];
        assert(flight == schedule.flights[n - 1]);
        if flight.status is Unscheduled && choice(fleet, airports, roster, flight) is Some {
            let i = choice(fleet, airports, roster, flight)->0;
            lemma_chosen_is_clear(schedule, n - 1, i);
            assert forall|x: int|
                0 <= x < now.flights.len() && (#[trigger] now.flights[x]).flown_by(
                    fleet[i].id,
                ) implies now.flights[x].departure < now.flights[n - 1].departure && busy_until(
                airports,
                now.flights[x],
            ) <= now.flights[n - 1].departure by {
                assert(kept_or_bound(fleet, schedule.flights[x], roster.flights[x]));
            }
            lemma_binding_lengthens(now, roster.positions, roster.books, n - 1, i);
        }
    }
}

/// Assignment keeps a schedule consistent where the flights without
/// aircraft lie in the future of those that have one: where the schedule is
/// consistent, every flight arrives after it departs, and the list runs
/// forward in time.
pub proof fn lemma_assign_keeps_consistent(schedule: ScheduleView)
    requires
        aircraft_ascending(schedule.aircraft),
        schedule.consistent(),
        schedule.flights_take_time(),
        schedule.runs_forward(),
    ensures
        schedule.assigned().consistent(),
{
    lemma_pass_lengthens(schedule, schedule.flights.len() as int);
}

impl ScheduleView {
    /// The flight at place `i` has an aircraft and the flight at place `j`
    /// is unscheduled.
    pub open spec fn flown_and_waiting(self, i: int, j: int) -> bool {
        &&& 0 <= i < self.flights.len()
        &&& 0 <= j < self.flights.len()
        &&& self.flights[i].aircraft is Some
        &&& self.flights[j].status is Unscheduled
    }

    /// No unscheduled flight departs before a flight that has an aircraft.
    pub open spec fn waiting_follow_flown(self) -> bool {
        forall|i: int, j: int| #[trigger]
            self.flown_and_waiting(i, j) ==> self.flights[i].departure <= self.flights[j].departure
    }
}

/// A list that ascends in departure time runs forward where no
/// unscheduled flight departs before a flight that has an aircraft.
pub proof fn lemma_ascending_runs_forward(schedule: ScheduleView)
    requires
        departures_ascend(schedule.flights),
        schedule.waiting_follow_flown(),
    ensures
        schedule.runs_forward(),
{
    assert forall|i: int, j: int| #[trigger] schedule.listed_ahead(i, j) implies schedule.flights[i].departure
        <= schedule.flights[j].departure by {}
    assert forall|i: int, j: int| #[trigger] schedule.waits_behind(i, j) implies schedule.flights[i].departure
        <= schedule.flights[j].departure by {
        if schedule.flights[i].aircraft is Some {
            assert(schedule.flown_and_waiting(i, j));
        }
    }
}

impl ScheduleView {
    /// No flight has an aircraft, and every flight is unscheduled.
    pub open spec fn all_waiting(self) -> bool {
        forall|i: int|
            0 <= i < self.flights.len() ==> (#[trigger] self.flights[i]).aircraft is None
                && self.flights[i].status is Unscheduled
    }
}

/// A schedule in which no flight has an aircraft is consistent, and its
/// list runs forward if it ascends in departure time.
pub proof fn lemma_all_waiting_is_consistent(schedule: ScheduleView)
    requires
        schedule.all_waiting(),
    ensures
        schedule.consistent(),
        departures_ascend(schedule.flights) ==> schedule.runs_forward(),
{
    assert forall|i: int| 0 <= i < schedule.flights.len() implies #[trigger] schedule.owned_or_unscheduled(i) by {
        assert(schedule.flights[i].aircraft is None);
    }
    assert forall|i: int| 0 <= i < schedule.flights.len() implies #[trigger] schedule.delay_positive(i) by {
        assert(schedule.flights[i].status is Unscheduled);
    }
    assert forall|i: int, j: int| #[trigger] schedule.consecutive(i, j) implies schedule.connects(i, j) by {
        assert(schedule.flights[i].aircraft is None);
    }
    assert forall|i: int| #[trigger] schedule.leads(i) implies schedule.departs_from_base(i) by {
        assert(schedule.flights[i].aircraft is None);
    }
    if departures_ascend(schedule.flights) {
        assert forall|i: int, j: int| #[trigger] schedule.listed_ahead(i, j) implies schedule.flights[i].departure
            <= schedule.flights[j].departure by {}
        assert forall|i: int, j: int| #[trigger] schedule.waits_behind(i, j) implies schedule.flights[i].departure
            <= schedule.flights[j].departure by {
            assert(schedule.flights[i].aircraft is None);
        }
    }
}

/// The first assignment of a schedule is consistent: where no flight has
/// an aircraft yet, every flight arrives after it departs, and the list
/// ascends in departure time, assignment yields a consistent schedule whose
/// rotations stand in the list in order of departure.
pub proof fn lemma_first_assignment_is_consistent(schedule: ScheduleView)
    requires
        aircraft_ascending(schedule.aircraft),
        schedule.all_waiting(),
        schedule.flights_take_time(),
        departures_ascend(schedule.flights),
    ensures
        schedule.assigned().consistent(),
        schedule.assigned().rotations_in_list_order(),
        schedule.assigned().no_flight_arrives_early(),
{
    lemma_all_waiting_is_consistent(schedule);
    lemma_assign_keeps_consistent(schedule);
    lemma_pass_frame(schedule.aircraft, schedule.airports, schedule.flights, schedule.flights.len() as int);
    let after = schedule.assigned();
    assert forall|i: int| 0 <= i < after.flights.len() implies (#[trigger] after.flights[i]).departure
        == schedule.flights[i].departure && after.flights[i].arrival == schedule.flights[i].arrival by {
        assert(kept_or_bound(schedule.aircraft, schedule.flights[i], after.flights[i]));
    }
    assert forall|i: int, j: int| #[trigger] after.listed_ahead(i, j) implies after.flights[i].departure
        <= after.flights[j].departure by {
        assert(schedule.flights[i].departure <= schedule.flights[j].departure);
    }
}

} // verus!
