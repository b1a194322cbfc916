//! A delay keeps rotations continuous.
//!
//! The wave of a delay moves or releases flights of one aircraft only, from
//! the delayed flight on. The flights that keep the aircraft form the head
//! of its rotation; each of them departs after the flight ahead of it has
//! arrived and the aircraft has turned around.

use vstd::prelude::*;

use crate::aircraft::AvailabilityView;
use crate::airport::{turnaround, AirportView};
use crate::flight::{FlightStatus, FlightView};
use crate::schedule::delay::{carry, spread, strike, windows_of, Wave};
use crate::schedule::rules::shifted_times;
use crate::schedule::invariants::{lemma_ordering_keeps_consistent, lemma_ordering_keeps_flights};
use crate::schedule::order::departures_ascend;
use crate::schedule::{find_flight, lemma_find_flight, ScheduleView};

verus! {

/// The two flights are the same leg, of the same duration.
pub open spec fn same_leg(before: FlightView, after: FlightView) -> bool {
    &&& after.id == before.id
    &&& after.origin == before.origin
    &&& after.destination == before.destination
    &&& after.arrival - after.departure == before.arrival - before.departure
}

/// The flight has lost its aircraft.
pub open spec fn let_go(after: FlightView) -> bool {
    after.aircraft is None && after.status is Unscheduled
}

/// The flight has kept its aircraft and runs later, by a positive delay.
pub open spec fn held_back(before: FlightView, after: FlightView) -> bool {
    &&& after.aircraft == before.aircraft
    &&& after.departure > before.departure
    &&& after.status matches FlightStatus::Delayed { minutes } && minutes > 0
}

/// What the wave of a delay in the rotation of `aircraft` may do to a
/// flight: nothing, or, to a flight of that aircraft, release it or move it
/// later.
pub open spec fn touched(before: FlightView, after: FlightView, aircraft: Seq<char>) -> bool {
    &&& same_leg(before, after)
    &&& after == before || (before.flown_by(aircraft) && (let_go(after) || held_back(before, after)))
}

/// The wave has left the flights as they were, but for flights of
/// `aircraft` at the place `t` and, behind it, below the place `n`.
pub open spec fn wave_framed(
    given: Seq<FlightView>,
    flights: Seq<FlightView>,
    aircraft: Seq<char>,
    t: int,
    n: int,
) -> bool {
    &&& flights.len() == given.len()
    &&& forall|j: int| 0 <= j < given.len() ==> touched(given[j], #[trigger] flights[j], aircraft)
    &&& forall|j: int| 0 <= j < given.len() && (j < t || n <= j) ==> (#[trigger] flights[j]) == given[j]
}

/// The delayed flight, once struck, and every flight ahead of it and behind
/// it are as the frame says.
proof fn lemma_strike_framed(
    airports: Seq<AirportView>,
    windows: Seq<AvailabilityView>,
    given: Seq<FlightView>,
    t: int,
    shift: u64,
)
    requires
        0 <= t < given.len(),
        shift > 0,
        given[t].aircraft is Some,
    ensures
        wave_framed(given, strike(airports, windows, given, t, shift).flights, given[t].aircraft->0, t, t + 1),
{
    let wave = strike(airports, windows, given, t, shift);
    let aircraft = given[t].aircraft->0;
    assert forall|j: int| 0 <= j < given.len() implies touched(given[j], #[trigger] wave.flights[j], aircraft) by {
        if j == t {
            assert(given[t].flown_by(aircraft));
        }
    }
}

/// The wave keeps to the frame at every place it reaches.
pub proof fn lemma_spread_framed(
    airports: Seq<AirportView>,
    windows: Seq<AvailabilityView>,
    given: Seq<FlightView>,
    t: int,
    shift: u64,
    n: int,
)
    requires
        0 <= t < n <= given.len(),
        shift > 0,
        given[t].aircraft is Some,
    ensures
        wave_framed(given, spread(airports, windows, given, t, shift, n).flights, given[t].aircraft->0, t, n),
    decreases n,
{
    let aircraft = given[t].aircraft->0;
    if n <= t + 1 {
        lemma_strike_framed(airports, windows, given, t, shift);
    } else {
        lemma_spread_framed(airports, windows, given, t, shift, n - 1);
        let before = spread(airports, windows, given, t, shift, n - 1);
        let after = spread(airports, windows, given, t, shift, n);
        assert(before.flights[n - 1] == given[n - 1]);
        assert forall|j: int| 0 <= j < given.len() implies touched(given[j], #[trigger] after.flights[j], aircraft) by {
            assert(touched(given[j], before.flights[j], aircraft));
        }
        assert forall|j: int| 0 <= j < given.len() && (j < t || n <= j) implies (#[trigger] after.flights[j])
            == given[j] by {
            assert(before.flights[j] == given[j]);
        }
    }
}

/// The wave of a delay keeps status and ownership in step, and keeps every
/// delay positive.
proof fn lemma_wave_keeps_dual(schedule: ScheduleView, id: Seq<char>, shift: u64)
    ensures
        schedule.shaken(id, shift).flights.len() == schedule.flights.len(),
        schedule.dual() ==> schedule.shaken(id, shift).dual(),
        schedule.delays_positive() ==> schedule.shaken(id, shift).delays_positive(),
        schedule.no_flight_arrives_early() ==> schedule.shaken(id, shift).no_flight_arrives_early(),
{
    let after = schedule.shaken(id, shift);
    let given = schedule.flights;
    let n = given.len() as int;
    lemma_find_flight(given, id, n);
    match find_flight(given, id, n) {
        Some(t) => {
            if shift != 0 && given[t].aircraft is Some {
                lemma_spread_framed(
                    schedule.airports,
                    windows_of(schedule.aircraft, given[t].aircraft),
                    given,
                    t,
                    shift,
                    n,
                );
                let aircraft = given[t].aircraft->0;
                assert forall|i: int|
                    0 <= i < n && schedule.owned_or_unscheduled(i) implies #[trigger] after.owned_or_unscheduled(i) by {
                    assert(touched(given[i], after.flights[i], aircraft));
                }
                assert forall|i: int| 0 <= i < n && schedule.delay_positive(i) implies #[trigger] after.delay_positive(
                    i,
                ) by {
                    assert(touched(given[i], after.flights[i], aircraft));
                }
                assert forall|i: int| 0 <= i < n implies same_leg(given[i], #[trigger] after.flights[i]) by {
                    assert(touched(given[i], after.flights[i], aircraft));
                }
            } else if shift != 0 {
                assert(same_leg(given[t], after.flights[t]));
                assert forall|i: int| 0 <= i < n implies same_leg(given[i], #[trigger] after.flights[i]) by {}
            }
        },
        None => {},
    }
    if schedule.dual() {
        assert forall|i: int| 0 <= i < n implies #[trigger] after.owned_or_unscheduled(i) by {
            assert(schedule.owned_or_unscheduled(i));
        }
    }
    if schedule.delays_positive() {
        assert forall|i: int| 0 <= i < n implies #[trigger] after.delay_positive(i) by {
            assert(schedule.delay_positive(i));
        }
    }
    if schedule.no_flight_arrives_early() {
        assert forall|i: int| 0 <= i < n implies (#[trigger] after.flights[i]).departure
            <= after.flights[i].arrival by {
            assert(given[i].departure <= given[i].arrival);
            if shift != 0 && find_flight(given, id, n) is Some {
                assert(same_leg(given[i], after.flights[i]));
            }
        }
    }
}

/// A delay keeps status and ownership in step: where every flight had an
/// aircraft exactly if it was not unscheduled, that still holds. It keeps
/// every delay positive, and it lets no flight arrive before it departs
/// that did not do so before.
pub proof fn lemma_delay_keeps_dual(schedule: ScheduleView, id: Seq<char>, shift: u64)
    ensures
        schedule.delayed(id, shift).flights.len() == schedule.flights.len(),
        schedule.dual() ==> schedule.delayed(id, shift).dual(),
        schedule.delays_positive() ==> schedule.delayed(id, shift).delays_positive(),
        schedule.no_flight_arrives_early() ==> schedule.delayed(id, shift).no_flight_arrives_early(),
{
    lemma_wave_keeps_dual(schedule, id, shift);
    lemma_ordering_keeps_flights(schedule.shaken(id, shift));
}

/// A delay leaves the list in ascending order of departure time: always
/// where it finds its flight, and else where the list ascended before.
pub proof fn lemma_delay_keeps_order(schedule: ScheduleView, id: Seq<char>, shift: u64)
    ensures
        shift != 0 && find_flight(schedule.flights, id, schedule.flights.len() as int) is Some ==> departures_ascend(
            schedule.delayed(id, shift).flights,
        ),
        departures_ascend(schedule.flights) ==> departures_ascend(schedule.delayed(id, shift).flights),
{
    lemma_ordering_keeps_flights(schedule.shaken(id, shift));
}

/// The aircraft flies the flights at the places `p` and `q`, of which `p`
/// stands ahead in the list.
pub open spec fn rides(flights: Seq<FlightView>, aircraft: Seq<char>, p: int, q: int) -> bool {
    0 <= p < q < flights.len() && flights[p].flown_by(aircraft) && flights[q].flown_by(aircraft)
}

/// The aircraft flies no flight that stands between the places `p` and `q`.
pub open spec fn gap(flights: Seq<FlightView>, aircraft: Seq<char>, p: int, q: int) -> bool {
    forall|k: int| p < k < q ==> !(#[trigger] flights[k]).flown_by(aircraft)
}

/// The flight at place `q` starts where the flight at place `p` ends, and
/// not before the aircraft has turned around there.
pub open spec fn linked(airports: Seq<AirportView>, flights: Seq<FlightView>, p: int, q: int) -> bool {
    &&& flights[p].destination == flights[q].origin
    &&& flights[q].departure >= flights[p].arrival + turnaround(airports, flights[p].destination)
}

/// Among the first `n` flights of the list, the flights of the aircraft
/// stand in order of departure, and each is linked to the next.
pub open spec fn chained(airports: Seq<AirportView>, flights: Seq<FlightView>, aircraft: Seq<char>, n: int) -> bool {
    forall|p: int, q: int| #[trigger]
        rides(flights, aircraft, p, q) && q < n ==> flights[p].departure <= flights[q].departure && (gap(
            flights,
            aircraft,
            p,
            q,
        ) ==> linked(airports, flights, p, q))
}

/// The flights that have kept the aircraft are the head of its rotation: a
/// flight below the place `n` has kept it only if every flight of the
/// aircraft ahead of it has.
pub open spec fn head_kept(
    given: Seq<FlightView>,
    flights: Seq<FlightView>,
    aircraft: Seq<char>,
    n: int,
) -> bool {
    forall|p: int, q: int| #[trigger]
        rides(given, aircraft, p, q) && q < n && flights[q].flown_by(aircraft) ==> flights[p].flown_by(aircraft)
}

/// Every flight of the aircraft below the place `n` has kept it.
pub open spec fn all_kept(given: Seq<FlightView>, flights: Seq<FlightView>, aircraft: Seq<char>, n: int) -> bool {
    forall|p: int| 0 <= p < n && (#[trigger] given[p]).flown_by(aircraft) ==> flights[p].flown_by(aircraft)
}

/// The flight at place `m` is the one that the wave carries on from: the
/// last below the place `n` that has the aircraft.
pub open spec fn carried_from(wave: Wave, aircraft: Seq<char>, m: int, n: int) -> bool {
    &&& 0 <= m < n
    &&& wave.flights[m].flown_by(aircraft)
    &&& gap(wave.flights, aircraft, m, n)
    &&& wave.prev_arrival == wave.flights[m].arrival
    &&& wave.prev_destination == wave.flights[m].destination
}

/// What holds of a wave that has reached the first `n` flights.
pub open spec fn wave_sound(
    airports: Seq<AirportView>,
    given: Seq<FlightView>,
    aircraft: Seq<char>,
    t: int,
    wave: Wave,
    n: int,
) -> bool {
    &&& wave_framed(given, wave.flights, aircraft, t, n)
    &&& head_kept(given, wave.flights, aircraft, n)
    &&& !wave.broken ==> all_kept(given, wave.flights, aircraft, given.len() as int)
    &&& wave.broken ==> !wave.halted
    &&& chained(airports, wave.flights, aircraft, if wave.halted { given.len() as int } else { n })
    &&& !wave.broken && !wave.halted ==> exists|m: int| #[trigger] carried_from(wave, aircraft, m, n)
}

/// What the delay engine relies on in the rotation of the delayed flight:
/// its flights stand in the list in order of departure, each linked to the
/// next, and none arrives before it departs.
pub open spec fn rotation_sound(airports: Seq<AirportView>, given: Seq<FlightView>, aircraft: Seq<char>) -> bool {
    &&& chained(airports, given, aircraft, given.len() as int)
    &&& forall|j: int| 0 <= j < given.len() ==> (#[trigger] given[j]).departure <= given[j].arrival
}

/// The wave is sound once the delayed flight is struck.
proof fn lemma_strike_sound(
    airports: Seq<AirportView>,
    windows: Seq<AvailabilityView>,
    given: Seq<FlightView>,
    t: int,
    shift: u64,
)
    requires
        0 <= t < given.len(),
        shift > 0,
        given[t].aircraft is Some,
        rotation_sound(airports, given, given[t].aircraft->0),
    ensures
        wave_sound(airports, given, given[t].aircraft->0, t, strike(airports, windows, given, t, shift), t + 1),
{
    let aircraft = given[t].aircraft->0;
    let wave = strike(airports, windows, given, t, shift);
    let flights = wave.flights;
    lemma_strike_framed(airports, windows, given, t, shift);
    assert forall|p: int, q: int| #[trigger]
        rides(given, aircraft, p, q) && q < t + 1 && flights[q].flown_by(aircraft) implies flights[p].flown_by(
        aircraft,
    ) by {
        assert(flights[p] == given[p]);
    }
    assert forall|p: int, q: int| #[trigger] rides(flights, aircraft, p, q) && q < t + 1 implies flights[p].departure
        <= flights[q].departure && (gap(flights, aircraft, p, q) ==> linked(airports, flights, p, q)) by {
        assert(flights[p] == given[p]);
        assert(rides(given, aircraft, p, q));
        if gap(flights, aircraft, p, q) {
            assert forall|k: int| p < k < q implies !(#[trigger] given[k]).flown_by(aircraft) by {
                assert(flights[k] == given[k]);
            }
            assert(gap(given, aircraft, p, q));
        }
    }
    if !wave.broken {
        assert(carried_from(wave, aircraft, t, t + 1));
        assert forall|p: int| 0 <= p < given.len() && (#[trigger] given[p]).flown_by(
            aircraft,
        ) implies flights[p].flown_by(aircraft) by {
            if p != t {
                assert(flights[p] == given[p]);
            }
        }
    }
}

/// A sound wave stays sound when it reaches the next flight.
proof fn lemma_carry_sound(
    airports: Seq<AirportView>,
    windows: Seq<AvailabilityView>,
    given: Seq<FlightView>,
    aircraft: Seq<char>,
    t: int,
    wave: Wave,
    n: int,
)
    requires
        0 <= t < n < given.len(),
        rotation_sound(airports, given, aircraft),
        wave_sound(airports, given, aircraft, t, wave, n),
    ensures
        wave_sound(airports, given, aircraft, t, carry(airports, windows, aircraft, wave, n), n + 1),
{
    let next = carry(airports, windows, aircraft, wave, n);
    let flights = wave.flights;
    let len = given.len() as int;
    let flight = flights[n];
    assert(flight == given[n]);
    if wave.halted || !flight.flown_by(aircraft) {
        assert(next == wave);
        assert forall|p: int, q: int| #[trigger]
            rides(given, aircraft, p, q) && q < n + 1 && flights[q].flown_by(aircraft) implies flights[p].flown_by(
            aircraft,
        ) by {
            if q == n {
                assert(given[p].flown_by(aircraft));
            }
        }
        if !wave.halted {
            assert forall|p: int, q: int| #[trigger]
                rides(flights, aircraft, p, q) && q < n + 1 implies flights[p].departure <= flights[q].departure && (
            gap(flights, aircraft, p, q) ==> linked(airports, flights, p, q)) by {}
            if !wave.broken {
                let m = choose|m: int| #[trigger] carried_from(wave, aircraft, m, n);
                assert(carried_from(wave, aircraft, m, n + 1));
            }
        }
    } else {
        let after = next.flights;
        if next.broken {
            assert(after == flights.update(n, after[n]));
            assert(let_go(after[n]));
            assert forall|j: int| 0 <= j < len implies touched(given[j], #[trigger] after[j], aircraft) by {
                assert(touched(given[j], flights[j], aircraft));
            }
            assert forall|j: int| 0 <= j < len && (j < t || n + 1 <= j) implies (#[trigger] after[j]) == given[j] by {
                assert(flights[j] == given[j]);
            }
            assert forall|p: int, q: int| #[trigger]
                rides(given, aircraft, p, q) && q < n + 1 && after[q].flown_by(aircraft) implies after[p].flown_by(
                aircraft,
            ) by {
                assert(flights[q].flown_by(aircraft));
            }
            assert forall|p: int, q: int| #[trigger] rides(after, aircraft, p, q) && q < n + 1 implies after[p].departure
                <= after[q].departure && (gap(after, aircraft, p, q) ==> linked(airports, after, p, q)) by {
                assert(rides(flights, aircraft, p, q));
                if gap(after, aircraft, p, q) {
                    assert forall|k: int| p < k < q implies !(#[trigger] flights[k]).flown_by(aircraft) by {
                        assert(after[k] == flights[k]);
                    }
                    assert(gap(flights, aircraft, p, q));
                }
            }
        } else {
            let m = choose|m: int| #[trigger] carried_from(wave, aircraft, m, n);
            let to = shifted_times(airports, flight, wave.prev_arrival, wave.prev_destination);
            assert(touched(given[m], flights[m], aircraft));
            assert(given[m].flown_by(aircraft));
            assert(rides(given, aircraft, m, n));
            assert forall|k: int| m < k < n implies !(#[trigger] given[k]).flown_by(aircraft) by {
                if given[k].flown_by(aircraft) {
                    assert(flights[k].flown_by(aircraft));
                }
            }
            assert(gap(given, aircraft, m, n));
            assert(linked(airports, given, m, n));
            assert(flights[m].departure <= flights[m].arrival);
            assert forall|p: int| 0 <= p < n && (#[trigger] flights[p]).flown_by(aircraft) implies flights[p].departure
                <= flights[m].departure by {
                if p < m {
                    assert(rides(flights, aircraft, p, m));
                }
            }
            if to.displaced {
                assert(after == flights.update(n, after[n]));
                assert(held_back(given[n], after[n]));
                assert forall|j: int| 0 <= j < len implies touched(given[j], #[trigger] after[j], aircraft) by {
                    assert(touched(given[j], flights[j], aircraft));
                }
                assert forall|j: int| 0 <= j < len && (j < t || n + 1 <= j) implies (#[trigger] after[j])
                    == given[j] by {
                    assert(flights[j] == given[j]);
                }
                assert forall|p: int, q: int| #[trigger]
                    rides(given, aircraft, p, q) && q < n + 1 && after[q].flown_by(aircraft) implies after[p].flown_by(
                    aircraft,
                ) by {
                    assert(flights[p].flown_by(aircraft));
                }
                assert forall|p: int| 0 <= p < len && (#[trigger] given[p]).flown_by(aircraft) implies after[p].flown_by(
                    aircraft,
                ) by {
                    assert(flights[p].flown_by(aircraft));
                }
                assert forall|p: int, q: int| #[trigger]
                    rides(after, aircraft, p, q) && q < n + 1 implies after[p].departure <= after[q].departure && (gap(
                    after,
                    aircraft,
                    p,
                    q,
                ) ==> linked(airports, after, p, q)) by {
                    if q < n {
                        assert(rides(flights, aircraft, p, q));
                        if gap(after, aircraft, p, q) {
                            assert forall|k: int| p < k < q implies !(#[trigger] flights[k]).flown_by(aircraft) by {
                                assert(after[k] == flights[k]);
                            }
                            assert(gap(flights, aircraft, p, q));
                        }
                    } else {
                        assert(flights[p].flown_by(aircraft));
                        if gap(after, aircraft, p, q) {
                            if p != m {
                                assert(after[m].flown_by(aircraft));
                            }
                        }
                    }
                }
                assert(carried_from(next, aircraft, n, n + 1));
            } else {
                assert(next.halted);
                assert(after == flights);
                assert forall|p: int, q: int| #[trigger]
                    rides(given, aircraft, p, q) && q < n + 1 && flights[q].flown_by(aircraft) implies flights[p].flown_by(
                    aircraft,
                ) by {
                    assert(given[p].flown_by(aircraft));
                }
                assert forall|p: int, q: int| #[trigger]
                    rides(flights, aircraft, p, q) && q < len implies flights[p].departure <= flights[q].departure && (
                gap(flights, aircraft, p, q) ==> linked(airports, flights, p, q)) by {
                    if q < n {
                    } else if p >= n {
                        assert(flights[p] == given[p]);
                        assert(flights[q] == given[q]);
                        assert(rides(given, aircraft, p, q));
                        if gap(flights, aircraft, p, q) {
                            assert forall|k: int| p < k < q implies !(#[trigger] given[k]).flown_by(aircraft) by {
                                assert(flights[k] == given[k]);
                            }
                            assert(gap(given, aircraft, p, q));
                        }
                    } else {
                        assert(flights[q] == given[q]);
                        if q > n {
                            assert(rides(given, aircraft, n, q));
                        }
                        if gap(flights, aircraft, p, q) {
                            if q > n {
                                assert(flights[n].flown_by(aircraft));
                            }
                            if p != m {
                                assert(flights[m].flown_by(aircraft));
                            }
                        }
                    }
                }
            }
        }
    }
}

/// The wave of a delay in a sound rotation is sound at every place it
/// reaches.
proof fn lemma_spread_sound(
    airports: Seq<AirportView>,
    windows: Seq<AvailabilityView>,
    given: Seq<FlightView>,
    t: int,
    shift: u64,
    n: int,
)
    requires
        0 <= t < n <= given.len(),
        shift > 0,
        given[t].aircraft is Some,
        rotation_sound(airports, given, given[t].aircraft->0),
    ensures
        wave_sound(airports, given, given[t].aircraft->0, t, spread(airports, windows, given, t, shift, n), n),
    decreases n,
{
    if n <= t + 1 {
        lemma_strike_sound(airports, windows, given, t, shift);
    } else {
        lemma_spread_sound(airports, windows, given, t, shift, n - 1);
        lemma_carry_sound(
            airports,
            windows,
            given,
            given[t].aircraft->0,
            t,
            spread(airports, windows, given, t, shift, n - 1),
            n - 1,
        );
    }
}

/// In a consistent schedule whose rotations stand in the list in order of
/// departure, every rotation is sound.
proof fn lemma_rotation_sound(schedule: ScheduleView, aircraft: Seq<char>)
    requires
        schedule.continuous(),
        schedule.rotations_in_list_order(),
        schedule.no_flight_arrives_early(),
    ensures
        rotation_sound(schedule.airports, schedule.flights, aircraft),
{
    let given = schedule.flights;
    assert forall|p: int, q: int| #[trigger] rides(given, aircraft, p, q) implies given[p].departure
        <= given[q].departure && (gap(given, aircraft, p, q) ==> linked(schedule.airports, given, p, q)) by {
        assert(schedule.listed_ahead(p, q));
        if gap(given, aircraft, p, q) {
            assert forall|k: int| !#[trigger] schedule.separates(p, k, q) by {
                if schedule.separates(p, k, q) {
                    if k < p {
                        assert(schedule.listed_ahead(k, p));
                    } else if k > q {
                        assert(schedule.listed_ahead(q, k));
                    } else {
                        assert(given[k].flown_by(aircraft));
                    }
                }
            }
            assert(schedule.consecutive(p, q));
            assert(schedule.connects(p, q));
        }
    }
}

/// A schedule stays consistent when flights of one aircraft are moved or
/// released so that those that keep the aircraft are the head of its
/// rotation, in order of departure and linked each to the next.
proof fn lemma_sound_wave_keeps_consistent(
    schedule: ScheduleView,
    flights: Seq<FlightView>,
    aircraft: Seq<char>,
    t: int,
)
    requires
        schedule.consistent(),
        schedule.rotations_in_list_order(),
        schedule.no_flight_arrives_early(),
        wave_framed(schedule.flights, flights, aircraft, t, schedule.flights.len() as int),
        head_kept(schedule.flights, flights, aircraft, schedule.flights.len() as int),
        chained(schedule.airports, flights, aircraft, schedule.flights.len() as int),
    ensures
        (ScheduleView { flights, ..schedule }).consistent(),
        (ScheduleView { flights, ..schedule }).rotations_in_list_order(),
        (ScheduleView { flights, ..schedule }).no_flight_arrives_early(),
{
    let after = ScheduleView { flights, ..schedule };
    let given = schedule.flights;
    let len = given.len() as int;
    lemma_rotation_sound(schedule, aircraft);
    assert forall|i: int| 0 <= i < len implies #[trigger] after.owned_or_unscheduled(i) by {
        assert(schedule.owned_or_unscheduled(i));
        assert(touched(given[i], flights[i], aircraft));
    }
    assert forall|i: int| 0 <= i < len implies #[trigger] after.delay_positive(i) by {
        assert(schedule.delay_positive(i));
        assert(touched(given[i], flights[i], aircraft));
    }
    assert forall|i: int| 0 <= i < len implies (#[trigger] after.flights[i]).departure <= after.flights[i].arrival by {
        assert(touched(given[i], flights[i], aircraft));
    }
    assert forall|i: int, j: int| #[trigger] after.listed_ahead(i, j) implies after.flights[i].departure
        <= after.flights[j].departure by {
        assert(touched(given[i], flights[i], aircraft));
        assert(touched(given[j], flights[j], aircraft));
        if flights[i].flown_by(aircraft) {
            assert(rides(flights, aircraft, i, j));
        } else {
            assert(schedule.listed_ahead(i, j));
        }
    }
    assert forall|p: int, q: int| #[trigger] after.consecutive(p, q) implies after.connects(p, q) by {
        assert(touched(given[p], flights[p], aircraft));
        assert(touched(given[q], flights[q], aircraft));
        if flights[p].flown_by(aircraft) {
            if q < p {
                assert(rides(flights, aircraft, q, p));
            }
            assert(rides(flights, aircraft, p, q));
            assert forall|k: int| p < k < q implies !(#[trigger] flights[k]).flown_by(aircraft) by {
                if flights[k].flown_by(aircraft) {
                    assert(rides(flights, aircraft, p, k));
                    assert(rides(flights, aircraft, k, q));
                    assert(after.separates(p, k, q));
                }
            }
            assert(gap(flights, aircraft, p, q));
        } else {
            assert forall|k: int| !#[trigger] schedule.separates(p, k, q) by {
                if schedule.separates(p, k, q) {
                    assert(touched(given[k], flights[k], aircraft));
                    assert(after.separates(p, k, q));
                }
            }
            assert(schedule.consecutive(p, q));
            assert(schedule.connects(p, q));
        }
    }
    assert forall|p: int| #[trigger] after.leads(p) implies after.departs_from_base(p) by {
        assert(touched(given[p], flights[p], aircraft));
        assert forall|k: int| !#[trigger] schedule.precedes_in_rotation(k, p) by {
            if schedule.precedes_in_rotation(k, p) {
                assert(touched(given[k], flights[k], aircraft));
                if flights[p].flown_by(aircraft) {
                    if k < p {
                        assert(rides(given, aircraft, k, p));
                        assert(flights[k].flown_by(aircraft));
                        assert(rides(flights, aircraft, k, p));
                        assert(after.precedes_in_rotation(k, p));
                    } else {
                        assert(schedule.listed_ahead(p, k));
                    }
                } else {
                    assert(after.precedes_in_rotation(k, p));
                }
            }
        }
        assert(schedule.leads(p));
        assert(schedule.departs_from_base(p));
    }
}

/// The wave of a delay keeps a schedule consistent where the flights of
/// each aircraft stand in the list in order of departure and no flight
/// arrives before it departs.
proof fn lemma_wave_keeps_consistent(schedule: ScheduleView, id: Seq<char>, shift: u64)
    requires
        schedule.consistent(),
        schedule.rotations_in_list_order(),
        schedule.no_flight_arrives_early(),
    ensures
        schedule.shaken(id, shift).consistent(),
{
    let given = schedule.flights;
    let len = given.len() as int;
    let after = schedule.shaken(id, shift);
    lemma_find_flight(given, id, len);
    lemma_wave_keeps_dual(schedule, id, shift);
    match find_flight(given, id, len) {
        Some(t) => {
            assert(schedule.owned_or_unscheduled(t));
            if shift != 0 {
                if given[t].aircraft is Some {
                    let aircraft = given[t].aircraft->0;
                    lemma_rotation_sound(schedule, aircraft);
                    lemma_spread_sound(
                        schedule.airports,
                        windows_of(schedule.aircraft, given[t].aircraft),
                        given,
                        t,
                        shift,
                        len,
                    );
                    lemma_sound_wave_keeps_consistent(schedule, after.flights, aircraft, t);
                    lemma_same_flights_same_rules(ScheduleView { flights: after.flights, ..schedule }, after);
                } else {
                    let struck = strike(
                        schedule.airports,
                        windows_of(schedule.aircraft, given[t].aircraft),
                        given,
                        t,
                        shift,
                    ).flights;
                    assert(after.flights == struck);
                    assert(after.flights == given.update(t, struck[t]));
                    assert(struck[t].aircraft is None);
                    assert(same_leg(given[t], struck[t]));
                    lemma_idle_flight_matters_not(schedule, after, t);
                }
            } else {
                lemma_same_flights_same_rules(schedule, after);
            }
        },
        None => {
            lemma_same_flights_same_rules(schedule, after);
        },
    }
}

/// A delay keeps a schedule consistent where the flights of each aircraft
/// stand in the list in order of departure and no flight arrives before it
/// departs; and it leaves the list in that order.
pub proof fn lemma_delay_keeps_consistent(schedule: ScheduleView, id: Seq<char>, shift: u64)
    requires
        schedule.consistent(),
        schedule.rotations_in_list_order(),
        schedule.no_flight_arrives_early(),
    ensures
        schedule.delayed(id, shift).consistent(),
        schedule.delayed(id, shift).rotations_in_list_order(),
        schedule.delayed(id, shift).no_flight_arrives_early(),
{
    let given = schedule.flights;
    let after = schedule.shaken(id, shift);
    lemma_wave_keeps_consistent(schedule, id, shift);
    lemma_wave_keeps_dual(schedule, id, shift);
    lemma_ordering_keeps_consistent(after);
    lemma_ordering_keeps_flights(after);
    if shift != 0 && find_flight(given, id, given.len() as int) is None {
        assert(after.flights == given);
        assert forall|i: int, j: int| #[trigger] after.listed_ahead(i, j) implies after.flights[i].departure
            <= after.flights[j].departure by {
            assert(schedule.listed_ahead(i, j));
        }
    }
}

/// Two schedules with the same fleet, airports and flights are consistent
/// alike.
proof fn lemma_same_flights_same_rules(one: ScheduleView, other: ScheduleView)
    requires
        one.aircraft == other.aircraft,
        one.airports == other.airports,
        one.flights == other.flights,
        one.consistent(),
        one.rotations_in_list_order(),
        one.no_flight_arrives_early(),
    ensures
        other.consistent(),
        other.rotations_in_list_order(),
        other.no_flight_arrives_early(),
{
    assert forall|i: int| 0 <= i < other.flights.len() implies #[trigger] other.owned_or_unscheduled(i) by {
        assert(one.owned_or_unscheduled(i));
    }
    assert forall|i: int| 0 <= i < other.flights.len() implies #[trigger] other.delay_positive(i) by {
        assert(one.delay_positive(i));
    }
    assert forall|i: int, j: int| #[trigger] other.listed_ahead(i, j) implies other.flights[i].departure
        <= other.flights[j].departure by {
        assert(one.listed_ahead(i, j));
    }
    assert forall|p: int, q: int| #[trigger] other.consecutive(p, q) implies other.connects(p, q) by {
        assert forall|k: int| !#[trigger] one.separates(p, k, q) by {
            assert(!other.separates(p, k, q));
        }
        assert(one.consecutive(p, q));
        assert(one.connects(p, q));
    }
    assert forall|p: int| #[trigger] other.leads(p) implies other.departs_from_base(p) by {
        assert forall|k: int| !#[trigger] one.precedes_in_rotation(k, p) by {
            assert(!other.precedes_in_rotation(k, p));
        }
        assert(one.leads(p));
        assert(one.departs_from_base(p));
    }
}

/// A flight without aircraft takes part in no rotation: moving it in time
/// leaves a schedule as consistent as it was.
proof fn lemma_idle_flight_matters_not(schedule: ScheduleView, after: ScheduleView, t: int)
    requires
        0 <= t < schedule.flights.len(),
        schedule.consistent(),
        schedule.rotations_in_list_order(),
        schedule.no_flight_arrives_early(),
        after.aircraft == schedule.aircraft,
        after.airports == schedule.airports,
        after.flights == schedule.flights.update(t, after.flights[t]),
        after.dual(),
        after.delays_positive(),
        schedule.flights[t].aircraft is None,
        after.flights[t].aircraft is None,
        same_leg(schedule.flights[t], after.flights[t]),
    ensures
        after.consistent(),
        after.rotations_in_list_order(),
        after.no_flight_arrives_early(),
{
    assert forall|i: int, j: int| #[trigger] after.listed_ahead(i, j) implies after.flights[i].departure
        <= after.flights[j].departure by {
        assert(schedule.listed_ahead(i, j));
    }
    assert forall|p: int, q: int| #[trigger] after.consecutive(p, q) implies after.connects(p, q) by {
        assert forall|k: int| !#[trigger] schedule.separates(p, k, q) by {
            if schedule.separates(p, k, q) {
                assert(after.separates(p, k, q));
            }
        }
        assert(schedule.consecutive(p, q));
        assert(schedule.connects(p, q));
    }
    assert forall|p: int| #[trigger] after.leads(p) implies after.departs_from_base(p) by {
        assert forall|k: int| !#[trigger] schedule.precedes_in_rotation(k, p) by {
            if schedule.precedes_in_rotation(k, p) {
                assert(after.precedes_in_rotation(k, p));
            }
        }
        assert(schedule.leads(p));
        assert(schedule.departs_from_base(p));
    }
}

} // verus!
