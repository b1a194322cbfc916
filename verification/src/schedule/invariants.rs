//! What holds of a consistent schedule, and the check that decides it.
//!
//! The rotation of an aircraft is the list of the flights that it flies, in
//! order of departure. A schedule is consistent when a flight has an
//! aircraft exactly if it is not unscheduled, every delay is positive, every
//! rotation is continuous in place and time, and every rotation starts at
//! the home base of its aircraft.

use vstd::prelude::*;

use crate::aircraft::aircraft_entry;
use crate::airport::turnaround;
use crate::flight::FlightStatus;
use crate::ident::names;
use crate::schedule::order::{
    by_departure, departs_before, departures_ascend, lemma_ascending_departs_before, lemma_placed, placed, taken_from,
};
use crate::schedule::rules::get_ready_time;
use crate::schedule::{Schedule, ScheduleView};

verus! {

impl ScheduleView {
    /// The flight at place `i` has an aircraft exactly if it is not
    /// unscheduled.
    pub open spec fn owned_or_unscheduled(self, i: int) -> bool {
        (self.flights[i].status is Unscheduled) <==> (self.flights[i].aircraft is None)
    }

    /// Every flight has an aircraft exactly if it is not unscheduled.
    pub open spec fn dual(self) -> bool {
        forall|i: int| 0 <= i < self.flights.len() ==> #[trigger] self.owned_or_unscheduled(i)
    }

    /// A flight at place `i` that is delayed is delayed by at least a
    /// minute.
    pub open spec fn delay_positive(self, i: int) -> bool {
        self.flights[i].status matches FlightStatus::Delayed { minutes } ==> minutes > 0
    }

    /// Every delay is positive.
    pub open spec fn delays_positive(self) -> bool {
        forall|i: int| 0 <= i < self.flights.len() ==> #[trigger] self.delay_positive(i)
    }

    /// The flights at the places `i` and `k` have an aircraft, and it is
    /// the same.
    pub open spec fn same_rotation(self, i: int, k: int) -> bool {
        self.flights[i].aircraft is Some && self.flights[i].aircraft == self.flights[k].aircraft
    }

    /// The flight at place `k` belongs to the rotation of the flight at
    /// place `i` and departs after it and before the flight at place `j`.
    pub open spec fn separates(self, i: int, k: int, j: int) -> bool {
        &&& 0 <= k < self.flights.len()
        &&& self.same_rotation(i, k)
        &&& departs_before(self.flights, i, k)
        &&& departs_before(self.flights, k, j)
    }

    /// The flights at the places `i` and `j` follow one another in a
    /// rotation: they have the same aircraft, the first departs before the
    /// second, and no flight of the aircraft departs between them.
    pub open spec fn consecutive(self, i: int, j: int) -> bool {
        &&& 0 <= i < self.flights.len()
        &&& 0 <= j < self.flights.len()
        &&& self.same_rotation(i, j)
        &&& departs_before(self.flights, i, j)
        &&& forall|k: int| !#[trigger] self.separates(i, k, j)
    }

    /// The flight at place `j` starts where the flight at place `i` ends,
    /// and not before the aircraft has turned around there.
    pub open spec fn connects(self, i: int, j: int) -> bool {
        &&& self.flights[i].destination == self.flights[j].origin
        &&& self.flights[j].departure >= self.flights[i].arrival + turnaround(
            self.airports,
            self.flights[i].destination,
        )
    }

    /// Every rotation is continuous: of two flights that follow one another
    /// the second starts where the first ends, after the turnaround.
    pub open spec fn continuous(self) -> bool {
        forall|i: int, j: int| #[trigger] self.consecutive(i, j) ==> self.connects(i, j)
    }

    /// The flight at place `k` belongs to the rotation of the flight at
    /// place `i` and departs before it.
    pub open spec fn precedes_in_rotation(self, k: int, i: int) -> bool {
        &&& 0 <= k < self.flights.len()
        &&& self.same_rotation(i, k)
        &&& departs_before(self.flights, k, i)
    }

    /// The flight at place `i` is the first of a rotation.
    pub open spec fn leads(self, i: int) -> bool {
        &&& 0 <= i < self.flights.len()
        &&& self.flights[i].aircraft is Some
        &&& forall|k: int| !#[trigger] self.precedes_in_rotation(k, i)
    }

    /// The aircraft of the flight at place `i` belongs to the fleet, and
    /// the flight departs from its home base.
    pub open spec fn departs_from_base(self, i: int) -> bool {
        match aircraft_entry(self.aircraft, self.flights[i].aircraft->0) {
            Some(aircraft) => self.flights[i].origin == aircraft.initial_location,
            None => false,
        }
    }

    /// Every rotation starts at the home base of its aircraft.
    pub open spec fn rooted(self) -> bool {
        forall|i: int| #[trigger] self.leads(i) ==> self.departs_from_base(i)
    }

    /// The flights at the places `i` and `j` have the same aircraft, and
    /// the first stands ahead of the second in the list.
    pub open spec fn listed_ahead(self, i: int, j: int) -> bool {
        0 <= i < j < self.flights.len() && self.same_rotation(i, j)
    }

    /// The flights of each aircraft stand in the list in order of
    /// departure.
    pub open spec fn rotations_in_list_order(self) -> bool {
        forall|i: int, j: int| #[trigger]
            self.listed_ahead(i, j) ==> self.flights[i].departure <= self.flights[j].departure
    }

    /// No flight arrives before it departs.
    pub open spec fn no_flight_arrives_early(self) -> bool {
        forall|i: int| 0 <= i < self.flights.len() ==> (#[trigger] self.flights[i]).departure <= self.flights[i].arrival
    }

    /// The schedule is consistent.
    pub open spec fn consistent(self) -> bool {
        &&& self.dual()
        &&& self.delays_positive()
        &&& self.continuous()
        &&& self.rooted()
    }
}

/// In a list that ascends in departure time the flights of each aircraft
/// stand in order of departure.
pub proof fn lemma_ascending_rotations_in_order(schedule: ScheduleView)
    requires
        departures_ascend(schedule.flights),
    ensures
        schedule.rotations_in_list_order(),
{
    assert forall|i: int, j: int| #[trigger] schedule.listed_ahead(i, j) implies schedule.flights[i].departure
        <= schedule.flights[j].departure by {}
}

impl ScheduleView {
    /// This schedule with its flights in ascending order of departure time,
    /// flights that depart at the same minute in the order in which they
    /// stand.
    pub open spec fn ordered(self) -> ScheduleView {
        ScheduleView { flights: by_departure(self.flights), ..self }
    }
}

/// Putting the flights in order of departure changes no flight, so status
/// and ownership stay in step, delays stay positive, and no flight comes to
/// arrive before it departs.
pub proof fn lemma_ordering_keeps_flights(schedule: ScheduleView)
    ensures
        schedule.ordered().flights.len() == schedule.flights.len(),
        departures_ascend(schedule.ordered().flights),
        schedule.ordered().rotations_in_list_order(),
        schedule.dual() ==> schedule.ordered().dual(),
        schedule.delays_positive() ==> schedule.ordered().delays_positive(),
        schedule.no_flight_arrives_early() ==> schedule.ordered().no_flight_arrives_early(),
{
    let after = schedule.ordered();
    let given = schedule.flights;
    lemma_placed(given);
    assert forall|a: int, b: int| #[trigger] after.listed_ahead(a, b) implies after.flights[a].departure
        <= after.flights[b].departure by {}
    if schedule.dual() {
        assert forall|a: int| 0 <= a < after.flights.len() implies #[trigger] after.owned_or_unscheduled(a) by {
            assert(schedule.owned_or_unscheduled(taken_from(given, a)));
        }
    }
    if schedule.delays_positive() {
        assert forall|a: int| 0 <= a < after.flights.len() implies #[trigger] after.delay_positive(a) by {
            assert(schedule.delay_positive(taken_from(given, a)));
        }
    }
    if schedule.no_flight_arrives_early() {
        assert forall|a: int| 0 <= a < after.flights.len() implies (#[trigger] after.flights[a]).departure
            <= after.flights[a].arrival by {
            assert(given[taken_from(given, a)].departure <= given[taken_from(given, a)].arrival);
        }
    }
}

/// Putting the flights in order of departure keeps a consistent schedule
/// consistent: the rotations are told by departure and, among flights that
/// depart at the same minute, by place, and the order keeps both.
pub proof fn lemma_ordering_keeps_consistent(schedule: ScheduleView)
    requires
        schedule.consistent(),
    ensures
        schedule.ordered().consistent(),
{
    let after = schedule.ordered();
    let given = schedule.flights;
    let sorted = after.flights;
    lemma_placed(given);
    lemma_ordering_keeps_flights(schedule);
    assert forall|a: int, b: int| #[trigger] after.consecutive(a, b) implies after.connects(a, b) by {
        let i = taken_from(given, a);
        let j = taken_from(given, b);
        lemma_ascending_departs_before(sorted, a, b);
        if departs_before(given, j, i) {
            assert(placed(given, j) < placed(given, i));
        }
        assert(departs_before(given, i, j));
        assert forall|k: int| !#[trigger] schedule.separates(i, k, j) by {
            if schedule.separates(i, k, j) {
                let c = placed(given, k);
                assert(placed(given, i) < c);
                assert(c < placed(given, j));
                lemma_ascending_departs_before(sorted, a, c);
                lemma_ascending_departs_before(sorted, c, b);
                assert(after.separates(a, c, b));
            }
        }
        assert(schedule.consecutive(i, j));
        assert(schedule.connects(i, j));
    }
    assert forall|a: int| #[trigger] after.leads(a) implies after.departs_from_base(a) by {
        let i = taken_from(given, a);
        assert forall|k: int| !#[trigger] schedule.precedes_in_rotation(k, i) by {
            if schedule.precedes_in_rotation(k, i) {
                let c = placed(given, k);
                assert(c < placed(given, i));
                lemma_ascending_departs_before(sorted, c, a);
                assert(after.precedes_in_rotation(c, a));
            }
        }
        assert(schedule.leads(i));
        assert(schedule.departs_from_base(i));
    }
}

impl Schedule {
    /// The place of the flight that follows the flight at place `i` in its
    /// rotation, if one does.
    fn successor(&self, i: usize) -> (next: Option<usize>)
        requires
            i < self.flights@.len(),
            self@.flights[i as int].aircraft is Some,
        ensures
            match next {
                Some(j) => self@.consecutive(i as int, j as int),
                None => forall|j: int| !self@.consecutive(i as int, j),
            },
            forall|j: int| self@.consecutive(i as int, j) ==> next == Some(j as usize),
    {
        let ghost schedule = self@;
        let ghost given = schedule.flights;
        let n = self.flights.len();
        let mut best: Option<usize> = None;
        assert(self.flights@[i as int]@ == given[i as int]);
        match &self.flights[i].aircraft_id {
            None => {
                assert(false);
            },
            Some(plane) => {
                let mut k: usize = 0;
                while k < n
                    invariant
                        n == self.flights@.len(),
                        i < n,
                        k <= n,
                        schedule == self@,
                        given == schedule.flights,
                        given[i as int].aircraft == Some(plane@),
                        match best {
                            Some(b) => b < k && schedule.same_rotation(i as int, b as int) && departs_before(
                                given,
                                i as int,
                                b as int,
                            ) && forall|h: int|
                                0 <= h < k && schedule.same_rotation(i as int, h) && departs_before(
                                    given,
                                    i as int,
                                    h,
                                ) ==> !departs_before(given, h, b as int),
                            None => forall|h: int|
                                0 <= h < k ==> !(schedule.same_rotation(i as int, h) && departs_before(
                                    given,
                                    i as int,
                                    h,
                                )),
                        },
                    decreases n - k,
                {
                    assert(self.flights@[k as int]@ == given[k as int]);
                    let here = self.flights[k].departure_time.0;
                    let there = self.flights[i].departure_time.0;
                    if (here > there || (here == there && i < k)) && names(&self.flights[k].aircraft_id, plane) {
                        match best {
                            Some(b) => {
                                assert(self.flights@[b as int]@ == given[b as int]);
                                if here < self.flights[b].departure_time.0 {
                                    best = Some(k);
                                }
                            },
                            None => {
                                best = Some(k);
                            },
                        }
                    }
                    k = k + 1;
                }
            },
        }
        proof {
            match best {
                Some(b) => {
                    assert forall|h: int| !#[trigger] schedule.separates(i as int, h, b as int) by {}
                    assert forall|j: int| schedule.consecutive(i as int, j) implies j == b by {
                        if j != b {
                            if departs_before(given, b as int, j) {
                                assert(schedule.separates(i as int, b as int, j));
                            }
                        }
                    }
                },
                None => {},
            }
        }
        best
    }

    /// Whether the flight at place `i` is the first of its rotation.
    fn is_first(&self, i: usize) -> (first: bool)
        requires
            i < self.flights@.len(),
        ensures
            first == self@.leads(i as int),
    {
        let ghost schedule = self@;
        let ghost given = schedule.flights;
        let n = self.flights.len();
        assert(self.flights@[i as int]@ == given[i as int]);
        match &self.flights[i].aircraft_id {
            None => false,
            Some(plane) => {
                let mut k: usize = 0;
                while k < n
                    invariant
                        n == self.flights@.len(),
                        i < n,
                        k <= n,
                        schedule == self@,
                        given == schedule.flights,
                        given[i as int].aircraft == Some(plane@),
                        forall|h: int| 0 <= h < k ==> !#[trigger] schedule.precedes_in_rotation(h, i as int),
                    decreases n - k,
                {
                    assert(self.flights@[k as int]@ == given[k as int]);
                    let here = self.flights[k].departure_time.0;
                    let there = self.flights[i].departure_time.0;
                    if (here < there || (here == there && k < i)) && names(&self.flights[k].aircraft_id, plane) {
                        assert(schedule.precedes_in_rotation(k as int, i as int));
                        return false;
                    }
                    k = k + 1;
                }
                true
            },
        }
    }

    /// Whether the schedule is consistent.
    pub fn check_invariants(&self) -> (consistent: bool)
        ensures
            consistent == self@.consistent(),
    {
        let ghost schedule = self@;
        let n = self.flights.len();
        let mut i: usize = 0;
        while i < n
            invariant
                n == self.flights@.len(),
                i <= n,
                schedule == self@,
                forall|h: int| 0 <= h < i ==> #[trigger] schedule.owned_or_unscheduled(h),
                forall|h: int| 0 <= h < i ==> #[trigger] schedule.delay_positive(h),
                forall|h: int, j: int| 0 <= h < i && #[trigger] schedule.consecutive(h, j) ==> schedule.connects(h, j),
                forall|h: int| 0 <= h < i && #[trigger] schedule.leads(h) ==> schedule.departs_from_base(h),
            decreases n - i,
        {
            let flight = &self.flights[i];
            assert(flight@ == schedule.flights[i as int]);
            if flight.status.is_unscheduled() != flight.aircraft_id.is_none() {
                assert(!schedule.owned_or_unscheduled(i as int));
                return false;
            }
            match flight.status {
                FlightStatus::Delayed { minutes } => {
                    if minutes == 0 {
                        assert(!schedule.delay_positive(i as int));
                        return false;
                    }
                },
                _ => {},
            }
            match &flight.aircraft_id {
                None => {},
                Some(plane) => {
                    match self.successor(i) {
                        Some(j) => {
                            let next = &self.flights[j];
                            assert(next@ == schedule.flights[j as int]);
                            let ready = get_ready_time(&self.airports, flight.arrival_time, &flight.destination_id);
                            if !(flight.destination_id == next.origin_id) || (next.departure_time.0 as u128) < ready {
                                assert(!schedule.connects(i as int, j as int));
                                return false;
                            }
                        },
                        None => {},
                    }
                    if self.is_first(i) {
                        match self.aircraft.get(plane) {
                            Some(aircraft) => {
                                if !(aircraft.initial_location_id == flight.origin_id) {
                                    assert(!schedule.departs_from_base(i as int));
                                    return false;
                                }
                            },
                            None => {
                                assert(!schedule.departs_from_base(i as int));
                                return false;
                            },
                        }
                    }
                },
            }
            i = i + 1;
        }
        true
    }
}

} // verus!
