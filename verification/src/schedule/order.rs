//! Ordering a list of flights by departure time.
//!
//! The order is stable: flights that depart at the same minute keep the
//! order in which they were given.

use vstd::prelude::*;
use vstd::seq_lib::{to_multiset_build, to_multiset_insert};

use crate::flight::{flight_views, Flight, FlightView};

verus! {

/// No flight of the list departs before a flight that stands ahead of it.
pub open spec fn departures_ascend(flights: Seq<FlightView>) -> bool {
    forall|i: int, j: int|
        0 <= i < j < flights.len() ==> (#[trigger] flights[i]).departure <= (#[trigger] flights[j]).departure
}

/// The flight at place `j` comes before the flight at place `i` in order of
/// departure; of two flights that depart at the same minute the one that
/// stands first in the list comes first.
pub open spec fn departs_before(flights: Seq<FlightView>, j: int, i: int) -> bool {
    flights[j].departure < flights[i].departure || (flights[j].departure == flights[i].departure && j < i)
}

/// The place in `sorted` at which a flight departing at `departure` is put:
/// behind every flight that departs at or before that minute.
pub open spec fn slot(sorted: Seq<FlightView>, departure: int) -> int
    decreases sorted.len(),
{
    if sorted.len() == 0 || sorted.last().departure <= departure {
        sorted.len() as int
    } else {
        slot(sorted.drop_last(), departure)
    }
}

/// The flights in ascending order of departure time, flights with equal
/// departure times in the order in which `flights` lists them.
pub open spec fn by_departure(flights: Seq<FlightView>) -> Seq<FlightView>
    decreases flights.len(),
{
    if flights.len() == 0 {
        flights
    } else {
        let rest = by_departure(flights.drop_last());
        rest.insert(slot(rest, flights.last().departure), flights.last())
    }
}

/// Where the slot lies: everything from it on departs later, and the flight
/// just ahead of it does not.
pub proof fn lemma_slot(sorted: Seq<FlightView>, departure: int)
    ensures
        0 <= slot(sorted, departure) <= sorted.len(),
        forall|q: int| slot(sorted, departure) <= q < sorted.len() ==> (#[trigger] sorted[q]).departure > departure,
        slot(sorted, departure) > 0 ==> sorted[slot(sorted, departure) - 1].departure <= departure,
    decreases sorted.len(),
{
    if !(sorted.len() == 0 || sorted.last().departure <= departure) {
        lemma_slot(sorted.drop_last(), departure);
        let p = slot(sorted, departure);
        assert forall|q: int| p <= q < sorted.len() implies (#[trigger] sorted[q]).departure > departure by {
            if q < sorted.len() - 1 {
                assert(sorted[q] == sorted.drop_last()[q]);
            }
        }
        if p > 0 {
            assert(sorted[p - 1] == sorted.drop_last()[p - 1]);
        }
    }
}

/// Ordering keeps the number of flights.
pub proof fn lemma_by_departure_len(flights: Seq<FlightView>)
    ensures
        by_departure(flights).len() == flights.len(),
    decreases flights.len(),
{
    if flights.len() > 0 {
        lemma_by_departure_len(flights.drop_last());
        lemma_slot(by_departure(flights.drop_last()), flights.last().departure);
    }
}

/// The ordered list ascends in departure time.
pub proof fn lemma_by_departure_ascends(flights: Seq<FlightView>)
    ensures
        departures_ascend(by_departure(flights)),
    decreases flights.len(),
{
    if flights.len() > 0 {
        let rest = by_departure(flights.drop_last());
        let x = flights.last();
        let p = slot(rest, x.departure);
        lemma_by_departure_ascends(flights.drop_last());
        lemma_slot(rest, x.departure);
        let out = rest.insert(p, x);
        assert forall|i: int, j: int| 0 <= i < j < out.len() implies (#[trigger] out[i]).departure <= (
        #[trigger] out[j]).departure by {
            if i < p {
                assert(out[i] == rest[i]);
                if p > 0 {
                    assert(rest[i].departure <= rest[p - 1].departure);
                }
            } else if i > p {
                assert(out[i] == rest[i - 1]);
            }
            if j < p {
                assert(out[j] == rest[j]);
            } else if j > p {
                assert(out[j] == rest[j - 1]);
            }
        }
    }
}

/// The ordered list holds the same flights as the given one, each as often.
pub proof fn lemma_by_departure_permutes(flights: Seq<FlightView>)
    ensures
        by_departure(flights).to_multiset() == flights.to_multiset(),
    decreases flights.len(),
{
    if flights.len() > 0 {
        let rest = by_departure(flights.drop_last());
        let x = flights.last();
        lemma_by_departure_permutes(flights.drop_last());
        lemma_slot(rest, x.departure);
        to_multiset_insert(rest, slot(rest, x.departure), x);
        to_multiset_build(flights.drop_last(), x);
        assert(flights.drop_last().push(x) =~= flights);
    }
}

/// The flights of `flights` that depart at the minute `departure`, in the
/// order of the list.
pub open spec fn departing_at(flights: Seq<FlightView>, departure: int) -> Seq<FlightView> {
    flights.filter(|f: FlightView| f.departure == departure)
}

/// Ordering is stable: the flights that depart at the same minute stand in
/// the ordered list in the order in which the given list holds them.
pub proof fn lemma_by_departure_stable(flights: Seq<FlightView>, departure: int)
    ensures
        departing_at(by_departure(flights), departure) == departing_at(flights, departure),
    decreases flights.len(),
{
    let at = |f: FlightView| f.departure == departure;
    if flights.len() > 0 {
        let head = flights.drop_last();
        let x = flights.last();
        let rest = by_departure(head);
        let p = slot(rest, x.departure);
        lemma_by_departure_stable(head, departure);
        lemma_by_departure_len(head);
        lemma_slot(rest, x.departure);
        let front = rest.take(p);
        let back = rest.skip(p);
        assert(rest =~= front + back);
        assert(rest.insert(p, x) =~= front.push(x) + back);
        Seq::filter_distributes_over_add(front, back, at);
        Seq::filter_distributes_over_add(front.push(x), back, at);
        front.lemma_filter_push(x, at);
        head.lemma_filter_push(x, at);
        assert(head.push(x) =~= flights);
        if at(x) {
            assert forall|i: int| 0 <= i < back.len() implies !at(#[trigger] back[i]) by {
                assert(back[i] == rest[p + i]);
            }
            back.lemma_all_neg_filter_empty(at);
            assert(front.push(x).filter(at) + back.filter(at) =~= (front.filter(at) + back.filter(at)).push(x));
        }
    }
}

/// A list that already ascends in departure time is left as it is.
pub proof fn lemma_by_departure_fixes_ascending(flights: Seq<FlightView>)
    requires
        departures_ascend(flights),
    ensures
        by_departure(flights) == flights,
    decreases flights.len(),
{
    if flights.len() > 0 {
        let head = flights.drop_last();
        assert forall|i: int, j: int| 0 <= i < j < head.len() implies (#[trigger] head[i]).departure <= (
        #[trigger] head[j]).departure by {
            assert(head[i] == flights[i]);
            assert(head[j] == flights[j]);
        }
        lemma_by_departure_fixes_ascending(head);
        if head.len() > 0 {
            assert(head.last() == flights[head.len() - 1]);
        }
        assert(head.insert(head.len() as int, flights.last()) =~= flights);
    }
}

/// The place in the ordered list to which the flight at place `i` of
/// `flights` goes.
pub open spec fn placed(flights: Seq<FlightView>, i: int) -> int
    decreases flights.len(),
{
    if flights.len() == 0 {
        0
    } else {
        let head = flights.drop_last();
        let p = slot(by_departure(head), flights.last().departure);
        if i >= flights.len() - 1 {
            p
        } else if placed(head, i) < p {
            placed(head, i)
        } else {
            placed(head, i) + 1
        }
    }
}

/// The place in `flights` from which the flight at place `k` of the ordered
/// list comes.
pub open spec fn taken_from(flights: Seq<FlightView>, k: int) -> int
    decreases flights.len(),
{
    if flights.len() == 0 {
        0
    } else {
        let head = flights.drop_last();
        let p = slot(by_departure(head), flights.last().departure);
        if k == p {
            flights.len() - 1
        } else if k < p {
            taken_from(head, k)
        } else {
            taken_from(head, k - 1)
        }
    }
}

/// Ordering moves each flight to one place and fills each place with one
/// flight, and it keeps the order of departure: a flight that departs
/// before another, or at the same minute and stands ahead of it, stands
/// ahead of it in the ordered list.
pub proof fn lemma_placed(flights: Seq<FlightView>)
    ensures
        by_departure(flights).len() == flights.len(),
        departures_ascend(by_departure(flights)),
        forall|i: int|
            0 <= i < flights.len() ==> 0 <= #[trigger] placed(flights, i) < flights.len() && by_departure(
                flights,
            )[placed(flights, i)] == flights[i] && taken_from(flights, placed(flights, i)) == i,
        forall|k: int|
            0 <= k < flights.len() ==> 0 <= #[trigger] taken_from(flights, k) < flights.len() && placed(
                flights,
                taken_from(flights, k),
            ) == k && flights[taken_from(flights, k)] == by_departure(flights)[k],
        forall|i: int, j: int|
            0 <= i < flights.len() && 0 <= j < flights.len() && departs_before(flights, i, j) ==> #[trigger] placed(
                flights,
                i,
            ) < #[trigger] placed(flights, j),
    decreases flights.len(),
{
    let n = flights.len() as int;
    lemma_by_departure_len(flights);
    lemma_by_departure_ascends(flights);
    if n > 0 {
        let head = flights.drop_last();
        let x = flights.last();
        let rest = by_departure(head);
        let p = slot(rest, x.departure);
        let out = by_departure(flights);
        lemma_placed(head);
        lemma_slot(rest, x.departure);
        assert forall|q: int| 0 <= q < p implies (#[trigger] rest[q]).departure <= x.departure by {
            if q < p - 1 {
                assert(rest[q].departure <= rest[p - 1].departure);
            }
        }
        assert forall|i: int| 0 <= i < n implies 0 <= #[trigger] placed(flights, i) < n && out[placed(flights, i)]
            == flights[i] && taken_from(flights, placed(flights, i)) == i by {
            if i < n - 1 {
                let q = placed(head, i);
                assert(rest[q] == head[i]);
                assert(head[i] == flights[i]);
            }
        }
        assert forall|k: int| 0 <= k < n implies 0 <= #[trigger] taken_from(flights, k) < n && placed(
            flights,
            taken_from(flights, k),
        ) == k && flights[taken_from(flights, k)] == out[k] by {
            if k < p {
                let i = taken_from(head, k);
                assert(placed(head, i) == k);
                assert(head[i] == flights[i]);
            } else if k > p {
                let i = taken_from(head, k - 1);
                assert(placed(head, i) == k - 1);
                assert(head[i] == flights[i]);
            }
        }
        assert forall|i: int, j: int|
            0 <= i < n && 0 <= j < n && departs_before(flights, i, j) implies #[trigger] placed(flights, i)
            < #[trigger] placed(flights, j) by {
            if i < n - 1 && j < n - 1 {
                assert(head[i] == flights[i]);
                assert(head[j] == flights[j]);
                assert(departs_before(head, i, j));
                assert(placed(head, i) < placed(head, j));
            } else if j == n - 1 {
                let q = placed(head, i);
                assert(rest[q] == head[i]);
                assert(head[i] == flights[i]);
                if q >= p {
                    assert(rest[q].departure > x.departure);
                }
            } else {
                let q = placed(head, j);
                assert(rest[q] == head[j]);
                assert(head[j] == flights[j]);
                if q < p {
                    assert(rest[q].departure <= x.departure);
                }
            }
        }
    }
}

/// In a list that ascends in departure time a flight departs before
/// another exactly if it stands ahead of it.
pub proof fn lemma_ascending_departs_before(flights: Seq<FlightView>, a: int, b: int)
    requires
        departures_ascend(flights),
        0 <= a < flights.len(),
        0 <= b < flights.len(),
    ensures
        departs_before(flights, a, b) <==> a < b,
{
    if a < b {
        assert(flights[a].departure <= flights[b].departure);
    }
    if b < a {
        assert(flights[b].departure <= flights[a].departure);
    }
}

/// Sorts `flights` by departure time, keeping flights with equal departure
/// times in the order given.
pub fn sort_by_departure(flights: Vec<Flight>) -> (sorted: Vec<Flight>)
    ensures
        flight_views(sorted@) == by_departure(flight_views(flights@)),
        departures_ascend(flight_views(sorted@)),
        sorted@.len() == flights@.len(),
        flight_views(sorted@).to_multiset() == flight_views(flights@).to_multiset(),
        forall|departure: int| #[trigger]
            departing_at(flight_views(sorted@), departure) == departing_at(flight_views(flights@), departure),
{
    let ghost given = flight_views(flights@);
    let mut sorted: Vec<Flight> = Vec::new();
    assert(flight_views(sorted@) =~= by_departure(given.take(0)));
    for flight in it: flights
        invariant
            it.seq() == flights@,
            given == flight_views(flights@),
            flight_views(sorted@) == by_departure(given.take(it.index() as int)),
    {
        let ghost done = flight_views(sorted@);
        let mut p: usize = sorted.len();
        assert(done.take(p as int) =~= done);
        while p > 0 && sorted[p - 1].departure_time.0 > flight.departure_time.0
            invariant
                p <= sorted@.len(),
                done == flight_views(sorted@),
                slot(done, flight@.departure) == slot(done.take(p as int), flight@.departure),
            decreases p,
        {
            proof {
                assert(done.take(p as int).last() == sorted@[p - 1]@);
                assert(done.take(p as int).drop_last() =~= done.take(p - 1));
            }
            p = p - 1;
        }
        proof {
            assert(done.take(done.len() as int) =~= done);
            if p > 0 {
                assert(done.take(p as int).last() == sorted@[p - 1]@);
            }
            assert(slot(done, flight@.departure) == p);
            let k = it.index() as int;
            assert(given.take(k + 1).drop_last() =~= given.take(k));
            assert(given.take(k + 1).last() == flight@);
        }
        sorted.insert(p, flight);
        assert(flight_views(sorted@) =~= done.insert(p as int, flight@));
    }
    proof {
        assert(given.take(given.len() as int) =~= given);
        lemma_by_departure_ascends(given);
        lemma_by_departure_len(given);
        lemma_by_departure_permutes(given);
        assert forall|departure: int| #[trigger]
            departing_at(by_departure(given), departure) == departing_at(given, departure) by {
            lemma_by_departure_stable(given, departure);
        }
    }
    sorted
}

} // verus!
