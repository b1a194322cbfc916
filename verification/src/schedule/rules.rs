//! The constraints that a flight's aircraft and airports put on its times.
//!
//! Instants that are computed from stored times (an arrival plus a
//! turnaround, a shifted departure) are held in `u128`, so that no sum of
//! stored times leaves the type.

use vstd::prelude::*;

use crate::aircraft::{Availability, AvailabilityView};
use crate::airport::{closed_at, turnaround, AirportTable, AirportView};
use crate::flight::{Flight, FlightView};
use crate::ident::names;
use crate::time::{overlapping, Time};

verus! {

/// Some maintenance window overlaps the window from `departure` to `arrival`.
pub open spec fn violates_maintenance(disruptions: Seq<AvailabilityView>, departure: int, arrival: int) -> bool {
    exists|k: int| 0 <= k < disruptions.len() && (#[trigger] disruptions[k]).blocks(departure, arrival)
}

/// Some maintenance window that lies between `since` and `departure` pins
/// the aircraft to an airport other than `location`.
pub open spec fn at_wrong_airport(
    disruptions: Seq<AvailabilityView>,
    departure: int,
    location: Seq<char>,
    since: int,
) -> bool {
    exists|k: int| 0 <= k < disruptions.len() && (#[trigger] disruptions[k]).pins_away(location, since, departure)
}

impl AvailabilityView {
    /// The window overlaps the window from `departure` to `arrival`.
    pub open spec fn blocks(self, departure: int, arrival: int) -> bool {
        overlapping(departure, arrival, self.from, self.to)
    }

    /// The window starts at or after `since`, ends at or before `until`, and
    /// pins the aircraft to an airport other than `location`.
    pub open spec fn pins_away(self, location: Seq<char>, since: int, until: int) -> bool {
        self.from >= since && self.to <= until && self.location is Some && self.location != Some(location)
    }
}

/// The origin is under curfew at `departure`, or the destination is at
/// `arrival`.
pub open spec fn airports_closed(
    airports: Seq<AirportView>,
    origin: Seq<char>,
    destination: Seq<char>,
    departure: int,
    arrival: int,
) -> bool {
    closed_at(airports, origin, departure) || closed_at(airports, destination, arrival)
}

/// The instant from which an aircraft that lands at `airport` at `arrival`
/// may depart again: the arrival plus the airport's turnaround time.
pub open spec fn ready_time(airports: Seq<AirportView>, arrival: int, airport: Seq<char>) -> int {
    arrival + turnaround(airports, airport)
}

/// The times to which a flight moves behind a flight that now arrives at
/// `prev_arrival` at the airport `prev_destination`.
pub struct Shift {
    /// The candidate departure: the later of the aircraft's ready time and
    /// the planned departure.
    pub departure: int,
    /// The candidate arrival: the candidate departure plus the flight's
    /// duration.
    pub arrival: int,
    /// Whether the planned departure lies before the ready time, so that the
    /// flight cannot keep its times.
    pub displaced: bool,
}

/// The candidate times of `flight` behind a flight that arrives at
/// `prev_arrival` at `prev_destination`.
pub open spec fn shifted_times(
    airports: Seq<AirportView>,
    flight: FlightView,
    prev_arrival: int,
    prev_destination: Seq<char>,
) -> Shift {
    let ready = ready_time(airports, prev_arrival, prev_destination);
    let departure = if ready > flight.departure {
        ready
    } else {
        flight.departure
    };
    Shift { departure, arrival: departure + (flight.arrival - flight.departure), displaced: flight.departure < ready }
}

/// Whether some maintenance window of `disruptions` overlaps the window from
/// `dep` to `arr`.
pub fn violates_aircraft_maintenance(disruptions: &Vec<Availability>, dep: u128, arr: u128) -> (violated: bool)
    ensures
        violated == violates_maintenance(disruptions@.map_values(|d: Availability| d@), dep as int, arr as int),
{
    let ghost windows = disruptions@.map_values(|d: Availability| d@);
    let n = disruptions.len();
    let mut k: usize = 0;
    while k < n
        invariant
            n == disruptions@.len(),
            k <= n,
            windows == disruptions@.map_values(|d: Availability| d@),
            forall|j: int| 0 <= j < k ==> !(#[trigger] windows[j]).blocks(dep as int, arr as int),
        decreases n - k,
    {
        let d = &disruptions[k];
        assert(d@ == windows[k as int]);
        if dep < d.to.0 as u128 && arr > d.from.0 as u128 {
            return true;
        }
        k = k + 1;
    }
    false
}

/// Whether some maintenance window of `disruptions` that lies between
/// `since` and `departure_time` pins the aircraft to an airport other than
/// `location`.
pub fn is_at_wrong_airport(
    disruptions: &Vec<Availability>,
    departure_time: Time,
    location: &String,
    since: u128,
) -> (wrong: bool)
    ensures
        wrong == at_wrong_airport(
            disruptions@.map_values(|d: Availability| d@),
            departure_time@,
            location@,
            since as int,
        ),
{
    let ghost windows = disruptions@.map_values(|d: Availability| d@);
    let n = disruptions.len();
    let mut k: usize = 0;
    while k < n
        invariant
            n == disruptions@.len(),
            k <= n,
            windows == disruptions@.map_values(|d: Availability| d@),
            forall|j: int| 0 <= j < k ==> !(#[trigger] windows[j]).pins_away(location@, since as int, departure_time@),
        decreases n - k,
    {
        let d = &disruptions[k];
        assert(d@ == windows[k as int]);
        if d.from.0 as u128 >= since && d.to.0 <= departure_time.0 && d.location_id.is_some() && !names(
            &d.location_id,
            location,
        ) {
            return true;
        }
        k = k + 1;
    }
    false
}

/// Whether the origin of `flight` is under curfew at `dep_time` or its
/// destination at `arr_time`.
pub fn is_airport_closed(airports: &AirportTable, flight: &Flight, dep_time: u128, arr_time: u128) -> (closed: bool)
    ensures
        closed == airports_closed(
            airports@,
            flight@.origin,
            flight@.destination,
            dep_time as int,
            arr_time as int,
        ),
{
    airports.is_closed_at(&flight.origin_id, dep_time) || airports.is_closed_at(&flight.destination_id, arr_time)
}

/// The instant from which an aircraft that lands at `airport_id` at
/// `arrival_time` may depart again.
pub fn get_ready_time(airports: &AirportTable, arrival_time: Time, airport_id: &String) -> (ready: u128)
    ensures
        ready == ready_time(airports@, arrival_time@, airport_id@),
        arrival_time@ <= ready <= arrival_time@ + u64::MAX,
{
    arrival_time.0 as u128 + airports.turnaround(airport_id) as u128
}

/// The candidate times of `flight` behind a flight that arrives at
/// `prev_arrival` at `prev_destination`: departure, arrival, and whether the
/// flight is displaced.
pub fn compute_shifted_times(
    airports: &AirportTable,
    flight: &Flight,
    prev_arrival: Time,
    prev_destination: &String,
) -> (times: (u128, u128, bool))
    ensures
        times.0 == shifted_times(airports@, flight@, prev_arrival@, prev_destination@).departure,
        times.1 == shifted_times(airports@, flight@, prev_arrival@, prev_destination@).arrival,
        times.2 == shifted_times(airports@, flight@, prev_arrival@, prev_destination@).displaced,
{
    let ready_at = get_ready_time(airports, prev_arrival, prev_destination);
    let planned = flight.departure_time.0 as u128;
    let dep_time = if ready_at > planned {
        ready_at
    } else {
        planned
    };
    assert(dep_time <= 2 * u64::MAX);
    let arr_time = flight.arrival_time.0 as u128 + (dep_time - planned);
    (dep_time, arr_time, planned < ready_at)
}

} // verus!
