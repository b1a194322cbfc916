#![allow(unused_imports)]
use airline_tower::aircraft::{Aircraft, Availability, Fleet};
use airline_tower::airport::{Airport, AirportTable, Curfew};
use airline_tower::flight::FlightStatus::{Delayed, Scheduled, Unscheduled};
use airline_tower::flight::UnscheduledReason::{
    AircraftMaintenance, AirportCurfew, BrokenChain, MaxDelayExceeded, Waiting,
};
use airline_tower::flight::{Flight, FlightId, FlightStatus};
use airline_tower::schedule::Schedule;
use airline_tower::time::Time;

fn id(s: &str) -> String {
    s.to_string()
}

#[allow(dead_code)]
fn add_aircraft(aircraft: &mut Fleet, aircraft_id: &str, initial_location_id: &str, disruptions: Vec<Availability>) {
    aircraft.insert(Aircraft {
        id: id(aircraft_id),
        initial_location_id: id(initial_location_id),
        disruptions,
    });
}

#[allow(dead_code)]
fn add_airport(airports: &mut AirportTable, airport_id: &str, mtt: u64, disruptions: Vec<Curfew>) {
    airports.insert(Airport {
        id: id(airport_id),
        mtt,
        disruptions,
    });
}

#[allow(dead_code)]
fn add_flight(
    flights: &mut Vec<Flight>,
    flight_id: &str,
    origin_id: &str,
    destination_id: &str,
    departure_time: u64,
    arrival_time: u64,
    aircraft_id: Option<&str>,
    status: FlightStatus,
) {
    flights.push(Flight {
        id: id(flight_id),
        origin_id: id(origin_id),
        destination_id: id(destination_id),
        departure_time: Time(departure_time),
        arrival_time: Time(arrival_time),
        aircraft_id: aircraft_id.map(|x| id(x)),
        status,
    });
}

#[allow(dead_code)]
fn availability(from: u64, to: u64, location_id: Option<String>) -> Availability {
    Availability {
        from: Time(from),
        to: Time(to),
        location_id,
    }
}

#[allow(dead_code)]
fn curfew(from: u64, to: u64) -> Curfew {
    Curfew {
        from: Time(from),
        to: Time(to),
    }
}

#[test]
fn assign_test_location_consistency() {
    let mut aircraft = Fleet::new();
    let mut airports = AirportTable::new();
    let mut flights = Vec::new();

    add_airport(&mut airports, "KRK", 30, vec![]);
    add_airport(&mut airports, "WAW", 30, vec![]);
    add_airport(&mut airports, "GDN", 30, vec![]);

    add_aircraft(&mut aircraft, "PLANE_1", "KRK", vec![]);

    add_flight(
        &mut flights,
        "FLIGHT_1",
        "KRK",
        "WAW",
        100,
        200,
        None,
        Unscheduled(Waiting),
    );
    add_flight(
        &mut flights,
        "FLIGHT_2",
        "KRK",
        "GDN",
        300,
        400,
        None,
        Unscheduled(Waiting),
    );

    let mut schedule = Schedule::new(aircraft, airports, flights);
    schedule.assign();

    assert_eq!(schedule.flights[0].aircraft_id, Some(id("PLANE_1")));
    assert_eq!(schedule.flights[1].aircraft_id, None);
}

#[test]
fn assign_test_mtt_conflict() {
    let mut aircraft = Fleet::new();
    let mut airports = AirportTable::new();
    let mut flights = Vec::new();

    add_airport(&mut airports, "KRK", 30, vec![]);
    add_airport(&mut airports, "WAW", 30, vec![]);
    add_airport(&mut airports, "GDN", 30, vec![]);

    add_aircraft(&mut aircraft, "PLANE_1", "KRK", vec![]);

    add_flight(
        &mut flights,
        "FLIGHT_1",
        "KRK",
        "WAW",
        100,
        200,
        None,
        Unscheduled(Waiting),
    );
    add_flight(
        &mut flights,
        "FLIGHT_2",
        "WAW",
        "GDN",
        220,
        300,
        None,
        Unscheduled(Waiting),
    );

    let mut schedule = Schedule::new(aircraft, airports, flights);
    schedule.assign();

    assert_eq!(schedule.flights[0].aircraft_id, Some(id("PLANE_1")));
    assert_eq!(schedule.flights[1].aircraft_id, None);
}

#[test]
fn assign_test_continuity_schedule() {
    let mut aircraft = Fleet::new();
    let mut airports = AirportTable::new();
    let mut flights = Vec::new();

    add_airport(&mut airports, "KRK", 30, vec![]);
    add_airport(&mut airports, "WAW", 30, vec![]);
    add_airport(&mut airports, "GDN", 30, vec![]);

    add_aircraft(&mut aircraft, "PLANE_1", "KRK", vec![]);

    add_flight(
        &mut flights,
        "FLIGHT_1",
        "KRK",
        "WAW",
        100,
        200,
        None,
        Unscheduled(Waiting),
    );
    add_flight(
        &mut flights,
        "FLIGHT_2",
        "WAW",
        "GDN",
        240,
        300,
        None,
        Unscheduled(Waiting),
    );

    let mut schedule = Schedule::new(aircraft, airports, flights);
    schedule.assign();

    assert_eq!(schedule.flights[0].aircraft_id, Some(id("PLANE_1")));
    assert_eq!(schedule.flights[1].aircraft_id, Some(id("PLANE_1")));
}

#[test]
fn assign_test_determinism() {
    let mut aircraft = Fleet::new();
    let mut airports = AirportTable::new();
    let mut flights = Vec::new();

    add_airport(&mut airports, "GDN", 30, vec![]);
    add_airport(&mut airports, "WAW", 30, vec![]);

    add_aircraft(&mut aircraft, "A", "GDN", vec![]);
    add_aircraft(&mut aircraft, "B", "GDN", vec![]);

    add_flight(
        &mut flights,
        "FLIGHT_1",
        "GDN",
        "WAW",
        100,
        200,
        None,
        Unscheduled(Waiting),
    );

    let mut schedule = Schedule::new(aircraft, airports, flights);
    schedule.assign();

    assert_eq!(schedule.flights[0].aircraft_id, Some(id("A")));
}

#[test]
fn assign_test_availability_disruption_without_location() {
    let mut aircraft = Fleet::new();
    let mut airports = AirportTable::new();
    let mut flights = Vec::new();

    add_airport(&mut airports, "KRK", 30, vec![]);
    add_airport(&mut airports, "WAW", 30, vec![]);

    add_aircraft(
        &mut aircraft,
        "PLANE_1",
        "KRK",
        vec![availability(150, 250, None)],
    );

    add_flight(
        &mut flights,
        "FLIGHT_1",
        "KRK",
        "WAW",
        100,
        200,
        None,
        Unscheduled(Waiting),
    );

    let mut schedule = Schedule::new(aircraft, airports, flights);
    schedule.assign();

    assert_eq!(schedule.flights[0].aircraft_id, None);
}

#[test]
fn assign_test_availability_disruption_with_location() {
    let mut aircraft = Fleet::new();
    let mut airports = AirportTable::new();
    let mut flights = Vec::new();

    add_airport(&mut airports, "KRK", 30, vec![]);
    add_airport(&mut airports, "WAW", 30, vec![]);
    add_airport(&mut airports, "GDN", 30, vec![]);

    add_aircraft(
        &mut aircraft,
        "PLANE_1",
        "KRK",
        vec![availability(250, 300, Some(id("GDN")))],
    );

    add_flight(
        &mut flights,
        "FLIGHT_1",
        "KRK",
        "WAW",
        100,
        200,
        None,
        Unscheduled(Waiting),
    );
    add_flight(
        &mut flights,
        "FLIGHT_2",
        "WAW",
        "GDN",
        400,
        500,
        None,
        Unscheduled(Waiting),
    );

    let mut schedule = Schedule::new(aircraft, airports, flights);
    schedule.assign();

    assert_eq!(schedule.flights[0].aircraft_id, Some(id("PLANE_1")));
    assert_eq!(schedule.flights[1].aircraft_id, None);
}

#[test]
fn assign_test_perfect_fit_mtt() {
    let mut aircraft = Fleet::new();
    let mut airports = AirportTable::new();
    let mut flights = Vec::new();

    add_airport(&mut airports, "KRK", 30, vec![]);
    add_airport(&mut airports, "WAW", 30, vec![]);
    add_airport(&mut airports, "GDN", 30, vec![]);

    add_aircraft(&mut aircraft, "PLANE_1", "KRK", vec![]);

    add_flight(
        &mut flights,
        "FLIGHT_1",
        "KRK",
        "WAW",
        100,
        200,
        None,
        Unscheduled(Waiting),
    );
    add_flight(
        &mut flights,
        "FLIGHT_2",
        "WAW",
        "GDN",
        230,
        300,
        None,
        Unscheduled(Waiting),
    );

    let mut schedule = Schedule::new(aircraft, airports, flights);
    schedule.assign();

    assert_eq!(schedule.flights[0].aircraft_id, Some(id("PLANE_1")));
    assert_eq!(schedule.flights[1].aircraft_id, Some(id("PLANE_1")));
}

#[test]
fn assign_test_multiday_flight() {
    let mut aircraft = Fleet::new();
    let mut airports = AirportTable::new();
    let mut flights = Vec::new();

    add_airport(&mut airports, "KRK", 30, vec![]);
    add_airport(&mut airports, "WAW", 30, vec![]);
    add_airport(&mut airports, "GDN", 30, vec![]);

    add_aircraft(&mut aircraft, "PLANE_1", "KRK", vec![]);

    add_flight(
        &mut flights,
        "FLIGHT_1",
        "KRK",
        "WAW",
        1200,
        1500,
        None,
        Unscheduled(Waiting),
    );
    add_flight(
        &mut flights,
        "FLIGHT_1",
        "KRK",
        "GDN",
        1100,
        1800,
        None,
        Unscheduled(Waiting),
    );

    let mut schedule = Schedule::new(aircraft, airports, flights);
    schedule.assign();

    assert_eq!(schedule.flights[0].aircraft_id, Some(id("PLANE_1")));
    assert_eq!(schedule.flights[1].aircraft_id, None);
}

#[test]
fn assign_test_recovery_after_disruption() {
    let mut aircraft = Fleet::new();
    let mut airports = AirportTable::new();
    let mut flights = Vec::new();

    add_airport(&mut airports, "KRK", 30, vec![]);
    add_airport(&mut airports, "WAW", 30, vec![]);
    add_airport(&mut airports, "WRO", 30, vec![]);

    add_aircraft(
        &mut aircraft,
        "PLANE_1",
        "KRK",
        vec![availability(600, 800, None)],
    );
    add_aircraft(&mut aircraft, "PLANE_2", "KRK", vec![]);

    add_flight(
        &mut flights,
        "FLIGHT_1",
        "KRK",
        "WRO",
        200,
        500,
        Some("PLANE_1"),
        Scheduled,
    );
    add_flight(
        &mut flights,
        "FLIGHT_2",
        "KRK",
        "WAW",
        1800,
        2000,
        Some("PLANE_1"),
        Scheduled,
    );

    let mut schedule = Schedule::new(aircraft, airports, flights);
    schedule.assign();
    schedule.apply_delay(id("FLIGHT_1"), 400);

    assert_eq!(None, schedule.flights[0].aircraft_id);
    assert_eq!(Time(200) + 400, schedule.flights[0].departure_time);
    assert_eq!(Time(500) + 400, schedule.flights[0].arrival_time);
    assert_eq!(Unscheduled(AircraftMaintenance), schedule.flights[0].status);

    assert_eq!(None, schedule.flights[1].aircraft_id);
    assert_eq!(Time(1800), schedule.flights[1].departure_time);
    assert_eq!(Time(2000), schedule.flights[1].arrival_time);
    assert_eq!(Unscheduled(BrokenChain), schedule.flights[1].status);

    schedule.assign();

    assert_eq!(Some(id("PLANE_2")), schedule.flights[0].aircraft_id);
    assert_eq!(Time(200) + 400, schedule.flights[0].departure_time);
    assert_eq!(Time(500) + 400, schedule.flights[0].arrival_time);
    assert_eq!(Scheduled, schedule.flights[0].status);

    assert_eq!(Some(id("PLANE_1")), schedule.flights[1].aircraft_id);
    assert_eq!(Time(1800), schedule.flights[1].departure_time);
    assert_eq!(Time(2000), schedule.flights[1].arrival_time);
    assert_eq!(Scheduled, schedule.flights[1].status);
}
