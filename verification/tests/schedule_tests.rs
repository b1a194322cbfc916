#![allow(unused_imports)]
use airline_tower::aircraft::{Aircraft, Availability, Fleet};
use airline_tower::airport::{Airport, AirportTable, Curfew};
use airline_tower::flight::FlightStatus::{Delayed, Scheduled, Unscheduled};
use airline_tower::flight::UnscheduledReason::{
    AircraftMaintenance, AirportCurfew, BrokenChain, MaxDelayExceeded, Waiting,
};
use airline_tower::flight::{Flight, FlightId, FlightStatus};
use airline_tower::schedule::Schedule;
use airline_tower::time::Time;

fn id(s: &str) -> String {
    s.to_string()
}

#[allow(dead_code)]
fn add_aircraft(aircraft: &mut Fleet, aircraft_id: &str, initial_location_id: &str, disruptions: Vec<Availability>) {
    aircraft.insert(Aircraft {
        id: id(aircraft_id),
        initial_location_id: id(initial_location_id),
        disruptions,
    });
}

#[allow(dead_code)]
fn add_airport(airports: &mut AirportTable, airport_id: &str, mtt: u64, disruptions: Vec<Curfew>) {
    airports.insert(Airport {
        id: id(airport_id),
        mtt,
        disruptions,
    });
}

#[allow(dead_code)]
fn add_flight(
    flights: &mut Vec<Flight>,
    flight_id: &str,
    origin_id: &str,
    destination_id: &str,
    departure_time: u64,
    arrival_time: u64,
    aircraft_id: Option<&str>,
    status: FlightStatus,
) {
    flights.push(Flight {
        id: id(flight_id),
        origin_id: id(origin_id),
        destination_id: id(destination_id),
        departure_time: Time(departure_time),
        arrival_time: Time(arrival_time),
        aircraft_id: aircraft_id.map(|x| id(x)),
        status,
    });
}

#[allow(dead_code)]
fn availability(from: u64, to: u64, location_id: Option<String>) -> Availability {
    Availability {
        from: Time(from),
        to: Time(to),
        location_id,
    }
}

#[allow(dead_code)]
fn curfew(from: u64, to: u64) -> Curfew {
    Curfew {
        from: Time(from),
        to: Time(to),
    }
}

#[test]
fn schedule_test_location_consistency() {
    let mut aircraft = Fleet::new();
    let mut airports = AirportTable::new();
    let mut flights = Vec::new();

    add_airport(&mut airports, "KRK", 30, vec![]);
    add_airport(&mut airports, "WAW", 30, vec![]);
    add_airport(&mut airports, "GDN", 30, vec![]);

    add_aircraft(&mut aircraft, "PLANE_1", "KRK", vec![]);

    add_flight(
        &mut flights,
        "FLIGHT_1",
        "KRK",
        "WAW",
        100,
        200,
        None,
        Unscheduled(Waiting),
    );
    add_flight(
        &mut flights,
        "FLIGHT_2",
        "KRK",
        "GDN",
        300,
        400,
        None,
        Unscheduled(Waiting),
    );

    let mut schedule = Schedule::new(aircraft, airports, flights);
    schedule.assign();

    assert_eq!(schedule.flights[0].aircraft_id, Some(id("PLANE_1")));
    assert_eq!(schedule.flights[1].aircraft_id, None);
}

#[test]
fn schedule_test_mtt_conflict() {
    let mut aircraft = Fleet::new();
    let mut airports = AirportTable::new();
    let mut flights = Vec::new();

    add_airport(&mut airports, "KRK", 30, vec![]);
    add_airport(&mut airports, "WAW", 30, vec![]);
    add_airport(&mut airports, "GDN", 30, vec![]);

    add_aircraft(&mut aircraft, "PLANE_1", "KRK", vec![]);

    add_flight(
        &mut flights,
        "FLIGHT_1",
        "KRK",
        "WAW",
        100,
        200,
        None,
        Unscheduled(Waiting),
    );
    add_flight(
        &mut flights,
        "FLIGHT_2",
        "WAW",
        "GDN",
        220,
        300,
        None,
        Unscheduled(Waiting),
    );

    let mut schedule = Schedule::new(aircraft, airports, flights);
    schedule.assign();

    assert_eq!(schedule.flights[0].aircraft_id, Some(id("PLANE_1")));
    assert_eq!(schedule.flights[1].aircraft_id, None);
}

#[test]
fn schedule_test_continuity_schedule() {
    let mut aircraft = Fleet::new();
    let mut airports = AirportTable::new();
    let mut flights = Vec::new();

    add_airport(&mut airports, "KRK", 30, vec![]);
    add_airport(&mut airports, "WAW", 30, vec![]);
    add_airport(&mut airports, "GDN", 30, vec![]);

    add_aircraft(&mut aircraft, "PLANE_1", "KRK", vec![]);

    add_flight(
        &mut flights,
        "FLIGHT_1",
        "KRK",
        "WAW",
        100,
        200,
        None,
        Unscheduled(Waiting),
    );
    add_flight(
        &mut flights,
        "FLIGHT_2",
        "WAW",
        "GDN",
        240,
        300,
        None,
        Unscheduled(Waiting),
    );

    let mut schedule = Schedule::new(aircraft, airports, flights);
    schedule.assign();

    assert_eq!(schedule.flights[0].aircraft_id, Some(id("PLANE_1")));
    assert_eq!(schedule.flights[1].aircraft_id, Some(id("PLANE_1")));
}

#[test]
fn schedule_test_determinism() {
    let mut aircraft = Fleet::new();
    let mut airports = AirportTable::new();
    let mut flights = Vec::new();

    add_airport(&mut airports, "GDN", 30, vec![]);
    add_airport(&mut airports, "WAW", 30, vec![]);

    add_aircraft(&mut aircraft, "A", "GDN", vec![]);
    add_aircraft(&mut aircraft, "B", "GDN", vec![]);

    add_flight(
        &mut flights,
        "FLIGHT_1",
        "GDN",
        "WAW",
        100,
        200,
        None,
        Unscheduled(Waiting),
    );

    let mut schedule = Schedule::new(aircraft, airports, flights);
    schedule.assign();

    assert_eq!(schedule.flights[0].aircraft_id, Some(id("A")));
}

#[test]
fn schedule_test_availability_disruption_without_location() {
    let mut aircraft = Fleet::new();
    let mut airports = AirportTable::new();
    let mut flights = Vec::new();

    add_airport(&mut airports, "KRK", 30, vec![]);
    add_airport(&mut airports, "WAW", 30, vec![]);

    add_aircraft(
        &mut aircraft,
        "PLANE_1",
        "KRK",
        vec![availability(150, 250, None)],
    );

    add_flight(
        &mut flights,
        "FLIGHT_1",
        "KRK",
        "WAW",
        100,
        200,
        None,
        Unscheduled(Waiting),
    );

    let mut schedule = Schedule::new(aircraft, airports, flights);
    schedule.assign();

    assert_eq!(schedule.flights[0].aircraft_id, None);
}

#[test]
fn schedule_test_availability_disruption_with_location() {
    let mut aircraft = Fleet::new();
    let mut airports = AirportTable::new();
    let mut flights = Vec::new();

    add_airport(&mut airports, "KRK", 30, vec![]);
    add_airport(&mut airports, "WAW", 30, vec![]);
    add_airport(&mut airports, "GDN", 30, vec![]);

    add_aircraft(
        &mut aircraft,
        "PLANE_1",
        "KRK",
        vec![availability(250, 300, Some(id("GDN")))],
    );

    add_flight(
        &mut flights,
        "FLIGHT_1",
        "KRK",
        "WAW",
        100,
        200,
        None,
        Unscheduled(Waiting),
    );
    add_flight(
        &mut flights,
        "FLIGHT_2",
        "WAW",
        "GDN",
        400,
        500,
        None,
        Unscheduled(Waiting),
    );

    let mut schedule = Schedule::new(aircraft, airports, flights);
    schedule.assign();

    assert_eq!(schedule.flights[0].aircraft_id, Some(id("PLANE_1")));
    assert_eq!(schedule.flights[1].aircraft_id, None);
}

#[test]
fn schedule_test_perfect_fit_mtt() {
    let mut aircraft = Fleet::new();
    let mut airports = AirportTable::new();
    let mut flights = Vec::new();

    add_airport(&mut airports, "KRK", 30, vec![]);
    add_airport(&mut airports, "WAW", 30, vec![]);
    add_airport(&mut airports, "GDN", 30, vec![]);

    add_aircraft(&mut aircraft, "PLANE_1", "KRK", vec![]);

    add_flight(
        &mut flights,
        "FLIGHT_1",
        "KRK",
        "WAW",
        100,
        200,
        None,
        Unscheduled(Waiting),
    );
    add_flight(
        &mut flights,
        "FLIGHT_2",
        "WAW",
        "GDN",
        230,
        300,
        None,
        Unscheduled(Waiting),
    );

    let mut schedule = Schedule::new(aircraft, airports, flights);
    schedule.assign();

    assert_eq!(schedule.flights[0].aircraft_id, Some(id("PLANE_1")));
    assert_eq!(schedule.flights[1].aircraft_id, Some(id("PLANE_1")));
}

#[test]
fn schedule_test_multiday_flight() {
    let mut aircraft = Fleet::new();
    let mut airports = AirportTable::new();
    let mut flights = Vec::new();

    add_airport(&mut airports, "KRK", 30, vec![]);
    add_airport(&mut airports, "WAW", 30, vec![]);
    add_airport(&mut airports, "GDN", 30, vec![]);

    add_aircraft(&mut aircraft, "PLANE_1", "KRK", vec![]);

    add_flight(
        &mut flights,
        "FLIGHT_1",
        "KRK",
        "WAW",
        1200,
        1500,
        None,
        Unscheduled(Waiting),
    );
    add_flight(
        &mut flights,
        "FLIGHT_1",
        "KRK",
        "GDN",
        1100,
        1800,
        None,
        Unscheduled(Waiting),
    );

    let mut schedule = Schedule::new(aircraft, airports, flights);
    schedule.assign();

    assert_eq!(schedule.flights[0].aircraft_id, Some(id("PLANE_1")));
    assert_eq!(schedule.flights[1].aircraft_id, None);
}

#[test]
fn schedule_test_delay_full_absorption() {
    let mut aircraft = Fleet::new();
    let mut airports = AirportTable::new();
    let mut flights = Vec::new();

    add_airport(&mut airports, "KRK", 30, vec![]);
    add_airport(&mut airports, "WAW", 30, vec![]);
    add_airport(&mut airports, "GDN", 30, vec![]);
    add_airport(&mut airports, "WRO", 30, vec![]);

    add_aircraft(&mut aircraft, "PLANE_1", "KRK", vec![]);
    add_aircraft(&mut aircraft, "PLANE_2", "WAW", vec![]);

    add_flight(
        &mut flights,
        "FLIGHT_1",
        "KRK",
        "WRO",
        1200,
        1500,
        None,
        Unscheduled(Waiting),
    );
    add_flight(
        &mut flights,
        "FLIGHT_2",
        "WRO",
        "WAW",
        1800,
        2000,
        None,
        Unscheduled(Waiting),
    );
    add_flight(
        &mut flights,
        "FLIGHT_3",
        "WAW",
        "GDN",
        2100,
        2350,
        None,
        Unscheduled(Waiting),
    );
    add_flight(
        &mut flights,
        "FLIGHT_4",
        "WAW",
        "GDN",
        2100,
        2300,
        None,
        Unscheduled(Waiting),
    );

    let mut schedule = Schedule::new(aircraft, airports, flights);
    schedule.assign();
    schedule.apply_delay(id("FLIGHT_1"), 500);

    assert_eq!(Time(1200) + 500, schedule.flights[0].departure_time);
    assert_eq!(Time(1500) + 500, schedule.flights[0].arrival_time);

    assert_eq!(Time(2000) + 30, schedule.flights[1].departure_time);
    assert_eq!(Time(2000) + 30 + 200, schedule.flights[1].arrival_time);

    assert_eq!(Time(2100), schedule.flights[2].departure_time);
    assert_eq!(Time(2300), schedule.flights[2].arrival_time);

    assert_eq!(Time(2230) + 30, schedule.flights[3].departure_time);
    assert_eq!(Time(2230) + 30 + 250, schedule.flights[3].arrival_time);
}

#[test]
fn schedule_test_delay_aircraft_first_flight_into_availability_disruption() {
    let mut aircraft = Fleet::new();
    let mut airports = AirportTable::new();
    let mut flights = Vec::new();

    add_airport(&mut airports, "KRK", 30, vec![]);
    add_airport(&mut airports, "WAW", 30, vec![]);
    add_airport(&mut airports, "GDN", 30, vec![]);
    add_airport(&mut airports, "WRO", 30, vec![]);

    add_aircraft(
        &mut aircraft,
        "PLANE_1",
        "KRK",
        vec![availability(1800, 1900, None)],
    );

    add_flight(
        &mut flights,
        "FLIGHT_1",
        "KRK",
        "WRO",
        1200,
        1500,
        Some("PLANE_1"),
        Scheduled,
    );
    add_flight(
        &mut flights,
        "FLIGHT_2",
        "WRO",
        "WAW",
        1800,
        2000,
        Some("PLANE_1"),
        Scheduled,
    );
    add_flight(
        &mut flights,
        "FLIGHT_3",
        "WAW",
        "GDN",
        2100,
        2350,
        Some("PLANE_1"),
        Scheduled,
    );

    let mut schedule = Schedule::new(aircraft, airports, flights);
    schedule.assign();
    let report = schedule
        .apply_delay(id("FLIGHT_1"), 500)
        .unscheduled
        .iter()
        .map(|(x, _)| x.clone())
        .collect::<Vec<FlightId>>();
    assert_eq!(vec![id("FLIGHT_1"), id("FLIGHT_2"), id("FLIGHT_3")], report);

    assert_eq!(Time(1700), schedule.flights[0].departure_time);
    assert_eq!(Time(2000), schedule.flights[0].arrival_time);
    assert_eq!(Unscheduled(AircraftMaintenance), schedule.flights[0].status);

    assert_eq!(Time(1800), schedule.flights[1].departure_time);
    assert_eq!(Time(2000), schedule.flights[1].arrival_time);
    assert_eq!(Unscheduled(BrokenChain), schedule.flights[1].status);

    assert_eq!(Time(2100), schedule.flights[2].departure_time);
    assert_eq!(Time(2350), schedule.flights[2].arrival_time);
    assert_eq!(Unscheduled(BrokenChain), schedule.flights[2].status);
}

#[test]
fn schedule_test_delay_aircraft_subsequent_flight_into_availability_disruption() {
    let mut aircraft = Fleet::new();
    let mut airports = AirportTable::new();
    let mut flights = Vec::new();

    add_airport(&mut airports, "KRK", 30, vec![]);
    add_airport(&mut airports, "WAW", 30, vec![]);
    add_airport(&mut airports, "GDN", 30, vec![]);
    add_airport(&mut airports, "WRO", 30, vec![]);

    add_aircraft(
        &mut aircraft,
        "PLANE_1",
        "KRK",
        vec![availability(2100, 2200, None)],
    );

    add_flight(
        &mut flights,
        "FLIGHT_1",
        "KRK",
        "WRO",
        1200,
        1500,
        Some("PLANE_1"),
        Scheduled,
    );
    add_flight(
        &mut flights,
        "FLIGHT_2",
        "WRO",
        "WAW",
        1800,
        2000,
        Some("PLANE_1"),
        Scheduled,
    );
    add_flight(
        &mut flights,
        "FLIGHT_3",
        "WAW",
        "GDN",
        2100,
        2350,
        Some("PLANE_1"),
        Scheduled,
    );

    let mut schedule = Schedule::new(aircraft, airports, flights);
    schedule.assign();
    let report = schedule
        .apply_delay(id("FLIGHT_1"), 500)
        .unscheduled
        .iter()
        .map(|(x, _)| x.clone())
        .collect::<Vec<FlightId>>();
    assert_eq!(vec![id("FLIGHT_2"), id("FLIGHT_3")], report);

    assert_eq!(Time(1200) + 500, schedule.flights[0].departure_time);
    assert_eq!(Time(1500) + 500, schedule.flights[0].arrival_time);
    assert_eq!(Delayed { minutes: 500 }, schedule.flights[0].status);

    assert_eq!(Time(1800), schedule.flights[1].departure_time);
    assert_eq!(Time(2000), schedule.flights[1].arrival_time);
    assert_eq!(Unscheduled(AircraftMaintenance), schedule.flights[1].status);

    assert_eq!(Time(2100), schedule.flights[2].departure_time);
    assert_eq!(Time(2350), schedule.flights[2].arrival_time);
    assert_eq!(Unscheduled(BrokenChain), schedule.flights[2].status);
}

#[test]
fn schedule_test_delay_aircraft_first_flight_into_curfew() {
    let mut aircraft = Fleet::new();
    let mut airports = AirportTable::new();
    let mut flights = Vec::new();

    add_airport(&mut airports, "KRK", 30, vec![]);
    add_airport(&mut airports, "WAW", 30, vec![]);
    add_airport(&mut airports, "GDN", 30, vec![]);
    add_airport(&mut airports, "WRO", 30, vec![]);
    airports.add_curfew(&id("WRO"), curfew(1600, 1700));

    add_aircraft(&mut aircraft, "PLANE_1", "KRK", vec![]);

    add_flight(
        &mut flights,
        "FLIGHT_1",
        "KRK",
        "WRO",
        1200,
        1500,
        Some("PLANE_1"),
        Scheduled,
    );
    add_flight(
        &mut flights,
        "FLIGHT_2",
        "WRO",
        "WAW",
        1800,
        2000,
        Some("PLANE_1"),
        Scheduled,
    );
    add_flight(
        &mut flights,
        "FLIGHT_3",
        "WAW",
        "GDN",
        2100,
        2350,
        Some("PLANE_1"),
        Scheduled,
    );

    let mut schedule = Schedule::new(aircraft, airports, flights);
    schedule.assign();
    let report = schedule
        .apply_delay(id("FLIGHT_1"), 150)
        .unscheduled
        .iter()
        .map(|(x, _)| x.clone())
        .collect::<Vec<FlightId>>();
    assert_eq!(vec![id("FLIGHT_1"), id("FLIGHT_2"), id("FLIGHT_3")], report);

    assert_eq!(Time(1350), schedule.flights[0].departure_time);
    assert_eq!(Time(1650), schedule.flights[0].arrival_time);
    assert_eq!(Unscheduled(AirportCurfew), schedule.flights[0].status);

    assert_eq!(Time(1800), schedule.flights[1].departure_time);
    assert_eq!(Time(2000), schedule.flights[1].arrival_time);
    assert_eq!(Unscheduled(BrokenChain), schedule.flights[1].status);

    assert_eq!(Time(2100), schedule.flights[2].departure_time);
    assert_eq!(Time(2350), schedule.flights[2].arrival_time);
    assert_eq!(Unscheduled(BrokenChain), schedule.flights[2].status);
}

#[test]
fn schedule_test_delay_aircraft_subsequent_flight_into_curfew() {
    let mut aircraft = Fleet::new();
    let mut airports = AirportTable::new();
    let mut flights = Vec::new();

    add_airport(&mut airports, "KRK", 30, vec![]);
    add_airport(&mut airports, "WAW", 30, vec![]);
    add_airport(&mut airports, "GDN", 30, vec![]);
    add_airport(&mut airports, "WRO", 30, vec![]);
    airports.add_curfew(&id("WRO"), curfew(2010, 2100));

    add_aircraft(&mut aircraft, "PLANE_1", "KRK", vec![]);

    add_flight(
        &mut flights,
        "FLIGHT_1",
        "KRK",
        "WRO",
        1200,
        1500,
        Some("PLANE_1"),
        Scheduled,
    );
    add_flight(
        &mut flights,
        "FLIGHT_2",
        "WRO",
        "WAW",
        1800,
        2000,
        Some("PLANE_1"),
        Scheduled,
    );
    add_flight(
        &mut flights,
        "FLIGHT_3",
        "WAW",
        "GDN",
        2100,
        2350,
        Some("PLANE_1"),
        Scheduled,
    );

    let mut schedule = Schedule::new(aircraft, airports, flights);
    schedule.assign();
    let report = schedule
        .apply_delay(id("FLIGHT_1"), 500)
        .unscheduled
        .iter()
        .map(|(x, _)| x.clone())
        .collect::<Vec<FlightId>>();
    assert_eq!(vec![id("FLIGHT_2"), id("FLIGHT_3")], report);

    assert_eq!(Time(1200) + 500, schedule.flights[0].departure_time);
    assert_eq!(Time(1500) + 500, schedule.flights[0].arrival_time);
    assert_eq!(Delayed { minutes: 500 }, schedule.flights[0].status);

    assert_eq!(Time(1800), schedule.flights[1].departure_time);
    assert_eq!(Time(2000), schedule.flights[1].arrival_time);
    assert_eq!(Unscheduled(AirportCurfew), schedule.flights[1].status);

    assert_eq!(Time(2100), schedule.flights[2].departure_time);
    assert_eq!(Time(2350), schedule.flights[2].arrival_time);
    assert_eq!(Unscheduled(BrokenChain), schedule.flights[2].status);
}

#[test]
fn schedule_test_delay_aircraft_first_flight_into_max_delay() {
    let mut aircraft = Fleet::new();
    let mut airports = AirportTable::new();
    let mut flights = Vec::new();

    add_airport(&mut airports, "KRK", 30, vec![]);
    add_airport(&mut airports, "WAW", 30, vec![]);
    add_airport(&mut airports, "GDN", 30, vec![]);
    add_airport(&mut airports, "WRO", 30, vec![]);

    add_aircraft(&mut aircraft, "PLANE_1", "KRK", vec![]);

    add_flight(
        &mut flights,
        "FLIGHT_1",
        "KRK",
        "WRO",
        1200,
        1500,
        Some("PLANE_1"),
        Scheduled,
    );
    add_flight(
        &mut flights,
        "FLIGHT_2",
        "WRO",
        "WAW",
        1800,
        2000,
        Some("PLANE_1"),
        Scheduled,
    );
    add_flight(
        &mut flights,
        "FLIGHT_3",
        "WAW",
        "GDN",
        2100,
        2350,
        Some("PLANE_1"),
        Scheduled,
    );

    let mut schedule = Schedule::new(aircraft, airports, flights);
    schedule.assign();
    let report = schedule
        .apply_delay(id("FLIGHT_1"), 2050)
        .unscheduled
        .iter()
        .map(|(x, _)| x.clone())
        .collect::<Vec<FlightId>>();
    assert_eq!(vec![id("FLIGHT_1"), id("FLIGHT_2"), id("FLIGHT_3")], report);

    assert_eq!(Time(1200), schedule.flights[0].departure_time);
    assert_eq!(Time(1500), schedule.flights[0].arrival_time);
    assert_eq!(Unscheduled(MaxDelayExceeded), schedule.flights[0].status);

    assert_eq!(Time(1800), schedule.flights[1].departure_time);
    assert_eq!(Time(2000), schedule.flights[1].arrival_time);
    assert_eq!(Unscheduled(BrokenChain), schedule.flights[1].status);

    assert_eq!(Time(2100), schedule.flights[2].departure_time);
    assert_eq!(Time(2350), schedule.flights[2].arrival_time);
    assert_eq!(Unscheduled(BrokenChain), schedule.flights[2].status);
}

#[test]
fn schedule_test_delay_aircraft_subsequent_flight_into_max_delay() {
    let mut aircraft = Fleet::new();
    let mut airports = AirportTable::new();
    let mut flights = Vec::new();

    add_airport(&mut airports, "KRK", 30, vec![]);
    add_airport(&mut airports, "WAW", 30, vec![]);
    add_airport(&mut airports, "GDN", 30, vec![]);
    add_airport(&mut airports, "WRO", 30, vec![]);

    add_aircraft(&mut aircraft, "PLANE_1", "KRK", vec![]);

    add_flight(
        &mut flights,
        "FLIGHT_1",
        "KRK",
        "WRO",
        200,
        300,
        Some("PLANE_1"),
        Scheduled,
    );
    add_flight(
        &mut flights,
        "FLIGHT_2",
        "WRO",
        "WAW",
        305,
        500,
        Some("PLANE_1"),
        Scheduled,
    );
    add_flight(
        &mut flights,
        "FLIGHT_3",
        "WAW",
        "GDN",
        600,
        700,
        Some("PLANE_1"),
        Scheduled,
    );

    let mut schedule = Schedule::new(aircraft, airports, flights);
    schedule.assign();
    let report = schedule.apply_delay(id("FLIGHT_1"), 1999);
    let broken = report
        .unscheduled
        .iter()
        .map(|(x, _)| x.clone())
        .collect::<Vec<FlightId>>();
    assert_eq!(vec![id("FLIGHT_2"), id("FLIGHT_3")], broken);
    assert_eq!(vec![id("FLIGHT_1")], report.affected);

    assert_eq!(Time(305), schedule.flights[0].departure_time);
    assert_eq!(Time(500), schedule.flights[0].arrival_time);
    assert_eq!(Unscheduled(MaxDelayExceeded), schedule.flights[0].status);

    assert_eq!(Time(600), schedule.flights[1].departure_time);
    assert_eq!(Time(700), schedule.flights[1].arrival_time);
    assert_eq!(Unscheduled(BrokenChain), schedule.flights[1].status);

    assert_eq!(Time(200) + 1999, schedule.flights[2].departure_time);
    assert_eq!(Time(300) + 1999, schedule.flights[2].arrival_time);
    assert_eq!(Delayed { minutes: 1999 }, schedule.flights[2].status);
}

#[test]
fn schedule_test_delay_aircraft_no_shift() {
    let mut aircraft = Fleet::new();
    let mut airports = AirportTable::new();
    let mut flights = Vec::new();

    add_airport(&mut airports, "KRK", 30, vec![]);
    add_airport(&mut airports, "WAW", 30, vec![]);
    add_airport(&mut airports, "GDN", 30, vec![]);
    add_airport(&mut airports, "WRO", 30, vec![]);

    add_aircraft(&mut aircraft, "PLANE_1", "KRK", vec![]);

    add_flight(
        &mut flights,
        "FLIGHT_1",
        "KRK",
        "WRO",
        1200,
        1500,
        Some("PLANE_1"),
        Scheduled,
    );
    add_flight(
        &mut flights,
        "FLIGHT_2",
        "WRO",
        "WAW",
        1800,
        2000,
        Some("PLANE_1"),
        Scheduled,
    );
    add_flight(
        &mut flights,
        "FLIGHT_3",
        "WAW",
        "GDN",
        2100,
        2350,
        Some("PLANE_1"),
        Scheduled,
    );

    let mut schedule = Schedule::new(aircraft, airports, flights);
    schedule.assign();
    let report = schedule.apply_delay(id("FLIGHT_1"), 100);
    assert!(report.unscheduled.is_empty());
    assert_eq!(vec![id("FLIGHT_1")], report.affected);

    assert_eq!(Time(1300), schedule.flights[0].departure_time);
    assert_eq!(Time(1600), schedule.flights[0].arrival_time);
    assert_eq!(Delayed { minutes: 100 }, schedule.flights[0].status);

    assert_eq!(Time(1800), schedule.flights[1].departure_time);
    assert_eq!(Time(2000), schedule.flights[1].arrival_time);
    assert_eq!(Scheduled, schedule.flights[1].status);

    assert_eq!(Time(2100), schedule.flights[2].departure_time);
    assert_eq!(Time(2350), schedule.flights[2].arrival_time);
    assert_eq!(Scheduled, schedule.flights[2].status);
}

#[test]
fn schedule_test_delay_aircraft_first_flight_by_overlap() {
    let mut aircraft = Fleet::new();
    let mut airports = AirportTable::new();
    let mut flights = Vec::new();

    add_airport(&mut airports, "KRK", 30, vec![]);
    add_airport(&mut airports, "WAW", 30, vec![]);
    add_airport(&mut airports, "GDN", 30, vec![]);
    add_airport(&mut airports, "WRO", 30, vec![]);

    add_aircraft(&mut aircraft, "PLANE_1", "KRK", vec![]);

    add_flight(
        &mut flights,
        "FLIGHT_1",
        "KRK",
        "WRO",
        1200,
        1500,
        Some("PLANE_1"),
        Scheduled,
    );
    add_flight(
        &mut flights,
        "FLIGHT_2",
        "WRO",
        "WAW",
        1800,
        2000,
        Some("PLANE_1"),
        Scheduled,
    );
    add_flight(
        &mut flights,
        "FLIGHT_3",
        "WAW",
        "GDN",
        2100,
        2350,
        Some("PLANE_1"),
        Scheduled,
    );

    let mut schedule = Schedule::new(aircraft, airports, flights);
    schedule.assign();
    let report = schedule.apply_delay(id("FLIGHT_1"), 500);
    assert!(report.unscheduled.is_empty());
    assert_eq!(
        vec![id("FLIGHT_1"), id("FLIGHT_2"), id("FLIGHT_3")],
        report.affected
    );

    assert_eq!(Time(1700), schedule.flights[0].departure_time);
    assert_eq!(Time(2000), schedule.flights[0].arrival_time);
    assert_eq!(Delayed { minutes: 500 }, schedule.flights[0].status);

    assert_eq!(Time(2030), schedule.flights[1].departure_time);
    assert_eq!(Time(2230), schedule.flights[1].arrival_time);
    assert_eq!(Delayed { minutes: 230 }, schedule.flights[1].status);

    assert_eq!(Time(2260), schedule.flights[2].departure_time);
    assert_eq!(Time(2510), schedule.flights[2].arrival_time);
    assert_eq!(Delayed { minutes: 160 }, schedule.flights[2].status);
}

#[test]
fn schedule_test_delay_aircraft_first_flight_by_leapfrog() {
    let mut aircraft = Fleet::new();
    let mut airports = AirportTable::new();
    let mut flights = Vec::new();

    add_airport(&mut airports, "KRK", 30, vec![]);
    add_airport(&mut airports, "WAW", 30, vec![]);
    add_airport(&mut airports, "GDN", 30, vec![]);
    add_airport(&mut airports, "WRO", 30, vec![]);

    add_aircraft(&mut aircraft, "PLANE_1", "KRK", vec![]);

    add_flight(
        &mut flights,
        "FLIGHT_1",
        "KRK",
        "WRO",
        1200,
        1500,
        Some("PLANE_1"),
        Scheduled,
    );
    add_flight(
        &mut flights,
        "FLIGHT_2",
        "WRO",
        "WAW",
        1800,
        2000,
        Some("PLANE_1"),
        Scheduled,
    );
    add_flight(
        &mut flights,
        "FLIGHT_3",
        "WAW",
        "GDN",
        2100,
        2350,
        Some("PLANE_1"),
        Scheduled,
    );

    let mut schedule = Schedule::new(aircraft, airports, flights);
    schedule.assign();
    let report = schedule.apply_delay(id("FLIGHT_1"), 1000);
    assert!(report.unscheduled.is_empty());
    assert_eq!(
        vec![id("FLIGHT_1"), id("FLIGHT_2"), id("FLIGHT_3")],
        report.affected
    );

    assert_eq!(Time(2200), schedule.flights[0].departure_time);
    assert_eq!(Time(2500), schedule.flights[0].arrival_time);
    assert_eq!(Delayed { minutes: 1000 }, schedule.flights[0].status);

    assert_eq!(Time(2530), schedule.flights[1].departure_time);
    assert_eq!(Time(2730), schedule.flights[1].arrival_time);
    assert_eq!(Delayed { minutes: 730 }, schedule.flights[1].status);

    assert_eq!(Time(2760), schedule.flights[2].departure_time);
    assert_eq!(Time(3010), schedule.flights[2].arrival_time);
    assert_eq!(Delayed { minutes: 660 }, schedule.flights[2].status);
}

#[test]
fn schedule_test_delay_into_spatial_disruption() {
    let mut aircraft = Fleet::new();
    let mut airports = AirportTable::new();
    let mut flights = Vec::new();

    add_airport(&mut airports, "KRK", 30, vec![]);
    add_airport(&mut airports, "WAW", 30, vec![]);
    add_airport(&mut airports, "GDN", 30, vec![]);
    add_airport(&mut airports, "WRO", 30, vec![]);

    add_aircraft(
        &mut aircraft,
        "PLANE_1",
        "KRK",
        vec![availability(1600, 1650, Some(id("KRK")))],
    );

    add_flight(
        &mut flights,
        "FLIGHT_1",
        "KRK",
        "WRO",
        1200,
        1500,
        Some("PLANE_1"),
        Scheduled,
    );
    add_flight(
        &mut flights,
        "FLIGHT_2",
        "WRO",
        "WAW",
        1800,
        2000,
        Some("PLANE_1"),
        Scheduled,
    );

    let mut schedule = Schedule::new(aircraft, airports, flights);
    let report = schedule.apply_delay(id("FLIGHT_1"), 50);
    let broken = report
        .unscheduled
        .iter()
        .map(|(x, _)| x.clone())
        .collect::<Vec<FlightId>>();
    assert_eq!(vec![id("FLIGHT_2")], broken);
    assert_eq!(vec![id("FLIGHT_1")], report.affected);

    assert_eq!(Time(1250), schedule.flights[0].departure_time);
    assert_eq!(Time(1550), schedule.flights[0].arrival_time);
    assert_eq!(Delayed { minutes: 50 }, schedule.flights[0].status);

    assert_eq!(Time(1800), schedule.flights[1].departure_time);
    assert_eq!(Time(2000), schedule.flights[1].arrival_time);
    assert_eq!(Unscheduled(AircraftMaintenance), schedule.flights[1].status);
}

#[test]
fn schedule_test_delay_into_valid_base_maintenance() {
    let mut aircraft = Fleet::new();
    let mut airports = AirportTable::new();
    let mut flights = Vec::new();

    add_airport(&mut airports, "KRK", 30, vec![]);
    add_airport(&mut airports, "WAW", 30, vec![]);
    add_airport(&mut airports, "GDN", 30, vec![]);
    add_airport(&mut airports, "WRO", 30, vec![]);

    add_aircraft(
        &mut aircraft,
        "PLANE_1",
        "KRK",
        vec![availability(1600, 1650, Some(id("WRO")))],
    );

    add_flight(
        &mut flights,
        "FLIGHT_1",
        "KRK",
        "WRO",
        1200,
        1500,
        Some("PLANE_1"),
        Scheduled,
    );
    add_flight(
        &mut flights,
        "FLIGHT_2",
        "WRO",
        "WAW",
        1800,
        2000,
        Some("PLANE_1"),
        Scheduled,
    );

    let mut schedule = Schedule::new(aircraft, airports, flights);
    let report = schedule.apply_delay(id("FLIGHT_1"), 50);
    assert!(report.unscheduled.is_empty());
    assert_eq!(vec![id("FLIGHT_1")], report.affected);

    assert_eq!(Time(1250), schedule.flights[0].departure_time);
    assert_eq!(Time(1550), schedule.flights[0].arrival_time);
    assert_eq!(Delayed { minutes: 50 }, schedule.flights[0].status);

    assert_eq!(Time(1800), schedule.flights[1].departure_time);
    assert_eq!(Time(2000), schedule.flights[1].arrival_time);
    assert_eq!(Scheduled, schedule.flights[1].status);
}

#[test]
fn schedule_test_recovery_after_disruption() {
    let mut aircraft = Fleet::new();
    let mut airports = AirportTable::new();
    let mut flights = Vec::new();

    add_airport(&mut airports, "KRK", 30, vec![]);
    add_airport(&mut airports, "WAW", 30, vec![]);
    add_airport(&mut airports, "WRO", 30, vec![]);

    add_aircraft(
        &mut aircraft,
        "PLANE_1",
        "KRK",
        vec![availability(600, 800, None)],
    );
    add_aircraft(&mut aircraft, "PLANE_2", "KRK", vec![]);

    add_flight(
        &mut flights,
        "FLIGHT_1",
        "KRK",
        "WRO",
        200,
        500,
        Some("PLANE_1"),
        Scheduled,
    );
    add_flight(
        &mut flights,
        "FLIGHT_2",
        "KRK",
        "WAW",
        1800,
        2000,
        Some("PLANE_1"),
        Scheduled,
    );

    let mut schedule = Schedule::new(aircraft, airports, flights);
    schedule.assign();
    schedule.apply_delay(id("FLIGHT_1"), 400);

    assert_eq!(None, schedule.flights[0].aircraft_id);
    assert_eq!(Time(200) + 400, schedule.flights[0].departure_time);
    assert_eq!(Time(500) + 400, schedule.flights[0].arrival_time);
    assert_eq!(Unscheduled(AircraftMaintenance), schedule.flights[0].status);

    assert_eq!(None, schedule.flights[1].aircraft_id);
    assert_eq!(Time(1800), schedule.flights[1].departure_time);
    assert_eq!(Time(2000), schedule.flights[1].arrival_time);
    assert_eq!(Unscheduled(BrokenChain), schedule.flights[1].status);

    schedule.assign();

    assert_eq!(Some(id("PLANE_2")), schedule.flights[0].aircraft_id);
    assert_eq!(Time(200) + 400, schedule.flights[0].departure_time);
    assert_eq!(Time(500) + 400, schedule.flights[0].arrival_time);
    assert_eq!(Scheduled, schedule.flights[0].status);

    assert_eq!(Some(id("PLANE_1")), schedule.flights[1].aircraft_id);
    assert_eq!(Time(1800), schedule.flights[1].departure_time);
    assert_eq!(Time(2000), schedule.flights[1].arrival_time);
    assert_eq!(Scheduled, schedule.flights[1].status);
}

#[test]
fn schedule_test_curfew_chain_reaction() {
    let mut aircraft = Fleet::new();
    let mut airports = AirportTable::new();
    let mut flights = Vec::new();

    add_airport(&mut airports, "KRK", 30, vec![]);
    add_airport(&mut airports, "WAW", 30, vec![]);
    add_airport(&mut airports, "WRO", 30, vec![]);

    add_aircraft(&mut aircraft, "PLANE_1", "KRK", vec![]);

    add_flight(
        &mut flights,
        "FLIGHT_1",
        "KRK",
        "WRO",
        200,
        300,
        Some("PLANE_1"),
        Scheduled,
    );
    add_flight(
        &mut flights,
        "FLIGHT_2",
        "WRO",
        "WAW",
        400,
        500,
        Some("PLANE_1"),
        Scheduled,
    );
    add_flight(
        &mut flights,
        "FLIGHT_3",
        "WAW",
        "KRK",
        600,
        700,
        Some("PLANE_1"),
        Scheduled,
    );

    let mut schedule = Schedule::new(aircraft, airports, flights);
    schedule.apply_curfew(id("WAW"), Time(450), Time(550));

    assert_eq!(Some(id("PLANE_1")), schedule.flights[0].aircraft_id);
    assert_eq!(Time(200), schedule.flights[0].departure_time);
    assert_eq!(Time(300), schedule.flights[0].arrival_time);
    assert_eq!(Scheduled, schedule.flights[0].status);

    assert_eq!(None, schedule.flights[1].aircraft_id);
    assert_eq!(Time(400), schedule.flights[1].departure_time);
    assert_eq!(Time(500), schedule.flights[1].arrival_time);
    assert_eq!(Unscheduled(AirportCurfew), schedule.flights[1].status);

    assert_eq!(None, schedule.flights[2].aircraft_id);
    assert_eq!(Time(600), schedule.flights[2].departure_time);
    assert_eq!(Time(700), schedule.flights[2].arrival_time);
    assert_eq!(Unscheduled(BrokenChain), schedule.flights[2].status);

    schedule.assign();
    assert_eq!(Scheduled, schedule.flights[0].status);
    assert_eq!(Unscheduled(AirportCurfew), schedule.flights[1].status);
    assert_eq!(Unscheduled(BrokenChain), schedule.flights[2].status);
}
