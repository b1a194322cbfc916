use airline_tower::aircraft::{Aircraft, Availability, Fleet};
use airline_tower::airport::{format_disruptions, Airport, AirportTable, Curfew};
use airline_tower::flight::{display_option, Flight, FlightStatus, UnscheduledReason};
use airline_tower::ident::{names, same_id, sorts_before};
use airline_tower::schedule::order::sort_by_departure;
use airline_tower::schedule::rules::{
    compute_shifted_times, get_ready_time, is_airport_closed, is_at_wrong_airport, violates_aircraft_maintenance,
};
use airline_tower::schedule::{locate_flight, Schedule};
use airline_tower::text::{push_decimal, push_digit, push_two_digits};
use airline_tower::time::Time;

fn id(s: &str) -> String {
    s.to_string()
}

fn flight(flight_id: &str, origin: &str, destination: &str, departure: u64, arrival: u64) -> Flight {
    Flight {
        id: id(flight_id),
        aircraft_id: None,
        origin_id: id(origin),
        destination_id: id(destination),
        departure_time: Time(departure),
        arrival_time: Time(arrival),
        status: FlightStatus::Unscheduled(UnscheduledReason::Waiting),
    }
}

fn airport(airport_id: &str, mtt: u64, disruptions: Vec<Curfew>) -> Airport {
    Airport { id: id(airport_id), mtt, disruptions }
}

fn window(from: u64, to: u64, location: Option<&str>) -> Availability {
    Availability { from: Time(from), to: Time(to), location_id: location.map(id) }
}

#[test]
fn overlap_needs_a_shared_interior() {
    let w = (Time(100), Time(200));
    assert!(Time::is_overlapping(&w, &(Time(199), Time(300))));
    assert!(Time::is_overlapping(&w, &(Time(0), Time(101))));
    assert!(Time::is_overlapping(&w, &(Time(120), Time(130))));
    assert!(Time::is_overlapping(&(Time(120), Time(130)), &w));
    assert!(!Time::is_overlapping(&w, &(Time(200), Time(300))));
    assert!(!Time::is_overlapping(&w, &(Time(0), Time(100))));
    assert!(!Time::is_overlapping(&w, &(Time(300), Time(400))));
}

#[test]
fn empty_windows_on_a_boundary_do_not_overlap() {
    assert!(!Time::is_overlapping(&(Time(100), Time(100)), &(Time(100), Time(200))));
    assert!(!Time::is_overlapping(&(Time(200), Time(200)), &(Time(100), Time(200))));
    assert!(Time::is_overlapping(&(Time(150), Time(150)), &(Time(100), Time(200))));
    assert!(!Time::is_overlapping(&(Time(150), Time(150)), &(Time(150), Time(150))));
}

#[test]
fn time_arithmetic() {
    assert_eq!(Time(600), Time(200) + 400);
    assert_eq!(Time(600), Time(200) + Time(400));
    assert_eq!(Time(150), Time(200) - 50);
    assert_eq!(Time(150), Time(200) - Time(50));
    assert_eq!(Time(2), Time(3000) / Time(1440));
    let mut t = Time(10);
    t.advance(5);
    assert_eq!(Time(15), t);
    assert_eq!(15, t.to_minutes());
}

#[test]
fn time_splits_into_day_hour_minute() {
    assert_eq!((1, 0, 0), (Time(0).day(), Time(0).hour(), Time(0).minute()));
    assert_eq!((1, 23, 59), (Time(1439).day(), Time(1439).hour(), Time(1439).minute()));
    assert_eq!((2, 0, 0), (Time(1440).day(), Time(1440).hour(), Time(1440).minute()));
    assert_eq!((3, 2, 5), (Time(3005).day(), Time(3005).hour(), Time(3005).minute()));
}

#[test]
fn time_as_text() {
    assert_eq!("DAY1 00:00", Time(0).to_string());
    assert_eq!("DAY1 08:05", Time(485).to_string());
    assert_eq!("DAY1 23:59", Time(1439).to_string());
    assert_eq!("DAY2 00:00", Time(1440).to_string());
    assert_eq!("DAY3 02:05", Time(3005).to_string());
    assert_eq!("DAY12 10:30", Time(11 * 1440 + 630).to_string());
    assert_eq!("DAY12810238940076078 12:15", Time(u64::MAX).to_string());
}

#[test]
fn numbers_as_text() {
    let mut out = String::new();
    push_decimal(&mut out, 0);
    out.push(' ');
    push_decimal(&mut out, 7);
    out.push(' ');
    push_decimal(&mut out, 10);
    out.push(' ');
    push_decimal(&mut out, 2000);
    out.push(' ');
    push_decimal(&mut out, u64::MAX);
    out.push(' ');
    push_two_digits(&mut out, 0);
    out.push(' ');
    push_two_digits(&mut out, 9);
    out.push(' ');
    push_two_digits(&mut out, 59);
    out.push(' ');
    push_two_digits(&mut out, 123);
    out.push(' ');
    push_digit(&mut out, 4);
    assert_eq!("0 7 10 2000 18446744073709551615 00 09 59 123 4", out);
}

#[test]
fn status_label() {
    assert_eq!("Scheduled", FlightStatus::Scheduled.label());
    assert_eq!("Unscheduled", FlightStatus::Unscheduled(UnscheduledReason::BrokenChain).label());
    assert_eq!("Unscheduled", FlightStatus::Unscheduled(UnscheduledReason::Waiting).label());
    assert_eq!("Delayed (+45m)", FlightStatus::Delayed { minutes: 45 }.label());
    assert_eq!("Delayed (+2000m)", FlightStatus::Delayed { minutes: 2000 }.label());
    assert_eq!("Delayed (+0m)", FlightStatus::Delayed { minutes: 0 }.label());
}

#[test]
fn status_in_and_out_of_colour() {
    colored::control::set_override(true);
    assert_eq!("\x1B[32mScheduled\x1B[0m", FlightStatus::Scheduled.to_string());
    assert_eq!("\x1B[33mDelayed (+45m)\x1B[0m", FlightStatus::Delayed { minutes: 45 }.to_string());
    assert_eq!(
        "\x1B[31mUnscheduled\x1B[0m",
        FlightStatus::Unscheduled(UnscheduledReason::AirportCurfew).to_string()
    );
    colored::control::set_override(false);
    assert_eq!("Scheduled", FlightStatus::Scheduled.to_string());
    assert_eq!("Delayed (+45m)", FlightStatus::Delayed { minutes: 45 }.to_string());
    assert_eq!("Unscheduled", FlightStatus::Unscheduled(UnscheduledReason::AirportCurfew).to_string());
}

#[test]
fn status_knows_whether_it_is_unscheduled() {
    assert!(FlightStatus::Unscheduled(UnscheduledReason::Waiting).is_unscheduled());
    assert!(FlightStatus::Unscheduled(UnscheduledReason::AirportCurfew).is_unscheduled());
    assert!(!FlightStatus::Scheduled.is_unscheduled());
    assert!(!FlightStatus::Delayed { minutes: 1 }.is_unscheduled());
}

#[test]
fn curfews_as_text() {
    assert_eq!("None", format_disruptions(&vec![]));
    assert_eq!(
        "DAY1 00:10-DAY1 01:00",
        format_disruptions(&vec![Curfew { from: Time(10), to: Time(60) }])
    );
    assert_eq!(
        "DAY1 00:10-DAY1 01:00, DAY2 00:00-DAY2 12:00, DAY1 00:00-DAY1 00:00",
        format_disruptions(&vec![
            Curfew { from: Time(10), to: Time(60) },
            Curfew { from: Time(1440), to: Time(2160) },
            Curfew { from: Time(0), to: Time(0) },
        ])
    );
}

#[test]
fn aircraft_slot_as_text() {
    assert_eq!("PLANE_1", display_option(&Some(id("PLANE_1"))));
    assert_eq!("---", display_option(&None));
    assert_eq!("KRK", airport("KRK", 30, vec![]).to_string());
}

#[test]
fn identifiers_sort_as_strings_do() {
    let samples = ["", "A", "AA", "AB", "B", "PLANE_1", "PLANE_10", "PLANE_2", "a", "plane", "é", "zz", "日本"];
    for a in samples.iter() {
        for b in samples.iter() {
            assert_eq!(a < b, sorts_before(&id(a), &id(b)), "{:?} before {:?}", a, b);
            assert_eq!(a == b, same_id(&id(a), &id(b)));
        }
    }
    assert!(names(&Some(id("KRK")), &id("KRK")));
    assert!(!names(&Some(id("KRK")), &id("WAW")));
    assert!(!names(&None, &id("KRK")));
}

#[test]
fn fleet_keeps_aircraft_in_order_of_identifier() {
    let mut fleet = Fleet::new();
    assert_eq!(0, fleet.len());
    for name in ["PLANE_3", "PLANE_1", "PLANE_2", "PLANE_10"] {
        fleet.insert(Aircraft { id: id(name), initial_location_id: id("KRK"), disruptions: vec![] });
    }
    assert_eq!(4, fleet.len());
    assert_eq!("PLANE_1", fleet.at(0).id);
    assert_eq!("PLANE_10", fleet.at(1).id);
    assert_eq!("PLANE_2", fleet.at(2).id);
    assert_eq!("PLANE_3", fleet.at(3).id);
    assert_eq!(Some(2), fleet.index_of(&id("PLANE_2")));
    assert_eq!(None, fleet.index_of(&id("PLANE_4")));
    assert!(fleet.get(&id("PLANE_0")).is_none());
}

#[test]
fn fleet_replaces_an_aircraft_with_the_same_identifier() {
    let mut fleet = Fleet::new();
    fleet.insert(Aircraft { id: id("PLANE_1"), initial_location_id: id("KRK"), disruptions: vec![] });
    fleet.insert(Aircraft { id: id("PLANE_2"), initial_location_id: id("GDN"), disruptions: vec![] });
    fleet.insert(Aircraft {
        id: id("PLANE_1"),
        initial_location_id: id("WAW"),
        disruptions: vec![window(1, 2, None)],
    });
    assert_eq!(2, fleet.len());
    let plane = fleet.get(&id("PLANE_1")).unwrap();
    assert_eq!("WAW", plane.initial_location_id);
    assert_eq!(1, plane.disruptions.len());
    assert_eq!("GDN", fleet.get(&id("PLANE_2")).unwrap().initial_location_id);
}

#[test]
fn airport_table_answers_for_known_and_unknown_airports() {
    let mut airports = AirportTable::new();
    airports.insert(airport("WAW", 45, vec![Curfew { from: Time(100), to: Time(200) }]));
    airports.insert(airport("KRK", 30, vec![]));
    airports.insert(airport("WAW", 50, vec![Curfew { from: Time(100), to: Time(200) }]));
    assert_eq!(2, airports.len());
    assert_eq!("KRK", airports.at(0).id);
    assert_eq!(30, airports.turnaround(&id("KRK")));
    assert_eq!(50, airports.turnaround(&id("WAW")));
    assert_eq!(0, airports.turnaround(&id("GDN")));
    assert!(airports.is_closed_at(&id("WAW"), 100));
    assert!(airports.is_closed_at(&id("WAW"), 150));
    assert!(airports.is_closed_at(&id("WAW"), 200));
    assert!(!airports.is_closed_at(&id("WAW"), 99));
    assert!(!airports.is_closed_at(&id("WAW"), 201));
    assert!(!airports.is_closed_at(&id("KRK"), 150));
    assert!(!airports.is_closed_at(&id("GDN"), 150));
    assert!(airports.add_curfew(&id("KRK"), Curfew { from: Time(5), to: Time(6) }));
    assert!(!airports.add_curfew(&id("GDN"), Curfew { from: Time(5), to: Time(6) }));
    assert!(airports.is_closed_at(&id("KRK"), 5));
    assert_eq!(1, airports.get(&id("KRK")).unwrap().disruptions.len());
    assert_eq!(Some(1), airports.index_of(&id("WAW")));
}

#[test]
fn maintenance_blocks_an_overlapping_window() {
    let windows = vec![window(150, 250, None), window(1000, 1100, Some("KRK"))];
    assert!(violates_aircraft_maintenance(&windows, 100, 200));
    assert!(violates_aircraft_maintenance(&windows, 200, 300));
    assert!(violates_aircraft_maintenance(&windows, 1050, 1060));
    assert!(!violates_aircraft_maintenance(&windows, 100, 150));
    assert!(!violates_aircraft_maintenance(&windows, 250, 1000));
    assert!(!violates_aircraft_maintenance(&vec![], 0, u128::MAX));
}

#[test]
fn pinned_maintenance_puts_an_aircraft_at_the_wrong_airport() {
    let windows = vec![window(250, 300, Some("KRK")), window(600, 700, None)];
    assert!(is_at_wrong_airport(&windows, Time(400), &id("WAW"), 230));
    assert!(is_at_wrong_airport(&windows, Time(300), &id("WAW"), 250));
    assert!(!is_at_wrong_airport(&windows, Time(400), &id("KRK"), 230));
    assert!(!is_at_wrong_airport(&windows, Time(299), &id("WAW"), 230));
    assert!(!is_at_wrong_airport(&windows, Time(400), &id("WAW"), 251));
    assert!(!is_at_wrong_airport(&windows, Time(800), &id("WAW"), 500));
}

#[test]
fn airports_close_on_either_end_of_a_flight() {
    let mut airports = AirportTable::new();
    airports.insert(airport("KRK", 30, vec![Curfew { from: Time(90), to: Time(100) }]));
    airports.insert(airport("WAW", 30, vec![Curfew { from: Time(200), to: Time(210) }]));
    let f = flight("F", "KRK", "WAW", 100, 200);
    assert!(is_airport_closed(&airports, &f, 100, 199));
    assert!(is_airport_closed(&airports, &f, 101, 200));
    assert!(!is_airport_closed(&airports, &f, 101, 199));
    assert!(!is_airport_closed(&airports, &f, 201, 100));
}

#[test]
fn ready_time_adds_the_turnaround() {
    let mut airports = AirportTable::new();
    airports.insert(airport("KRK", 30, vec![]));
    assert_eq!(230, get_ready_time(&airports, Time(200), &id("KRK")));
    assert_eq!(200, get_ready_time(&airports, Time(200), &id("WAW")));
    airports.insert(airport("GDN", u64::MAX, vec![]));
    assert_eq!(
        u64::MAX as u128 + u64::MAX as u128,
        get_ready_time(&airports, Time(u64::MAX), &id("GDN"))
    );
}

#[test]
fn shifted_times_follow_the_flight_ahead() {
    let mut airports = AirportTable::new();
    airports.insert(airport("WRO", 30, vec![]));
    airports.insert(airport("WAW", 60, vec![]));
    let f = flight("F", "WRO", "WAW", 1800, 2000);
    assert_eq!((2030, 2230, true), compute_shifted_times(&airports, &f, Time(2000), &id("WRO")));
    assert_eq!((1800, 2000, false), compute_shifted_times(&airports, &f, Time(1770), &id("WRO")));
    assert_eq!((1801, 2001, true), compute_shifted_times(&airports, &f, Time(1771), &id("WRO")));
    assert_eq!((2060, 2260, true), compute_shifted_times(&airports, &f, Time(2000), &id("WAW")));
    assert_eq!((2000, 2200, true), compute_shifted_times(&airports, &f, Time(2000), &id("GDN")));
}

#[test]
fn sorting_by_departure_is_stable() {
    let flights = vec![
        flight("C", "X", "Y", 300, 400),
        flight("A1", "X", "Y", 100, 200),
        flight("B", "X", "Y", 200, 300),
        flight("A2", "X", "Y", 100, 150),
        flight("A3", "X", "Y", 100, 500),
        flight("Z", "X", "Y", 0, 1),
    ];
    let sorted = sort_by_departure(flights);
    let ids: Vec<&str> = sorted.iter().map(|f| f.id.as_str()).collect();
    assert_eq!(vec!["Z", "A1", "A2", "A3", "B", "C"], ids);
    assert!(sort_by_departure(vec![]).is_empty());
}

#[test]
fn new_orders_flights_and_keeps_no_report() {
    let flights = vec![flight("LATE", "X", "Y", 500, 600), flight("EARLY", "X", "Y", 100, 200)];
    let schedule = Schedule::new(Fleet::new(), AirportTable::new(), flights);
    assert_eq!("EARLY", schedule.flights[0].id);
    assert_eq!("LATE", schedule.flights[1].id);
    assert!(schedule.last_report().is_none());
    assert!(schedule.last_report.is_none());
    assert_eq!(0, schedule.aircraft.len());
    assert_eq!(0, schedule.airports.len());
}

#[test]
fn locate_flight_finds_the_last_flight_with_the_identifier() {
    let flights = vec![
        flight("A", "X", "Y", 1, 2),
        flight("B", "X", "Y", 3, 4),
        flight("A", "X", "Y", 5, 6),
        flight("C", "X", "Y", 7, 8),
    ];
    assert_eq!(Some(2), locate_flight(&flights, &id("A")));
    assert_eq!(Some(1), locate_flight(&flights, &id("B")));
    assert_eq!(Some(3), locate_flight(&flights, &id("C")));
    assert_eq!(None, locate_flight(&flights, &id("D")));
    assert_eq!(None, locate_flight(&vec![], &id("A")));
}
