//! Flights and their scheduling state.

use vstd::prelude::*;

use crate::aircraft::AircraftId;
use crate::airport::AirportId;
use crate::ident::slot_view;
use crate::paint::{green, is_bare, red, shows_in, yellow};
use crate::text::{decimal, lemma_decimal_is_digits, push_decimal};
use crate::time::Time;
use vstd::string::StringExecFns;

verus! {

/// Identifier of a flight.
pub type FlightId = String;

/// Why a flight has no aircraft.
#[derive(Clone, Copy, Debug, PartialEq, Eq, Structural)]
pub enum UnscheduledReason {
    /// No aircraft has been found for the flight so far.
    Waiting,
    /// Keeping the flight would have delayed it beyond the permitted maximum.
    MaxDelayExceeded,
    /// The origin or the destination airport is closed at the relevant instant.
    AirportCurfew,
    /// The aircraft is in maintenance, or maintenance pins it to another airport.
    AircraftMaintenance,
    /// An earlier flight of the same rotation lost its aircraft.
    BrokenChain,
}

/// Scheduling state of a flight.
#[derive(Clone, Copy, Debug, PartialEq, Eq, Structural)]
pub enum FlightStatus {
    /// The flight has no aircraft.
    Unscheduled(UnscheduledReason),
    /// The flight has an aircraft and runs at its planned times.
    Scheduled,
    /// The flight has an aircraft and runs `minutes` later than planned.
    Delayed { minutes: u64 },
}

impl FlightStatus {
    /// Whether the flight has no aircraft.
    pub fn is_unscheduled(&self) -> (unscheduled: bool)
        ensures
            unscheduled == (*self is Unscheduled),
    {
        match self {
            FlightStatus::Unscheduled(_) => true,
            _ => false,
        }
    }
}

/// A flight status as text: `Scheduled`, `Unscheduled`, or `Delayed`
/// with the minutes of delay.
pub open spec fn status_text(status: FlightStatus) -> Seq<char> {
    match status {
        FlightStatus::Scheduled => seq!['S', 'c', 'h', 'e', 'd', 'u', 'l', 'e', 'd'],
        FlightStatus::Unscheduled(_) => seq!['U', 'n', 's', 'c', 'h', 'e', 'd', 'u', 'l', 'e', 'd'],
        FlightStatus::Delayed { minutes } => seq!['D', 'e', 'l', 'a', 'y', 'e', 'd', ' ', '(', '+'] + decimal(
            minutes as nat,
        ) + seq!['m', ')'],
    }
}

/// The code of the colour in which a status is shown: green for a
/// scheduled flight, yellow for a delayed one, red for an unscheduled one.
pub open spec fn status_colour(status: FlightStatus) -> char {
    match status {
        FlightStatus::Scheduled => '2',
        FlightStatus::Delayed { .. } => '3',
        FlightStatus::Unscheduled(_) => '1',
    }
}

/// The text of a status has no escape sequence in it.
pub proof fn lemma_status_text_is_bare(status: FlightStatus)
    ensures
        is_bare(status_text(status)),
{
    match status {
        FlightStatus::Delayed { minutes } => {
            lemma_decimal_is_digits(minutes as nat);
        },
        _ => {},
    }
}

impl FlightStatus {
    /// The status as text for a terminal: its label, in the colour of the
    /// status where the process shows colour, and with no more than the
    /// sequence for reset behind it where colour is switched off while the
    /// text is written.
    pub fn to_string(&self) -> (text: String)
        ensures
            shows_in(text@, status_text(*self), status_colour(*self)),
    {
        let label = self.label();
        proof {
            lemma_status_text_is_bare(*self);
        }
        match self {
            FlightStatus::Scheduled => green(label.as_str()),
            FlightStatus::Delayed { .. } => yellow(label.as_str()),
            FlightStatus::Unscheduled(_) => red(label.as_str()),
        }
    }

    /// The label of the status, such as `Delayed (+45m)`.
    pub fn label(&self) -> (text: String)
        ensures
            text@ == status_text(*self),
    {
        proof {
            reveal_strlit("Scheduled");
            reveal_strlit("Unscheduled");
            reveal_strlit("Delayed (+");
            reveal_strlit("m)");
        }
        match self {
            FlightStatus::Scheduled => {
                let text = String::from_str("Scheduled");
                assert(text@ =~= status_text(*self));
                text
            },
            FlightStatus::Unscheduled(_) => {
                let text = String::from_str("Unscheduled");
                assert(text@ =~= status_text(*self));
                text
            },
            FlightStatus::Delayed { minutes } => {
                let mut text = String::from_str("Delayed (+");
                assert(text@ =~= seq!['D', 'e', 'l', 'a', 'y', 'e', 'd', ' ', '(', '+']);
                push_decimal(&mut text, *minutes);
                text.append("m)");
                assert(text@ =~= status_text(*self));
                text
            },
        }
    }
}

/// The aircraft of a flight as text: three hyphens for none.
pub open spec fn option_text(slot: Option<Seq<char>>) -> Seq<char> {
    match slot {
        Some(id) => id,
        None => seq!['-', '-', '-'],
    }
}

/// The identifier that `o` holds, or three hyphens, for a table cell.
pub fn display_option(o: &Option<AircraftId>) -> (text: String)
    ensures
        text@ == option_text(slot_view(*o)),
{
    proof {
        reveal_strlit("---");
    }
    match o {
        Some(id) => id.clone(),
        None => {
            let text = String::from_str("---");
            assert(text@ =~= seq!['-', '-', '-']);
            text
        },
    }
}

/// One leg flown between two airports.
#[derive(Clone, Debug, PartialEq, Eq)]
pub struct Flight {
    pub id: FlightId,
    pub aircraft_id: Option<AircraftId>,
    pub origin_id: AirportId,
    pub destination_id: AirportId,
    pub departure_time: Time,
    pub arrival_time: Time,
    pub status: FlightStatus,
}

/// A flight as a mathematical value.
pub struct FlightView {
    pub id: Seq<char>,
    pub aircraft: Option<Seq<char>>,
    pub origin: Seq<char>,
    pub destination: Seq<char>,
    pub departure: int,
    pub arrival: int,
    pub status: FlightStatus,
}

impl View for Flight {
    type V = FlightView;

    open spec fn view(&self) -> FlightView {
        FlightView {
            id: self.id@,
            aircraft: slot_view(self.aircraft_id),
            origin: self.origin_id@,
            destination: self.destination_id@,
            departure: self.departure_time@,
            arrival: self.arrival_time@,
            status: self.status,
        }
    }
}

impl FlightView {
    /// The flight is flown by the aircraft `id`.
    pub open spec fn flown_by(self, id: Seq<char>) -> bool {
        self.aircraft == Some(id)
    }

    /// The flight holds an aircraft and its status says so.
    pub open spec fn active(self) -> bool {
        !(self.status is Unscheduled) && self.aircraft is Some
    }

    /// This flight without its aircraft, unscheduled for `reason`.
    pub open spec fn released(self, reason: UnscheduledReason) -> FlightView {
        FlightView { aircraft: None, status: FlightStatus::Unscheduled(reason), ..self }
    }

    /// This flight bound to the aircraft `id` at its current times.
    pub open spec fn bound_to(self, id: Seq<char>) -> FlightView {
        FlightView { aircraft: Some(id), status: FlightStatus::Scheduled, ..self }
    }
}

/// The flights of a list as mathematical values, in the order of the list.
pub open spec fn flight_views(flights: Seq<Flight>) -> Seq<FlightView> {
    flights.map_values(|f: Flight| f@)
}

} // verus!
