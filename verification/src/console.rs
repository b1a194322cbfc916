//! What the operator's console asks of the tower: the commands it accepts,
//! and the views of the flight list that it shows.
//!
//! A line of input reaches this module as the list of its words.

use vstd::prelude::*;
use vstd::utf8::{encode_utf8, encode_utf8_decode_utf8};

use crate::flight::{flight_views, Flight, FlightStatus, FlightView, UnscheduledReason};

verus! {

/// The byte is an ASCII decimal digit.
pub open spec fn is_digit(byte: u8) -> bool {
    48 <= byte <= 57
}

/// The number that the first `n` bytes spell as decimal digits.
pub open spec fn digits_value(bytes: Seq<u8>, n: int) -> nat
    decreases n,
{
    if n <= 0 {
        0
    } else {
        digits_value(bytes, n - 1) * 10 + (bytes[n - 1] - 48) as nat
    }
}

/// The digits of a number in `bytes`: all of it but a plus sign in front.
pub open spec fn digits_of(bytes: Seq<u8>) -> Seq<u8> {
    if bytes.len() > 0 && bytes[0] == 43 {
        bytes.subrange(1, bytes.len() as int)
    } else {
        bytes
    }
}

/// The number that `bytes` spell: one or more decimal digits, with or
/// without a plus sign in front, of a value that a `u64` holds. Nothing
/// else spells a number.
pub open spec fn number_of(bytes: Seq<u8>) -> Option<u64> {
    let digits = digits_of(bytes);
    if digits.len() > 0 && (forall|i: int| 0 <= i < digits.len() ==> is_digit(#[trigger] digits[i])) && digits_value(
        digits,
        digits.len() as int,
    ) <= u64::MAX {
        Some(digits_value(digits, digits.len() as int) as u64)
    } else {
        None
    }
}

/// The number that the word `text` spells, if it spells one.
pub open spec fn text_number(text: Seq<char>) -> Option<u64> {
    number_of(encode_utf8(text))
}

/// More digits never spell a smaller number.
proof fn lemma_digits_value_grows(bytes: Seq<u8>, m: int, n: int)
    requires
        0 <= m <= n <= bytes.len(),
        forall|i: int| 0 <= i < n ==> is_digit(#[trigger] bytes[i]),
    ensures
        digits_value(bytes, m) <= digits_value(bytes, n),
    decreases n - m,
{
    if m < n {
        lemma_digits_value_grows(bytes, m, n - 1);
        assert(digits_value(bytes, n - 1) * 10 >= digits_value(bytes, n - 1)) by (nonlinear_arith);
    }
}

/// The number that the word `text` spells, if it spells one.
pub fn parse_number(text: &String) -> (number: Option<u64>)
    ensures
        number == text_number(text@),
{
    let bytes = text.as_str().as_bytes();
    let n = bytes.len();
    let start: usize = if n > 0 && bytes[0] == 43 {
        1
    } else {
        0
    };
    let ghost digits = digits_of(bytes@);
    if start == n {
        return None;
    }
    let mut value: u64 = 0;
    let mut i: usize = start;
    while i < n
        invariant
            n == bytes@.len(),
            start <= i <= n,
            start <= 1,
            digits == digits_of(bytes@),
            digits.len() == n - start,
            forall|h: int| 0 <= h < digits.len() ==> #[trigger] digits[h] == bytes@[h + start],
            forall|h: int| 0 <= h < i - start ==> is_digit(#[trigger] digits[h]),
            value == digits_value(digits, i - start),
            bytes@ == encode_utf8(text@),
        decreases n - i,
    {
        let byte = bytes[i];
        assert(digits[i - start] == byte);
        if byte < 48 || byte > 57 {
            return None;
        }
        let digit = (byte - 48) as u64;
        if value > (u64::MAX - digit) / 10 {
            proof {
                assert(digits_value(digits, i - start + 1) > u64::MAX);
                if forall|h: int| 0 <= h < digits.len() ==> is_digit(#[trigger] digits[h]) {
                    lemma_digits_value_grows(digits, i - start + 1, digits.len() as int);
                }
            }
            return None;
        }
        value = value * 10 + digit;
        i = i + 1;
    }
    Some(value)
}

/// Whether the two texts are the same.
pub fn same_text(a: &str, b: &str) -> (same: bool)
    ensures
        same == (a@ == b@),
{
    let x = a.as_bytes();
    let y = b.as_bytes();
    proof {
        encode_utf8_decode_utf8(a@);
        encode_utf8_decode_utf8(b@);
    }
    if x.len() != y.len() {
        return false;
    }
    let n = x.len();
    let mut i: usize = 0;
    while i < n
        invariant
            n == x@.len(),
            n == y@.len(),
            i <= n,
            x@ == encode_utf8(a@),
            y@ == encode_utf8(b@),
            forall|h: int| 0 <= h < i ==> x@[h] == y@[h],
        decreases n - i,
    {
        if x[i] != y[i] {
            return false;
        }
        i = i + 1;
    }
    assert(x@ =~= y@);
    true
}

/// The bytes of `prefix` are the first bytes of `text`.
pub open spec fn starts_with(text: Seq<char>, prefix: Seq<char>) -> bool {
    encode_utf8(prefix).is_prefix_of(encode_utf8(text))
}

/// Whether `text` starts with `prefix`.
pub fn has_prefix(text: &str, prefix: &str) -> (has: bool)
    ensures
        has == starts_with(text@, prefix@),
{
    let x = text.as_bytes();
    let y = prefix.as_bytes();
    if y.len() > x.len() {
        return false;
    }
    let n = y.len();
    let mut i: usize = 0;
    while i < n
        invariant
            n == y@.len(),
            n <= x@.len(),
            i <= n,
            x@ == encode_utf8(text@),
            y@ == encode_utf8(prefix@),
            forall|h: int| 0 <= h < i ==> x@[h] == y@[h],
        decreases n - i,
    {
        if x[i] != y[i] {
            assert(x@.subrange(0, y@.len() as int)[i as int] != y@[i as int]);
            return false;
        }
        i = i + 1;
    }
    assert(y@ =~= x@.subrange(0, y@.len() as int));
    true
}

/// The words among the first `n` of `commands` that start with `line`, in
/// the order of the list.
pub open spec fn completions_of(commands: Seq<Seq<char>>, line: Seq<char>, n: int) -> Seq<Seq<char>>
    decreases n,
{
    if n <= 0 {
        Seq::empty()
    } else if starts_with(commands[n - 1], line) {
        completions_of(commands, line, n - 1).push(commands[n - 1])
    } else {
        completions_of(commands, line, n - 1)
    }
}

/// The words of a list as sequences of characters.
pub open spec fn word_views(words: Seq<String>) -> Seq<Seq<char>> {
    words.map_values(|w: String| w@)
}

/// The commands that complete the input `line`: those that start with it.
pub fn completions(commands: &Vec<String>, line: &str) -> (found: Vec<String>)
    ensures
        word_views(found@) == completions_of(word_views(commands@), line@, commands@.len() as int),
{
    let mut found: Vec<String> = Vec::new();
    let n = commands.len();
    let mut i: usize = 0;
    assert(word_views(found@) =~= completions_of(word_views(commands@), line@, 0));
    while i < n
        invariant
            n == commands@.len(),
            i <= n,
            word_views(found@) == completions_of(word_views(commands@), line@, i as int),
        decreases n - i,
    {
        assert(word_views(commands@)[i as int] == commands@[i as int]@);
        if has_prefix(commands[i].as_str(), line) {
            let ghost before = word_views(found@);
            found.push(commands[i].clone());
            assert(word_views(found@) =~= before.push(commands@[i as int]@));
        }
        i = i + 1;
    }
    found
}

/// The kinds of flight status by which a listing can be narrowed.
#[derive(Clone, Copy, Debug, PartialEq, Eq, Structural)]
pub enum StatusFilter {
    Unscheduled,
    Scheduled,
    Delayed,
}

impl StatusFilter {
    /// The status `status` is of this kind.
    pub open spec fn admits(self, status: FlightStatus) -> bool {
        match self {
            StatusFilter::Unscheduled => status is Unscheduled,
            StatusFilter::Scheduled => status is Scheduled,
            StatusFilter::Delayed => status is Delayed,
        }
    }

    /// Whether the status `status` is of this kind.
    pub fn matches(&self, status: &FlightStatus) -> (admitted: bool)
        ensures
            admitted == self.admits(*status),
    {
        match (self, status) {
            (StatusFilter::Unscheduled, FlightStatus::Unscheduled(_)) => true,
            (StatusFilter::Scheduled, FlightStatus::Scheduled) => true,
            (StatusFilter::Delayed, FlightStatus::Delayed { .. }) => true,
            _ => false,
        }
    }
}

/// What a listing is narrowed to: a day, counted from one, and a kind of
/// status.
#[derive(Clone, Copy, Debug, PartialEq, Eq, Structural)]
pub struct Listing {
    pub day: Option<u64>,
    pub status: Option<StatusFilter>,
}

impl Listing {
    /// The listing shows `flight`: the flight departs on the day, if one is
    /// set, and its status is of the kind, if one is set.
    pub open spec fn shows(self, flight: FlightView) -> bool {
        &&& self.day matches Some(day) ==> flight.departure / 1440 == day - 1
        &&& self.status matches Some(kind) ==> kind.admits(flight.status)
    }

    /// Whether the listing shows `flight`.
    pub fn includes(&self, flight: &Flight) -> (shown: bool)
        ensures
            shown == self.shows(flight@),
    {
        let on_day = match self.day {
            Some(day) => day >= 1 && flight.departure_time.0 / 1440 == day - 1,
            None => true,
        };
        let of_kind = match &self.status {
            Some(kind) => kind.matches(&flight.status),
            None => true,
        };
        on_day && of_kind
    }
}

/// The places among the first `n` of the flights that `listing` shows, in
/// the order of the list.
pub open spec fn shown_of(flights: Seq<FlightView>, listing: Listing, n: int) -> Seq<int>
    decreases n,
{
    if n <= 0 {
        Seq::empty()
    } else if listing.shows(flights[n - 1]) {
        shown_of(flights, listing, n - 1).push(n - 1)
    } else {
        shown_of(flights, listing, n - 1)
    }
}

/// The places of the flights that `listing` shows.
pub fn select(flights: &Vec<Flight>, listing: &Listing) -> (places: Vec<usize>)
    ensures
        places@.map_values(|p: usize| p as int) == shown_of(flight_views(flights@), *listing, flights@.len() as int),
        forall|i: int| 0 <= i < places@.len() ==> (#[trigger] places@[i]) < flights@.len(),
{
    let mut places: Vec<usize> = Vec::new();
    let n = flights.len();
    let mut i: usize = 0;
    assert(places@.map_values(|p: usize| p as int) =~= shown_of(flight_views(flights@), *listing, 0));
    while i < n
        invariant
            n == flights@.len(),
            i <= n,
            places@.map_values(|p: usize| p as int) == shown_of(flight_views(flights@), *listing, i as int),
            forall|h: int| 0 <= h < places@.len() ==> (#[trigger] places@[h]) < flights@.len(),
        decreases n - i,
    {
        assert(flight_views(flights@)[i as int] == flights@[i as int]@);
        if listing.includes(&flights[i]) {
            let ghost before = places@.map_values(|p: usize| p as int);
            places.push(i);
            assert(places@.map_values(|p: usize| p as int) =~= before.push(i as int));
        }
        i = i + 1;
    }
    places
}

/// How many flights are in each state.
#[derive(Clone, Copy, Debug, PartialEq, Eq, Structural)]
pub struct Tally {
    pub scheduled: usize,
    pub delayed: usize,
    pub waiting: usize,
    pub max_delay_exceeded: usize,
    pub airport_curfew: usize,
    pub aircraft_maintenance: usize,
    pub broken_chain: usize,
    pub total: usize,
}

/// The number of flights among the first `n` whose status satisfies
/// `wanted`.
pub open spec fn count_of(flights: Seq<FlightView>, wanted: spec_fn(FlightStatus) -> bool, n: int) -> nat
    decreases n,
{
    if n <= 0 {
        0
    } else if wanted(flights[n - 1].status) {
        count_of(flights, wanted, n - 1) + 1
    } else {
        count_of(flights, wanted, n - 1)
    }
}

/// The number of flights among the first `n` that are unscheduled for
/// `reason`.
pub open spec fn count_unscheduled(flights: Seq<FlightView>, reason: UnscheduledReason, n: int) -> nat {
    count_of(flights, |s: FlightStatus| s == FlightStatus::Unscheduled(reason), n)
}

/// The tally of the first `n` flights.
pub open spec fn tally_of(flights: Seq<FlightView>, n: int) -> Tally {
    Tally {
        scheduled: count_of(flights, |s: FlightStatus| s is Scheduled, n) as usize,
        delayed: count_of(flights, |s: FlightStatus| s is Delayed, n) as usize,
        waiting: count_unscheduled(flights, UnscheduledReason::Waiting, n) as usize,
        max_delay_exceeded: count_unscheduled(flights, UnscheduledReason::MaxDelayExceeded, n) as usize,
        airport_curfew: count_unscheduled(flights, UnscheduledReason::AirportCurfew, n) as usize,
        aircraft_maintenance: count_unscheduled(flights, UnscheduledReason::AircraftMaintenance, n) as usize,
        broken_chain: count_unscheduled(flights, UnscheduledReason::BrokenChain, n) as usize,
        total: flights.len() as usize,
    }
}

/// A count of flights never exceeds the number of flights counted.
pub proof fn lemma_count_bounded(flights: Seq<FlightView>, wanted: spec_fn(FlightStatus) -> bool, n: int)
    requires
        0 <= n,
    ensures
        count_of(flights, wanted, n) <= n,
    decreases n,
{
    if n > 0 {
        lemma_count_bounded(flights, wanted, n - 1);
    }
}

/// Counts the flights by state.
pub fn tally(flights: &Vec<Flight>) -> (counts: Tally)
    ensures
        counts == tally_of(flight_views(flights@), flights@.len() as int),
{
    let ghost given = flight_views(flights@);
    let n = flights.len();
    let mut counts = Tally {
        scheduled: 0,
        delayed: 0,
        waiting: 0,
        max_delay_exceeded: 0,
        airport_curfew: 0,
        aircraft_maintenance: 0,
        broken_chain: 0,
        total: n,
    };
    let mut i: usize = 0;
    while i < n
        invariant
            n == flights@.len(),
            i <= n,
            given == flight_views(flights@),
            counts == tally_of(given, i as int),
        decreases n - i,
    {
        proof {
            assert(given[i as int] == flights@[i as int]@);
            lemma_count_bounded(given, |s: FlightStatus| s is Scheduled, i as int);
            lemma_count_bounded(given, |s: FlightStatus| s is Delayed, i as int);
            lemma_count_bounded(
                given,
                |s: FlightStatus| s == FlightStatus::Unscheduled(UnscheduledReason::Waiting),
                i as int,
            );
            lemma_count_bounded(
                given,
                |s: FlightStatus| s == FlightStatus::Unscheduled(UnscheduledReason::MaxDelayExceeded),
                i as int,
            );
            lemma_count_bounded(
                given,
                |s: FlightStatus| s == FlightStatus::Unscheduled(UnscheduledReason::AirportCurfew),
                i as int,
            );
            lemma_count_bounded(
                given,
                |s: FlightStatus| s == FlightStatus::Unscheduled(UnscheduledReason::AircraftMaintenance),
                i as int,
            );
            lemma_count_bounded(
                given,
                |s: FlightStatus| s == FlightStatus::Unscheduled(UnscheduledReason::BrokenChain),
                i as int,
            );
        }
        match flights[i].status {
            FlightStatus::Scheduled => {
                counts.scheduled = counts.scheduled + 1;
            },
            FlightStatus::Delayed { .. } => {
                counts.delayed = counts.delayed + 1;
            },
            FlightStatus::Unscheduled(UnscheduledReason::Waiting) => {
                counts.waiting = counts.waiting + 1;
            },
            FlightStatus::Unscheduled(UnscheduledReason::MaxDelayExceeded) => {
                counts.max_delay_exceeded = counts.max_delay_exceeded + 1;
            },
            FlightStatus::Unscheduled(UnscheduledReason::AirportCurfew) => {
                counts.airport_curfew = counts.airport_curfew + 1;
            },
            FlightStatus::Unscheduled(UnscheduledReason::AircraftMaintenance) => {
                counts.aircraft_maintenance = counts.aircraft_maintenance + 1;
            },
            FlightStatus::Unscheduled(UnscheduledReason::BrokenChain) => {
                counts.broken_chain = counts.broken_chain + 1;
            },
        }
        i = i + 1;
    }
    counts
}

/// What the operator asks for.
#[derive(Clone, Debug, PartialEq, Eq)]
pub enum Command {
    /// Show the flights that the listing admits.
    List(Listing),
    /// Delay the flight `flight` by `minutes`.
    Delay { flight: String, minutes: u64 },
    /// A delay without flight or minutes.
    DelayUsage,
    /// Close the airport `airport` from minute `from` to minute `to`.
    Curfew { airport: String, from: u64, to: u64 },
    /// A curfew without airport or window.
    CurfewUsage,
    /// Explain the latest disruption, in full or in short.
    Explain { full: bool },
    /// Assign aircraft to the flights that have none.
    Recover,
    /// Count the flights by state.
    Stats,
    /// Show the commands.
    Help,
    /// Leave.
    Exit,
    /// A word that is no command.
    Unknown { word: String },
}

/// A command as a mathematical value.
pub enum CommandView {
    List(Listing),
    Delay { flight: Seq<char>, minutes: u64 },
    DelayUsage,
    Curfew { airport: Seq<char>, from: u64, to: u64 },
    CurfewUsage,
    Explain { full: bool },
    Recover,
    Stats,
    Help,
    Exit,
    Unknown { word: Seq<char> },
}

impl View for Command {
    type V = CommandView;

    open spec fn view(&self) -> CommandView {
        match *self {
            Command::List(listing) => CommandView::List(listing),
            Command::Delay { flight, minutes } => CommandView::Delay { flight: flight@, minutes },
            Command::DelayUsage => CommandView::DelayUsage,
            Command::Curfew { airport, from, to } => CommandView::Curfew { airport: airport@, from, to },
            Command::CurfewUsage => CommandView::CurfewUsage,
            Command::Explain { full } => CommandView::Explain { full },
            Command::Recover => CommandView::Recover,
            Command::Stats => CommandView::Stats,
            Command::Help => CommandView::Help,
            Command::Exit => CommandView::Exit,
            Command::Unknown { word } => CommandView::Unknown { word: word@ },
        }
    }
}

/// The kind of status that the word names: `u` or `unscheduled`, `s` or
/// `scheduled`, `d` or `delayed`.
pub open spec fn status_named(word: Seq<char>) -> Option<StatusFilter> {
    if word == "u"@ || word == "unscheduled"@ {
        Some(StatusFilter::Unscheduled)
    } else if word == "s"@ || word == "scheduled"@ {
        Some(StatusFilter::Scheduled)
    } else if word == "d"@ || word == "delayed"@ {
        Some(StatusFilter::Delayed)
    } else {
        None
    }
}

/// The listing after one more word: a positive number sets the day, zero
/// changes nothing, and any other word sets the kind of status that it
/// names, or none.
pub open spec fn narrowed(listing: Listing, word: Seq<char>) -> Listing {
    match text_number(word) {
        Some(day) => if day > 0 {
            Listing { day: Some(day), ..listing }
        } else {
            listing
        },
        None => Listing { status: status_named(word), ..listing },
    }
}

/// The listing that the first `n` words ask for; the first word is the
/// command itself.
pub open spec fn listing_of(words: Seq<Seq<char>>, n: int) -> Listing
    decreases n,
{
    if n <= 1 {
        Listing { day: None, status: None }
    } else {
        narrowed(listing_of(words, n - 1), words[n - 1])
    }
}

/// The minutes that the word spells, or zero if it spells no number.
pub open spec fn minutes_named(word: Seq<char>) -> u64 {
    match text_number(word) {
        Some(minutes) => minutes,
        None => 0,
    }
}

/// The command that a line of one or more words stands for.
pub open spec fn command_of(words: Seq<Seq<char>>) -> CommandView {
    let verb = words[0];
    if verb == "ls"@ {
        CommandView::List(listing_of(words, words.len() as int))
    } else if verb == "delay"@ {
        if words.len() >= 3 {
            CommandView::Delay { flight: words[1], minutes: minutes_named(words[2]) }
        } else {
            CommandView::DelayUsage
        }
    } else if verb == "curfew"@ {
        if words.len() >= 4 {
            CommandView::Curfew { airport: words[1], from: minutes_named(words[2]), to: minutes_named(words[3]) }
        } else {
            CommandView::CurfewUsage
        }
    } else if verb == "explain"@ {
        CommandView::Explain { full: words.len() >= 2 && words[1] == "full"@ }
    } else if verb == "recover"@ {
        CommandView::Recover
    } else if verb == "stats"@ {
        CommandView::Stats
    } else if verb == "help"@ || verb == "?"@ {
        CommandView::Help
    } else if verb == "exit"@ || verb == "quit"@ {
        CommandView::Exit
    } else {
        CommandView::Unknown { word: verb }
    }
}

/// The kind of status that the word names.
fn status_filter(word: &String) -> (kind: Option<StatusFilter>)
    ensures
        kind == status_named(word@),
{
    let text = word.as_str();
    if same_text(text, "u") || same_text(text, "unscheduled") {
        Some(StatusFilter::Unscheduled)
    } else if same_text(text, "s") || same_text(text, "scheduled") {
        Some(StatusFilter::Scheduled)
    } else if same_text(text, "d") || same_text(text, "delayed") {
        Some(StatusFilter::Delayed)
    } else {
        None
    }
}

/// The minutes that the word spells, or zero.
fn minutes(word: &String) -> (minutes: u64)
    ensures
        minutes == minutes_named(word@),
{
    match parse_number(word) {
        Some(minutes) => minutes,
        None => 0,
    }
}

/// The command that the words of a line stand for; none for a line without
/// words.
pub fn parse_command(words: &Vec<String>) -> (command: Option<Command>)
    ensures
        match command {
            Some(c) => words@.len() > 0 && c@ == command_of(word_views(words@)),
            None => words@.len() == 0,
        },
{
    let n = words.len();
    if n == 0 {
        return None;
    }
    let ghost given = word_views(words@);
    assert(forall|i: int| 0 <= i < n ==> #[trigger] given[i] == words@[i]@);
    let verb = words[0].as_str();
    let command = if same_text(verb, "ls") {
        let mut listing = Listing { day: None, status: None };
        let mut i: usize = 1;
        while i < n
            invariant
                n == words@.len(),
                1 <= i <= n,
                given == word_views(words@),
                listing == listing_of(given, i as int),
            decreases n - i,
        {
            assert(given[i as int] == words@[i as int]@);
            match parse_number(&words[i]) {
                Some(day) => {
                    if day > 0 {
                        listing.day = Some(day);
                    }
                },
                None => {
                    listing.status = status_filter(&words[i]);
                },
            }
            i = i + 1;
        }
        Command::List(listing)
    } else if same_text(verb, "delay") {
        if n >= 3 {
            Command::Delay { flight: words[1].clone(), minutes: minutes(&words[2]) }
        } else {
            Command::DelayUsage
        }
    } else if same_text(verb, "curfew") {
        if n >= 4 {
            Command::Curfew { airport: words[1].clone(), from: minutes(&words[2]), to: minutes(&words[3]) }
        } else {
            Command::CurfewUsage
        }
    } else if same_text(verb, "explain") {
        Command::Explain { full: n >= 2 && same_text(words[1].as_str(), "full") }
    } else if same_text(verb, "recover") {
        Command::Recover
    } else if same_text(verb, "stats") {
        Command::Stats
    } else if same_text(verb, "help") || same_text(verb, "?") {
        Command::Help
    } else if same_text(verb, "exit") || same_text(verb, "quit") {
        Command::Exit
    } else {
        Command::Unknown { word: words[0].clone() }
    };
    Some(command)
}

} // verus!
