//! Absolute time as a count of minutes since the start of a scenario.

use core::ops::{Add, Div, Sub};
use vstd::prelude::*;
use vstd::std_specs::convert::{FromSpec, FromSpecImpl};
use vstd::std_specs::ops::{AddSpecImpl, DivSpecImpl, SubSpecImpl};
use vstd::string::StringExecFns;

use crate::text::{decimal, push_decimal, push_two_digits, two_digits};

verus! {

/// Minutes in one day.
pub const MINUTES_PER_DAY: u64 = 1440;

/// Minutes in one hour.
pub const MINUTES_PER_HOUR: u64 = 60;

/// Minutes elapsed since the start of the scenario. A scenario may span
/// several days; one day is 1440 minutes.
#[derive(Clone, Copy, Debug, PartialEq, Eq, Structural, PartialOrd, Ord, Hash)]
pub struct Time(pub u64);

impl View for Time {
    type V = int;

    /// The minute count as a mathematical integer.
    open spec fn view(&self) -> int {
        self.0 as int
    }
}

/// Half-open interval intersection: the window from `a_from` to `a_to` and
/// the window from `b_from` to `b_to` overlap when each starts before the
/// other ends. Windows that merely touch do not overlap.
pub open spec fn overlapping(a_from: int, a_to: int, b_from: int, b_to: int) -> bool {
    a_from < b_to && a_to > b_from
}

/// An instant as text: the word `DAY` and the one-based index of the day,
/// a space, and the time of day as two digits for the hour, a colon and two
/// digits for the minute.
pub open spec fn time_text(minutes: int) -> Seq<char> {
    seq!['D', 'A', 'Y'] + decimal((minutes / 1440 + 1) as nat) + seq![' '] + two_digits(
        ((minutes % 1440) / 60) as nat,
    ) + seq![':'] + two_digits(((minutes % 1440) % 60) as nat)
}

impl Time {
    /// Whether the window `time` intersects the window `window`.
    pub fn is_overlapping(time: &(Time, Time), window: &(Time, Time)) -> (hit: bool)
        ensures
            hit == overlapping(time.0@, time.1@, window.0@, window.1@),
    {
        time.0.0 < window.1.0 && time.1.0 > window.0.0
    }

    /// The number of minutes since the start of the scenario.
    pub fn to_minutes(&self) -> (minutes: u64)
        ensures
            minutes == self@,
    {
        self.0
    }

    /// The one-based index of the day this instant falls on.
    pub open spec fn spec_day(self) -> int {
        self@ / 1440 + 1
    }

    /// The hour of the day, from 0 to 23.
    pub open spec fn spec_hour(self) -> int {
        (self@ % 1440) / 60
    }

    /// The minute of the hour, from 0 to 59.
    pub open spec fn spec_minute(self) -> int {
        (self@ % 1440) % 60
    }

    /// The one-based index of the day this instant falls on.
    pub fn day(&self) -> (d: u64)
        ensures
            d == self.spec_day(),
            d >= 1,
    {
        self.0 / MINUTES_PER_DAY + 1
    }

    /// The hour of the day, from 0 to 23.
    pub fn hour(&self) -> (h: u64)
        ensures
            h == self.spec_hour(),
            h < 24,
    {
        (self.0 % MINUTES_PER_DAY) / MINUTES_PER_HOUR
    }

    /// The minute of the hour, from 0 to 59.
    pub fn minute(&self) -> (m: u64)
        ensures
            m == self.spec_minute(),
            m < 60,
    {
        (self.0 % MINUTES_PER_DAY) % MINUTES_PER_HOUR
    }

    /// This instant as text, such as `DAY1 08:05`.
    pub fn to_string(&self) -> (text: String)
        ensures
            text@ == time_text(self@),
    {
        proof {
            reveal_strlit("DAY");
            reveal_strlit(" ");
            reveal_strlit(":");
        }
        let mut text = String::from_str("DAY");
        assert(text@ =~= seq!['D', 'A', 'Y']);
        push_decimal(&mut text, self.day());
        text.append(" ");
        push_two_digits(&mut text, self.hour());
        text.append(":");
        push_two_digits(&mut text, self.minute());
        assert(text@ =~= time_text(self@));
        text
    }

    /// Moves this instant `minutes` later.
    pub fn advance(&mut self, minutes: u64)
        requires
            old(self)@ + minutes <= u64::MAX,
        ensures
            final(self)@ == old(self)@ + minutes,
    {
        self.0 = self.0 + minutes;
    }
}

/// Day, hour and minute of an instant recombine to the instant.
pub proof fn lemma_calendar_recombines(t: Time)
    ensures
        (t.spec_day() - 1) * 1440 + t.spec_hour() * 60 + t.spec_minute() == t@,
        0 <= t.spec_hour() < 24,
        0 <= t.spec_minute() < 60,
        t.spec_day() >= 1,
{
}

impl FromSpecImpl<u16> for Time {
    open spec fn obeys_from_spec() -> bool {
        true
    }

    open spec fn from_spec(value: u16) -> Time {
        Time(value as u64)
    }
}

impl From<u16> for Time {
    /// The instant `value` minutes after the start of the scenario.
    fn from(value: u16) -> (time: Time) {
        Time(value as u64)
    }
}

/// An instant made from a count of minutes gives that count back.
pub proof fn lemma_minutes_round_trip(value: u16)
    ensures
        <Time as FromSpec<u16>>::from_spec(value)@ == value,
        <Time as FromSpec<u16>>::from_spec(value).spec_hour() == value / 60 % 24,
        <Time as FromSpec<u16>>::from_spec(value).spec_minute() == value % 60,
{
}

impl AddSpecImpl<u64> for Time {
    open spec fn obeys_add_spec() -> bool {
        true
    }

    open spec fn add_req(self, rhs: u64) -> bool {
        self@ + rhs <= u64::MAX
    }

    open spec fn add_spec(self, rhs: u64) -> Time {
        Time((self.0 + rhs) as u64)
    }
}

impl Add<u64> for Time {
    type Output = Time;

    fn add(self, rhs: u64) -> (sum: Time) {
        Time(self.0 + rhs)
    }
}

impl AddSpecImpl<Time> for Time {
    open spec fn obeys_add_spec() -> bool {
        true
    }

    open spec fn add_req(self, rhs: Time) -> bool {
        self@ + rhs@ <= u64::MAX
    }

    open spec fn add_spec(self, rhs: Time) -> Time {
        Time((self.0 + rhs.0) as u64)
    }
}

impl Add<Time> for Time {
    type Output = Time;

    fn add(self, rhs: Time) -> (sum: Time) {
        Time(self.0 + rhs.0)
    }
}

impl SubSpecImpl<u64> for Time {
    open spec fn obeys_sub_spec() -> bool {
        true
    }

    open spec fn sub_req(self, rhs: u64) -> bool {
        rhs <= self@
    }

    open spec fn sub_spec(self, rhs: u64) -> Time {
        Time((self.0 - rhs) as u64)
    }
}

impl Sub<u64> for Time {
    type Output = Time;

    fn sub(self, rhs: u64) -> (difference: Time) {
        Time(self.0 - rhs)
    }
}

impl SubSpecImpl<Time> for Time {
    open spec fn obeys_sub_spec() -> bool {
        true
    }

    open spec fn sub_req(self, rhs: Time) -> bool {
        rhs@ <= self@
    }

    open spec fn sub_spec(self, rhs: Time) -> Time {
        Time((self.0 - rhs.0) as u64)
    }
}

impl Sub<Time> for Time {
    type Output = Time;

    fn sub(self, rhs: Time) -> (difference: Time) {
        Time(self.0 - rhs.0)
    }
}

impl DivSpecImpl<Time> for Time {
    open spec fn obeys_div_spec() -> bool {
        true
    }

    open spec fn div_req(self, rhs: Time) -> bool {
        rhs@ != 0
    }

    open spec fn div_spec(self, rhs: Time) -> Time {
        Time(self.0 / rhs.0)
    }
}

impl Div<Time> for Time {
    type Output = Time;

    fn div(self, rhs: Time) -> (quotient: Time) {
        Time(self.0 / rhs.0)
    }
}

} // verus!
