//! Instants and durations on the UTC timeline, and the calendar and clock
//! operations that are delegated to `chrono` and `now`.

use chrono::{DateTime, Utc};
use now::DateTimeNow;
use vstd::prelude::*;

verus! {

/// Nanoseconds in one day.
pub const NANOS_PER_DAY: i64 = 86_400_000_000_000;

/// An absolute instant: nanoseconds elapsed since 1970-01-01T00:00:00Z,
/// negative before it. The instants that it holds reach from the year 1677
/// to the year 2262.
#[derive(Clone, Copy, Debug, PartialEq, Eq, Structural)]
pub struct Timestamp {
    /// Nanoseconds since the epoch.
    pub nanos: i64,
}

/// A signed span of time in nanoseconds.
#[derive(Clone, Copy, Debug, PartialEq, Eq, Structural)]
pub struct Duration {
    /// Nanoseconds from the start of the span to its end.
    pub nanos: i128,
}

impl View for Timestamp {
    type V = int;

    open spec fn view(&self) -> int {
        self.nanos as int
    }
}

impl View for Duration {
    type V = int;

    open spec fn view(&self) -> int {
        self.nanos as int
    }
}

/// The start of the UTC day that holds the instant `nanos`.
pub open spec fn day_floor(nanos: int) -> int {
    nanos - nanos % (NANOS_PER_DAY as int)
}

/// The start of the Monday-based UTC week that holds the instant `nanos`.
/// Day 0 of the timeline, 1970-01-01, was a Thursday.
pub open spec fn week_floor(nanos: int) -> int {
    let day = nanos / (NANOS_PER_DAY as int);
    (day - (day + 3) % 7) * (NANOS_PER_DAY as int)
}

/// `Some(nanos)` where `nanos` is an instant that a `Timestamp` can hold.
pub open spec fn representable(nanos: int) -> Option<int> {
    if i64::MIN <= nanos <= i64::MAX {
        Some(nanos)
    } else {
        None
    }
}

/// Midnight begins its own day and the week of every instant of that day;
/// neither beginning is after the instant.
pub proof fn lemma_floors_of_midnight(nanos: int)
    ensures
        day_floor(day_floor(nanos)) == day_floor(nanos),
        week_floor(day_floor(nanos)) == week_floor(nanos),
        week_floor(nanos) <= day_floor(nanos) <= nanos,
{
}

/// The RFC 3339 text that `chrono` writes for an instant.
pub uninterp spec fn rfc3339_text(nanos: i64) -> Seq<char>;

/// The instant that `chrono` reads from an RFC 3339 text, `None` where it
/// rejects the text or the instant lies outside the range of `Timestamp`.
pub uninterp spec fn rfc3339_instant(text: Seq<char>) -> Option<i64>;

/// The error of `chrono`'s parsers, carried as it is.
#[verifier::external_type_specification]
#[verifier::external_body]
pub struct ExParseError(chrono::format::ParseError);

/// Reads the system clock through `chrono::Utc::now` and converts the reading
/// with `DateTime::timestamp_nanos_opt`. Nothing is claimed of the reading:
/// it is `None` when the clock stands outside the range of `Timestamp`.
#[verifier::external_body]
fn clock_nanos() -> (r: Option<i64>) {
    Utc::now().timestamp_nanos_opt()
}

/// Calls `DateTime::to_rfc3339` on the instant built by
/// `DateTime::from_timestamp_nanos`, which accepts every `i64`. The contract
/// only names the text written.
#[verifier::external_body]
fn write_rfc3339(nanos: i64) -> (r: String)
    ensures
        r@ == rfc3339_text(nanos),
{
    DateTime::from_timestamp_nanos(nanos).to_rfc3339()
}

/// Calls `DateTime::parse_from_rfc3339` and converts the instant read with
/// `DateTime::timestamp_nanos_opt`. The contract only names the instant; it is
/// absent both when the parser fails and when the conversion does.
#[verifier::external_body]
fn read_rfc3339(text: &str) -> (r: Result<Option<i64>, chrono::format::ParseError>)
    ensures
        match r {
            Ok(Some(n)) => rfc3339_instant(text@) == Some(n),
            _ => rfc3339_instant(text@) is None,
        },
{
    match DateTime::parse_from_rfc3339(text) {
        Ok(dt) => Ok(dt.timestamp_nanos_opt()),
        Err(e) => Err(e),
    }
}

/// Calls `DateTimeNow::beginning_of_day` of `now` on the UTC instant `nanos`:
/// midnight of the same UTC day, which is the instant rounded down to a
/// whole number of days since the epoch. `None` when that midnight is
/// earlier than every `Timestamp`.
#[verifier::external_body]
fn day_start_nanos(nanos: i64) -> (r: Option<i64>)
    ensures
        r matches Some(n) ==> representable(day_floor(nanos as int)) == Some(n as int),
        r is None ==> representable(day_floor(nanos as int)) is None,
{
    DateTime::from_timestamp_nanos(nanos).beginning_of_day().timestamp_nanos_opt()
}

/// Calls `DateTimeNow::beginning_of_week` of `now` on the UTC instant
/// `nanos`: midnight of the Monday on or before the instant's UTC day.
/// `None` when that midnight is earlier than every `Timestamp`.
#[verifier::external_body]
fn week_start_nanos(nanos: i64) -> (r: Option<i64>)
    ensures
        r matches Some(n) ==> representable(week_floor(nanos as int)) == Some(n as int),
        r is None ==> representable(week_floor(nanos as int)) is None,
{
    DateTime::from_timestamp_nanos(nanos).beginning_of_week().timestamp_nanos_opt()
}

impl Timestamp {
    /// The instant `nanos` nanoseconds after the epoch.
    pub fn from_nanos(nanos: i64) -> (t: Timestamp)
        ensures
            t@ == nanos,
    {
        Timestamp { nanos }
    }

    /// The current reading of the system clock, or `None` when the clock
    /// stands outside the range of instants that a `Timestamp` holds.
    pub fn now() -> (t: Option<Timestamp>) {
        Timestamp::from_reading(clock_nanos())
    }

    /// The timestamp of a reading of the clock in nanoseconds since the
    /// epoch: the instant read, or none where the clock gave none.
    pub fn from_reading(reading: Option<i64>) -> (t: Option<Timestamp>)
        ensures
            t == match reading {
                Some(nanos) => Some(Timestamp { nanos }),
                None => None,
            },
    {
        match reading {
            Some(nanos) => Some(Timestamp { nanos }),
            None => None,
        }
    }

    /// The instant written as RFC 3339 text.
    pub fn to_rfc3339(&self) -> (text: String)
        ensures
            text@ == rfc3339_text(self.nanos),
    {
        write_rfc3339(self.nanos)
    }

    /// Reads an instant from RFC 3339 text.
    pub fn parse_from_rfc3339(text: &str) -> (t: Option<Timestamp>)
        ensures
            t matches Some(ts) ==> rfc3339_instant(text@) == Some(ts.nanos),
            t is None ==> rfc3339_instant(text@) is None,
    {
        match read_rfc3339(text) {
            Ok(Some(nanos)) => Some(Timestamp { nanos }),
            _ => None,
        }
    }

    /// Midnight (UTC) of the day that holds this instant.
    pub fn beginning_of_day(&self) -> (t: Option<Timestamp>)
        ensures
            t matches Some(ts) ==> representable(day_floor(self@)) == Some(ts@),
            t is None ==> representable(day_floor(self@)) is None,
    {
        match day_start_nanos(self.nanos) {
            Some(nanos) => Some(Timestamp { nanos }),
            None => None,
        }
    }

    /// Midnight (UTC) of the Monday on or before the day that holds this
    /// instant.
    pub fn beginning_of_week(&self) -> (t: Option<Timestamp>)
        ensures
            t matches Some(ts) ==> representable(week_floor(self@)) == Some(ts@),
            t is None ==> representable(week_floor(self@)) is None,
    {
        match week_start_nanos(self.nanos) {
            Some(nanos) => Some(Timestamp { nanos }),
            None => None,
        }
    }

    /// The signed span from `earlier` to this instant.
    pub fn since(&self, earlier: &Timestamp) -> (d: Duration)
        ensures
            d@ == self@ - earlier@,
    {
        Duration { nanos: self.nanos as i128 - earlier.nanos as i128 }
    }
}

} // verus!
