//! Points in time and calendar dates, as plain numbers.
use vstd::prelude::*;

verus! {

/// A point in time in UTC: whole seconds since 1970-01-01T00:00:00Z and the
/// nanoseconds past that second.
#[derive(Clone, Copy, Debug, PartialEq, Eq, Structural)]
pub struct Timestamp {
    pub secs: i64,
    pub nanos: u32,
}

/// A calendar date, as the number of days since 0001-01-01 counted from 1
/// (that date is day 1) in the proleptic Gregorian calendar.
#[derive(Clone, Copy, Debug, PartialEq, Eq, Structural)]
pub struct Date {
    pub days_from_ce: i32,
}

/// Day number of 1970-01-01.
pub const UNIX_EPOCH_DAY: i64 = 719163;

pub const SECONDS_PER_DAY: i64 = 86400;

/// The last millisecond of a date: 23:59:59.999 UTC on that day.
pub open spec fn end_of_day_spec(d: Date) -> Timestamp {
    Timestamp {
        secs: ((d.days_from_ce - 719163) * 86400 + 86399) as i64,
        nanos: 999_000_000,
    }
}

/// The last millisecond of a date: 23:59:59.999 UTC on that day.
pub fn end_of_day(d: Date) -> (r: Timestamp)
    ensures
        r == end_of_day_spec(d),
{
    let days: i64 = d.days_from_ce as i64 - UNIX_EPOCH_DAY;
    Timestamp { secs: days * SECONDS_PER_DAY + (SECONDS_PER_DAY - 1), nanos: 999_000_000 }
}

} // verus!
