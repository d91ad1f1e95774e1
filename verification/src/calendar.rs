//! The proleptic Gregorian calendar, as chrono computes it. Dates are counted in days
//! from the Common Era (0001-01-01 is day 1), instants in nanoseconds from the Unix epoch.
use chrono::Datelike;
use vstd::prelude::*;

verus! {

/// The day from the Common Era of 1970-01-01.
pub const UNIX_EPOCH_CE_DAYS: i128 = 719163;

pub const NANOS_PER_SECOND: i128 = 1_000_000_000;

pub const NANOS_PER_DAY: i128 = 86_400_000_000_000;

/// Bound on the instants the library handles (2^43 seconds, in nanoseconds): every instant
/// that chrono can represent (years -262144 to 262143) lies strictly inside it.
pub const MAX_ABS_TIMESTAMP: i128 = 8_796_093_022_208_000_000_000;

/// The (year, month, day) that chrono gives for a day counted from the Common Era.
pub uninterp spec fn ymd_of_ce_days(days: i32) -> Option<(i32, u32, u32)>;

/// The day from the Common Era that chrono gives for (year, month, day).
pub uninterp spec fn ce_days_of_ymd(year: i32, month: u32, day: u32) -> Option<i32>;

/// Calls `chrono::NaiveDate::from_num_days_from_ce_opt` and reads the date's year, month
/// and day (`Datelike::{year, month, day}`). The contract names the result; bounds month and
/// day to 1..=12 and 1..=31, as chrono documents them; and states what the calendar gives of
/// the days of the month up to that date: chrono's date for each of them (`from_ymd_opt`,
/// then `num_days_from_ce`) lies that many days before. It leaves unsaid which date a given
/// day is.
#[verifier::external_body]
pub(crate) fn date_of_ce_days(days: i32) -> (r: Option<(i32, u32, u32)>)
    ensures
        r == ymd_of_ce_days(days),
        r matches Some((y, m, d)) ==> 1 <= m <= 12 && 1 <= d <= 31,
        r matches Some((y, m, d)) ==> forall|e: u32|
            1 <= e <= d ==> #[trigger] ce_days_of_ymd(y, m, e) == Some((days - (d - e)) as i32),
{
    match chrono::NaiveDate::from_num_days_from_ce_opt(days) {
        Some(date) => Some((date.year(), date.month(), date.day())),
        None => None,
    }
}

/// Calls `chrono::NaiveDate::from_ymd_opt` and reads `Datelike::num_days_from_ce` of the
/// date. The contract names the result and states, as chrono documents, that an invalid
/// month or day gives `None`; it leaves unsaid which calendar days exist.
#[verifier::external_body]
pub(crate) fn ce_days_of_date(year: i32, month: u32, day: u32) -> (r: Option<i32>)
    ensures
        r == ce_days_of_ymd(year, month, day),
        (month < 1 || month > 12 || day < 1 || day > 31) ==> r is None,
{
    match chrono::NaiveDate::from_ymd_opt(year, month, day) {
        Some(date) => Some(date.num_days_from_ce()),
        None => None,
    }
}

/// The first instant of the day (UTC) that holds the instant `t`.
pub open spec fn day_start(t: int) -> int {
    (t / 86_400_000_000_000) * 86_400_000_000_000
}

/// The day from the Common Era that holds the instant `t`.
pub open spec fn ce_day_of(t: int) -> int {
    t / 86_400_000_000_000 + 719163
}

/// Floor division of an instant by the length of a day, with the remainder.
pub fn split_day(t: i128) -> (r: (i128, i128))
    requires
        -MAX_ABS_TIMESTAMP <= t <= MAX_ABS_TIMESTAMP,
    ensures
        r.0 == t / 86_400_000_000_000,
        r.1 == t % 86_400_000_000_000,
        r.0 * 86_400_000_000_000 + r.1 == t,
        0 <= r.1 < 86_400_000_000_000,
        -0x1000_0000 < r.0 < 0x1000_0000,
{
    if t >= 0 {
        let q = t / NANOS_PER_DAY;
        let r = t % NANOS_PER_DAY;
        (q, r)
    } else {
        let u = -t;
        let q = u / NANOS_PER_DAY;
        let r = u % NANOS_PER_DAY;
        if r == 0 {
            (-q, 0)
        } else {
            (-q - 1, NANOS_PER_DAY - r)
        }
    }
}

} // verus!
