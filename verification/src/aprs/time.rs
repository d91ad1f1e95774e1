//! APRS timestamps and how the full date of one is guessed from the current instant.
//! Instants are nanoseconds from the Unix epoch (UTC).
use crate::calendar::{
    ce_days_of_date, ce_days_of_ymd, ce_day_of, date_of_ce_days, day_start, split_day, ymd_of_ce_days,
    MAX_ABS_TIMESTAMP, NANOS_PER_DAY, NANOS_PER_SECOND, UNIX_EPOCH_CE_DAYS,
};
use vstd::prelude::*;

verus! {

/// Margin by which a report may lie in the future: 30 minutes, in nanoseconds.
pub const LEEWAY: i128 = 1_800_000_000_000;

/// A time of day with whole seconds (what chrono's `NaiveTime::from_hms` builds).
#[derive(Clone, Copy, Debug, PartialEq, Eq, Structural)]
pub struct TimeOfDay {
    pub hour: u32,
    pub minute: u32,
    pub second: u32,
}

impl TimeOfDay {
    pub open spec fn wf(self) -> bool {
        self.hour < 24 && self.minute < 60 && self.second < 60
    }

    /// Seconds since midnight.
    pub open spec fn secs(self) -> int {
        self.hour * 3600 + self.minute * 60 + self.second
    }

    /// The time `hour:minute:second`; `None` where it is no valid time of day.
    pub fn from_hms_opt(hour: u32, minute: u32, second: u32) -> (r: Option<TimeOfDay>)
        ensures
            r matches Some(t) ==> t.wf() && t == (TimeOfDay { hour, minute, second }),
            r is None <==> !(hour < 24 && minute < 60 && second < 60),
    {
        if hour < 24 && minute < 60 && second < 60 {
            Some(TimeOfDay { hour, minute, second })
        } else {
            None
        }
    }

    /// Nanoseconds since midnight.
    pub fn nanos_from_midnight(&self) -> (r: i128)
        requires
            self.wf(),
        ensures
            r == self.secs() * 1_000_000_000,
            0 <= r < 86_400_000_000_000,
    {
        ((self.hour as i128) * 3600 + (self.minute as i128) * 60 + (self.second as i128)) * NANOS_PER_SECOND
    }
}

/// Day of month, hour and minute, in UTC (`utc`) or in local time.
#[derive(Clone, Copy, Debug, PartialEq, Eq, Structural)]
pub struct DHM {
    pub day: u32,
    pub time: TimeOfDay,
    pub utc: bool,
}

impl DHM {
    pub open spec fn wf(self) -> bool {
        self.time.wf() && self.time.second == 0
    }

    pub fn new(day: u32, hour: u32, minute: u32, utc: bool) -> (r: DHM)
        requires
            hour < 24,
            minute < 60,
        ensures
            r == (DHM { day, time: TimeOfDay { hour, minute, second: 0 }, utc }),
            r.wf(),
    {
        DHM { day, time: TimeOfDay { hour, minute, second: 0 }, utc }
    }
}

/// The timestamp of a report: hours, minutes and seconds, or day, hours and minutes.
#[derive(Clone, Copy, Debug, PartialEq, Eq, Structural)]
pub enum APRSTimestamp {
    HMS(TimeOfDay),
    DHM(DHM),
}

/// Why no date could be guessed for a timestamp.
#[derive(Clone, Copy, Debug, PartialEq, Eq, Structural)]
pub enum GuessError {
    /// The day does not exist in the current month nor in the previous one.
    CouldNotGuessDate,
    /// The timestamp is in local time, whose time zone is unknown.
    LocalTime,
}

pub open spec fn valid_instant(t: int) -> bool {
    -MAX_ABS_TIMESTAMP <= t <= MAX_ABS_TIMESTAMP
}

pub fn valid_instant_exec(t: i128) -> (r: bool)
    ensures
        r == valid_instant(t as int),
{
    -MAX_ABS_TIMESTAMP <= t && t <= MAX_ABS_TIMESTAMP
}

/// The instant at time of day `secs` (in seconds) on today, tomorrow or yesterday (relative
/// to `now`): tomorrow if that is less than the leeway ahead, else today if that is, else
/// yesterday.
pub open spec fn spec_guess_date(secs: int, now: int) -> int {
    let today = day_start(now) + secs * 1_000_000_000;
    let tomorrow = today + 86_400_000_000_000;
    let yesterday = today - 86_400_000_000_000;
    if tomorrow - now < 1_800_000_000_000 {
        tomorrow
    } else if today - now < 1_800_000_000_000 {
        today
    } else {
        yesterday
    }
}

/// The previous month of (year, month), as `last_month` builds it with chrono:
/// January goes to December of the previous year (through `with_year`, then `with_month0`).
/// `None` where chrono refuses a step, such as a day of month that the month lacks.
pub open spec fn spec_last_month(year: i32, month: u32, day: u32) -> Option<(i32, u32)> {
    if month == 1 {
        if year == i32::MIN {
            None
        } else if ce_days_of_ymd((year - 1) as i32, 1, day) is None {
            None
        } else if ce_days_of_ymd((year - 1) as i32, 12, day) is None {
            None
        } else {
            Some(((year - 1) as i32, 12u32))
        }
    } else {
        if ce_days_of_ymd(year, (month - 1) as u32, day) is None {
            None
        } else {
            Some((year, (month - 1) as u32))
        }
    }
}

/// The instant that a UTC day-hour-minute timestamp is guessed to stand for: that day of the
/// current month if it is not after today, else that day of the previous month.
pub open spec fn spec_guess_dhm(day: u32, secs: int, now: int) -> Result<int, GuessError> {
    let today = ce_day_of(now);
    match ymd_of_ce_days(today as i32) {
        None => Err(GuessError::CouldNotGuessDate),
        Some((y, m, d)) => match ce_days_of_ymd(y, m, day) {
            Some(dd) if dd <= today => Ok((dd - 719163) * 86_400_000_000_000 + secs * 1_000_000_000),
            _ => match spec_last_month(y, m, d) {
                None => Err(GuessError::CouldNotGuessDate),
                Some((py, pm)) => match ce_days_of_ymd(py, pm, day) {
                    None => Err(GuessError::CouldNotGuessDate),
                    Some(pd) => Ok((pd - 719163) * 86_400_000_000_000 + secs * 1_000_000_000),
                },
            },
        },
    }
}

impl APRSTimestamp {
    pub open spec fn wf(self) -> bool {
        match self {
            APRSTimestamp::HMS(t) => t.wf(),
            APRSTimestamp::DHM(d) => d.wf(),
        }
    }

    /// The instant this timestamp is guessed to stand for, given the current instant.
    pub open spec fn spec_guess_datetime(self, now: int) -> Result<int, GuessError> {
        match self {
            APRSTimestamp::HMS(t) => Ok(spec_guess_date(t.secs(), now)),
            APRSTimestamp::DHM(d) => if d.utc {
                spec_guess_dhm(d.day, d.time.secs(), now)
            } else {
                Err(GuessError::LocalTime)
            },
        }
    }

    /// Whether the time of day is a valid one (the parser gives no other).
    pub fn is_valid(&self) -> (r: bool)
        ensures
            r == self.wf(),
    {
        match self {
            APRSTimestamp::HMS(t) => t.hour < 24 && t.minute < 60 && t.second < 60,
            APRSTimestamp::DHM(d) => d.time.hour < 24 && d.time.minute < 60 && d.time.second == 0,
        }
    }

    /// The precision of the timestamp in seconds: one second, or one minute for
    /// day-hour-minute timestamps.
    pub fn precision(&self) -> (r: u64)
        ensures
            r == (match self {
                APRSTimestamp::HMS(_) => 1u64,
                APRSTimestamp::DHM(_) => 60u64,
            }),
    {
        match self {
            APRSTimestamp::HMS(_) => 1,
            APRSTimestamp::DHM(_) => 60,
        }
    }

    /// Guesses the full date of the timestamp from the current instant `now`.
    pub fn guess_datetime(&self, now: i128) -> (r: Result<i128, GuessError>)
        requires
            self.wf(),
            valid_instant(now as int),
        ensures
            match (r, self.spec_guess_datetime(now as int)) {
                (Ok(a), Ok(b)) => a == b,
                (Err(a), Err(b)) => a == b,
                _ => false,
            },
            // A UTC day of month not after today's is dated this month, that many days back.
            match (*self, ymd_of_ce_days(ce_day_of(now as int) as i32)) {
                (APRSTimestamp::DHM(dhm), Some((y, m, today))) => dhm.utc && 1 <= dhm.day <= today
                    ==> r == Ok::<i128, GuessError>(
                    ((now / 86_400_000_000_000 - (today - dhm.day)) * 86_400_000_000_000 + dhm.time.secs()
                        * 1_000_000_000) as i128,
                ),
                _ => true,
            },
    {
        match self {
            APRSTimestamp::HMS(t) => guess_date(*t, now),
            APRSTimestamp::DHM(d) => {
                if d.utc {
                    guess_dhm(d.day, d.time, now)
                } else {
                    Err(GuessError::LocalTime)
                }
            },
        }
    }
}

/// Finds the instant at time of day `time` closest to `now` on yesterday, today or tomorrow,
/// accepting an instant up to 30 minutes ahead of `now`.
pub fn guess_date(time: TimeOfDay, now: i128) -> (r: Result<i128, GuessError>)
    requires
        time.wf(),
        valid_instant(now as int),
    ensures
        r == Ok::<i128, GuessError>(spec_guess_date(time.secs(), now as int) as i128),
{
    let (days, _) = split_day(now);
    let today = days * NANOS_PER_DAY + time.nanos_from_midnight();
    let tomorrow = today + NANOS_PER_DAY;
    let yesterday = today - NANOS_PER_DAY;
    if tomorrow - now < LEEWAY {
        Ok(tomorrow)
    } else if today - now < LEEWAY {
        Ok(today)
    } else {
        Ok(yesterday)
    }
}

/// The guessed instant has the timestamp's time of day and is the only such instant that lies
/// less than the leeway ahead of `now` and no more than a day less the leeway before it.
pub proof fn guess_date_is_latest_before_leeway(secs: int, now: int)
    requires
        0 <= secs < 86400,
    ensures
        now + 1_800_000_000_000 - 86_400_000_000_000 <= spec_guess_date(secs, now) < now
            + 1_800_000_000_000,
        spec_guess_date(secs, now) % 86_400_000_000_000 == secs * 1_000_000_000,
{
    let d = 86_400_000_000_000int;
    let x = secs * 1_000_000_000;
    let ds = day_start(now);
    assert(ds <= now < ds + d) by {
        assert(now == (now / d) * d + now % d);
    }
    assert((ds + x) % d == x && (ds + x + d) % d == x && (ds + x - d) % d == x) by {
        assert(ds == (now / d) * d);
        vstd::arithmetic::div_mod::lemma_mod_multiples_vanish(now / d, x, d);
        vstd::arithmetic::div_mod::lemma_mod_multiples_vanish(now / d + 1, x, d);
        vstd::arithmetic::div_mod::lemma_mod_multiples_vanish(now / d - 1, x, d);
        vstd::arithmetic::div_mod::lemma_small_mod(x as nat, d as nat);
    }
}

/// The previous month of (year, month), keeping the day: `None` where that date does not
/// exist.
pub fn last_month(year: i32, month: u32, day: u32) -> (r: Option<(i32, u32)>)
    requires
        1 <= month <= 12,
    ensures
        r == spec_last_month(year, month, day),
{
    if month == 1 {
        if year == i32::MIN {
            return None;
        }
        if ce_days_of_date(year - 1, 1, day).is_none() {
            return None;
        }
        if ce_days_of_date(year - 1, 12, day).is_none() {
            return None;
        }
        Some((year - 1, 12))
    } else {
        if ce_days_of_date(year, month - 1, day).is_none() {
            return None;
        }
        Some((year, month - 1))
    }
}

fn guess_dhm(day: u32, time: TimeOfDay, now: i128) -> (r: Result<i128, GuessError>)
    requires
        time.wf(),
        valid_instant(now as int),
    ensures
        match (r, spec_guess_dhm(day, time.secs(), now as int)) {
            (Ok(a), Ok(b)) => a == b,
            (Err(a), Err(b)) => a == b,
            _ => false,
        },
        match ymd_of_ce_days(ce_day_of(now as int) as i32) {
            Some((y, m, today)) => 1 <= day <= today ==> r == Ok::<i128, GuessError>(
                ((now / 86_400_000_000_000 - (today - day)) * 86_400_000_000_000 + time.secs()
                    * 1_000_000_000) as i128,
            ),
            None => true,
        },
{
    let (days, _) = split_day(now);
    let today = (days + UNIX_EPOCH_CE_DAYS) as i32;
    let nanos = time.nanos_from_midnight();
    match date_of_ce_days(today) {
        None => Err(GuessError::CouldNotGuessDate),
        Some((y, m, d)) => {
            match ce_days_of_date(y, m, day) {
                Some(dd) if dd <= today => {
                    return Ok(((dd as i128) - UNIX_EPOCH_CE_DAYS) * NANOS_PER_DAY + nanos);
                },
                _ => {},
            }
            match last_month(y, m, d) {
                None => Err(GuessError::CouldNotGuessDate),
                Some((py, pm)) => match ce_days_of_date(py, pm, day) {
                    None => Err(GuessError::CouldNotGuessDate),
                    Some(pd) => Ok(((pd as i128) - UNIX_EPOCH_CE_DAYS) * NANOS_PER_DAY + nanos),
                },
            }
        },
    }
}

} // verus!
