//! Points in time without a zone, as the cameras write them.

use chrono::Datelike;
use vstd::prelude::*;

verus! {

/// Seconds in a day.
pub const DAY_SECONDS: i64 = 86400;

/// The first second of the calendar, counted from the start of 1970.
pub const FIRST_SECOND: i64 = -8334601228800;

/// The last second of the calendar, counted from the start of 1970.
pub const LAST_SECOND: i64 = 8210266876799;

/// The number of the last day before 1970, where January 1 of year 1 is day 1.
pub const DAYS_BEFORE_1970: i64 = 719162;

/// Nanoseconds in a second.
pub const NANOS: i128 = 1_000_000_000;

/// A date and a time of day: whole seconds since the start of 1970, and the
/// nanoseconds since then. Within a leap second the nanoseconds run past one
/// second.
#[derive(Debug, Clone, Copy, PartialEq, Eq, Structural)]
pub struct Moment {
    pub secs: i64,
    pub nanos: u32,
}

/// What `NaiveDateTime::parse_from_str` reads from a text with a format.
pub uninterp spec fn datetime_in(text: Seq<char>, format: Seq<char>) -> Option<Moment>;

/// The formats in which cameras write a date and a time: year, month, day, hour,
/// minute and second.
pub open spec fn is_stamp_format(format: Seq<char>) -> bool {
    format == "%Y_%m_%d_%H%M%S"@ || format == "%Y_%m_%d_%H_%M_%S"@ || format
        == "%Y-%m-%dT%H:%M:%S"@
}

/// `chrono::NaiveDateTime::parse_from_str`, in one of the formats of cameras: the
/// date and time that the text spells, or nothing where it does not match or the
/// date does not exist. The result depends on the two texts alone.
#[verifier::external_body]
pub(crate) fn parse_datetime(text: &str, format: &str) -> (r: Option<Moment>)
    requires
        is_stamp_format(format@),
    ensures
        r == datetime_in(text@, format@),
{
    let d = chrono::NaiveDateTime::parse_from_str(text, format).ok()?.and_utc();
    Some(Moment { secs: d.timestamp(), nanos: d.timestamp_subsec_nanos() })
}

/// Leap years of the Gregorian calendar.
pub open spec fn is_leap_year(y: int) -> bool {
    y % 4 == 0 && (y % 100 != 0 || y % 400 == 0)
}

/// The number of days in a month.
pub open spec fn month_days(y: int, m: int) -> int {
    if m == 2 {
        if is_leap_year(y) {
            29
        } else {
            28
        }
    } else if m == 4 || m == 6 || m == 9 || m == 11 {
        30
    } else {
        31
    }
}

/// The number of days of the year before the month.
pub open spec fn days_before_month(y: int, m: int) -> int
    decreases m,
{
    if m <= 1 {
        0
    } else {
        days_before_month(y, m - 1) + month_days(y, m - 1)
    }
}

/// The number of days from the start of year 1 to the start of the year.
pub open spec fn days_before_year(y: int) -> int {
    365 * (y - 1) + (y - 1) / 4 - (y - 1) / 100 + (y - 1) / 400
}

/// The calendar has this day.
pub open spec fn is_date(y: int, m: int, d: int) -> bool {
    1 <= m <= 12 && 1 <= d <= month_days(y, m)
}

/// The number of a day of the calendar, where January 1 of year 1 is day 1.
pub open spec fn day_number(y: int, m: int, d: int) -> int {
    days_before_year(y) + days_before_month(y, m) + d
}

/// `chrono::NaiveDate::from_ymd_opt`, with the date given as the number of its
/// day: a date exists exactly for the days of the Gregorian calendar.
#[verifier::external_body]
pub(crate) fn date_number(y: i32, m: u32, d: u32) -> (r: Option<i32>)
    requires
        0 <= y <= 9999,
    ensures
        match r {
            Some(n) => is_date(y as int, m as int, d as int) && n == day_number(
                y as int,
                m as int,
                d as int,
            ),
            None => !is_date(y as int, m as int, d as int),
        },
{
    let date = chrono::NaiveDate::from_ymd_opt(y, m, d)?;
    Some(date.num_days_from_ce())
}

/// The moment of a date and a time of day, where both exist.
pub open spec fn civil(y: int, m: int, d: int, hh: int, mi: int, ss: int) -> Option<Moment> {
    if is_date(y, m, d) && 0 <= hh < 24 && 0 <= mi < 60 && 0 <= ss < 60 {
        Some(
            Moment {
                secs: ((day_number(y, m, d) - DAYS_BEFORE_1970 - 1) * DAY_SECONDS + hh * 3600 + mi
                    * 60 + ss) as i64,
                nanos: 0,
            },
        )
    } else {
        None
    }
}

/// The moment of a date and a time of day, where both exist.
pub fn civil_moment(y: i32, m: u32, d: u32, hh: u32, mi: u32, ss: u32) -> (r: Option<Moment>)
    requires
        0 <= y <= 9999,
    ensures
        r == civil(y as int, m as int, d as int, hh as int, mi as int, ss as int),
{
    let day: i64 = match date_number(y, m, d) {
        Some(n) => n as i64,
        None => {
            return None;
        },
    };
    if hh >= 24 || mi >= 60 || ss >= 60 {
        return None;
    }
    let secs: i64 = (day - DAYS_BEFORE_1970 - 1) * DAY_SECONDS + hh as i64 * 3600 + mi as i64 * 60
        + ss as i64;
    Some(Moment { secs, nanos: 0 })
}

/// The second of the day that a count of seconds falls on.
fn second_of_day(secs: i64) -> (r: i64)
    ensures
        r == secs as int % DAY_SECONDS as int,
{
    if secs >= 0 {
        (secs as u64 % 86400) as i64
    } else {
        let m: u64 = (-(secs + 1)) as u64 % 86400;
        86399 - m as i64
    }
}

impl Moment {
    /// The second of the day.
    pub open spec fn second_of_day(self) -> int {
        self.secs as int % DAY_SECONDS as int
    }

    /// The moment lies in a leap second.
    pub open spec fn in_leap_second(self) -> bool {
        self.nanos >= NANOS
    }

    /// The nanoseconds from `earlier` to this moment. A leap second that one of
    /// the two lies in counts when the other lies on the far side of it in the
    /// day.
    pub open spec fn nanos_since(self, earlier: Moment) -> int {
        let leap: int = if self.second_of_day() > earlier.second_of_day()
            && earlier.in_leap_second() {
            1
        } else if self.second_of_day() < earlier.second_of_day() && self.in_leap_second() {
            -1
        } else {
            0
        };
        (self.secs - earlier.secs + leap) * NANOS + self.nanos - earlier.nanos
    }

    /// The whole seconds from `earlier` to this moment, rounded toward zero.
    pub open spec fn seconds_since_spec(self, earlier: Moment) -> int {
        let n = self.nanos_since(earlier);
        if n < 0 {
            -((-n) / NANOS as int)
        } else {
            n / NANOS as int
        }
    }

    /// The whole seconds from `earlier` to this moment, rounded toward zero.
    pub fn seconds_since(self, earlier: Moment) -> (r: i128)
        ensures
            r == self.seconds_since_spec(earlier),
    {
        let a: i64 = second_of_day(self.secs);
        let b: i64 = second_of_day(earlier.secs);
        let mut secs: i128 = self.secs as i128 - earlier.secs as i128;
        if a > b && earlier.nanos as i128 >= NANOS {
            secs = secs + 1;
        } else if a < b && self.nanos as i128 >= NANOS {
            secs = secs - 1;
        }
        let n: i128 = secs * NANOS + self.nanos as i128 - earlier.nanos as i128;
        if n < 0 {
            let m: u128 = (-n) as u128;
            -((m / NANOS as u128) as i128)
        } else {
            let m: u128 = n as u128;
            (m / NANOS as u128) as i128
        }
    }

    /// The number of seconds between two moments, whichever comes first.
    pub open spec fn distance_spec(self, other: Moment) -> int {
        let d = self.seconds_since_spec(other);
        if d < 0 {
            -d
        } else {
            d
        }
    }

    /// The number of seconds between two moments, whichever comes first.
    pub fn distance(self, other: Moment) -> (r: i128)
        ensures
            r == self.distance_spec(other),
            r >= 0,
    {
        let d: i128 = self.seconds_since(other);
        if d < 0 {
            -d
        } else {
            d
        }
    }

    /// Where the moment stands in the order of time.
    pub open spec fn order(self) -> int {
        self.secs * 0x1_0000_0000 + self.nanos
    }

    /// Where the moment stands in the order of time.
    pub fn order_key(self) -> (r: i128)
        ensures
            r == self.order(),
    {
        self.secs as i128 * 0x1_0000_0000 + self.nanos as i128
    }

    /// The moment a number of seconds later. Going on from within a leap second
    /// leaves it.
    pub open spec fn after(self, seconds: int) -> Moment {
        Moment {
            secs: (self.secs + seconds) as i64,
            nanos: if seconds == 0 || !self.in_leap_second() {
                self.nanos
            } else {
                (self.nanos - NANOS) as u32
            },
        }
    }

    /// The moment a number of seconds later.
    pub fn later(self, seconds: i64) -> (r: Moment)
        requires
            0 <= seconds,
            self.secs + seconds <= LAST_SECOND,
            self.nanos < 2 * NANOS,
        ensures
            r == self.after(seconds as int),
    {
        if seconds == 0 || (self.nanos as i128) < NANOS {
            Moment { secs: self.secs + seconds, nanos: self.nanos }
        } else {
            Moment { secs: self.secs + seconds, nanos: self.nanos - 1_000_000_000 }
        }
    }

    /// Milliseconds since the start of 1970. Within a leap second they run past
    /// the second.
    pub open spec fn millis_spec(self) -> int {
        self.secs * 1000 + self.nanos as int / 1_000_000
    }

    /// Milliseconds since the start of 1970.
    pub fn millis(self) -> (r: i64)
        ensures
            r == self.millis_spec() as i64,
    {
        let n: i128 = self.secs as i128 * 1000 + (self.nanos / 1_000_000) as i128;
        n as i64
    }
}

/// The moment that lies the given number of milliseconds after the start of
/// 1970, where the calendar has it.
pub open spec fn millis_moment(ms: int) -> Option<Moment> {
    let secs = ms / 1000;
    if FIRST_SECOND <= secs <= LAST_SECOND {
        Some(Moment { secs: secs as i64, nanos: (ms % 1000 * 1_000_000) as u32 })
    } else {
        None
    }
}

/// `chrono::DateTime::from_timestamp_millis`: the moment a number of
/// milliseconds after the start of 1970, or nothing where it lies outside the
/// calendar, which runs from the first day of year -262143 to the last of year
/// 262142.
#[verifier::external_body]
pub(crate) fn moment_from_millis(ms: i64) -> (r: Option<Moment>)
    ensures
        r == millis_moment(ms as int),
{
    let d = chrono::DateTime::<chrono::Utc>::from_timestamp_millis(ms)?;
    Some(Moment { secs: d.timestamp(), nanos: d.timestamp_subsec_nanos() })
}

/// A moment on a whole millisecond is found again from its milliseconds.
pub proof fn millis_read_back(m: Moment)
    requires
        FIRST_SECOND <= m.secs <= LAST_SECOND,
        m.nanos < NANOS,
        m.nanos % 1_000_000 == 0,
    ensures
        millis_moment(m.millis_spec()) == Some(m),
{
}

} // verus!
