//! Dates and timestamps for page ordering.
//!
//! A `Date` is a plain calendar date (year, month, day). A `Timestamp` is a
//! count of seconds and nanoseconds since 1970-01-01T00:00:00 UTC. A date is
//! placed on the timestamp scale at midnight UTC through proleptic Gregorian
//! day counting, so dates taken from metadata and timestamps taken from the
//! filesystem order consistently.
use vstd::prelude::*;

use chrono::Datelike;

verus! {

/// The mathematical value of a `Date`.
pub ghost struct DateView {
    pub year: int,
    pub month: int,
    pub day: int,
}

/// A calendar date in the proleptic Gregorian calendar.
#[derive(Clone, Copy, PartialEq, Eq, Structural, Debug)]
pub struct Date {
    pub year: i32,
    pub month: u8,
    pub day: u8,
}

impl View for Date {
    type V = DateView;

    open spec fn view(&self) -> DateView {
        DateView { year: self.year as int, month: self.month as int, day: self.day as int }
    }
}

/// The ranges within which every parsed date lies: the year bounds are the
/// ones chrono documents for `NaiveDate`.
pub open spec fn date_in_range(d: DateView) -> bool {
    &&& -262143 <= d.year <= 262142
    &&& 1 <= d.month <= 12
    &&& 1 <= d.day <= 31
}

/// The mathematical value of a `Timestamp`.
pub ghost struct TimeView {
    pub secs: int,
    pub nanos: int,
}

/// Seconds and nanoseconds since 1970-01-01T00:00:00 UTC.
#[derive(Clone, Copy, PartialEq, Eq, Structural, Debug)]
pub struct Timestamp {
    pub secs: i64,
    pub nanos: u32,
}

impl View for Timestamp {
    type V = TimeView;

    open spec fn view(&self) -> TimeView {
        TimeView { secs: self.secs as int, nanos: self.nanos as int }
    }
}

/// Timestamp order: by seconds, then by nanoseconds.
pub open spec fn ts_le(a: TimeView, b: TimeView) -> bool {
    a.secs < b.secs || (a.secs == b.secs && a.nanos <= b.nanos)
}

/// Decides `ts_le` on concrete timestamps.
pub fn timestamp_le(a: &Timestamp, b: &Timestamp) -> (r: bool)
    ensures
        r == ts_le(a@, b@),
{
    a.secs < b.secs || (a.secs == b.secs && a.nanos <= b.nanos)
}

/// A leap year of the proleptic Gregorian calendar.
pub open spec fn is_leap_year(y: int) -> bool {
    y % 4 == 0 && (y % 100 != 0 || y % 400 == 0)
}

pub open spec fn days_in_year(y: int) -> int {
    if is_leap_year(y) {
        366
    } else {
        365
    }
}

pub open spec fn days_in_month(y: int, m: int) -> int {
    if m == 2 {
        if is_leap_year(y) {
            29
        } else {
            28
        }
    } else if m == 4 || m == 6 || m == 9 || m == 11 {
        30
    } else {
        31
    }
}

/// Days from 1970-01-01 to the first day of year `y` (negative for years
/// before 1970).
pub open spec fn days_before_year(y: int) -> int
    decreases (if y >= 1970 {
        y - 1970
    } else {
        1970 - y
    }),
{
    if y == 1970 {
        0
    } else if y > 1970 {
        days_before_year(y - 1) + days_in_year(y - 1)
    } else {
        days_before_year(y + 1) - days_in_year(y)
    }
}

/// Days from the first day of year `y` to the first day of its month `m`.
pub open spec fn days_before_month(y: int, m: int) -> int
    decreases m,
{
    if m <= 1 {
        0
    } else {
        days_before_month(y, m - 1) + days_in_month(y, m - 1)
    }
}

/// Days from 1970-01-01 to the date `d`.
pub open spec fn epoch_days(d: DateView) -> int {
    days_before_year(d.year) + days_before_month(d.year, d.month) + d.day - 1
}

/// The timestamp of midnight UTC on the date `d`.
pub open spec fn date_timestamp(d: DateView) -> TimeView {
    TimeView { secs: 86400 * epoch_days(d), nanos: 0 }
}

proof fn lemma_days_before_year_bound(y: int)
    ensures
        y >= 1970 ==> 0 <= days_before_year(y) <= 366 * (y - 1970),
        y < 1970 ==> -366 * (1970 - y) <= days_before_year(y) <= 0,
    decreases (if y >= 1970 {
        y - 1970
    } else {
        1970 - y
    }),
{
    if y > 1970 {
        lemma_days_before_year_bound(y - 1);
    } else if y < 1970 {
        lemma_days_before_year_bound(y + 1);
    }
}

/// Decides `is_leap_year` for any year in chrono's range.
pub fn is_leap(y: i32) -> (r: bool)
    requires
        -262143 <= y <= 262142,
    ensures
        r == is_leap_year(y as int),
{
    let z: i32 = y + 262400;
    proof {
        assert((y as int + 262400) % 4 == y as int % 4) by (nonlinear_arith);
        assert((y as int + 262400) % 100 == y as int % 100) by (nonlinear_arith);
        assert((y as int + 262400) % 400 == y as int % 400) by (nonlinear_arith);
    }
    z % 4 == 0 && (z % 100 != 0 || z % 400 == 0)
}

fn days_in_year_exec(y: i32) -> (r: i64)
    requires
        -262143 <= y <= 262142,
    ensures
        r == days_in_year(y as int),
{
    if is_leap(y) {
        366
    } else {
        365
    }
}

fn days_in_month_exec(y: i32, m: u8) -> (r: i64)
    requires
        -262143 <= y <= 262142,
    ensures
        r == days_in_month(y as int, m as int),
{
    if m == 2 {
        if is_leap(y) {
            29
        } else {
            28
        }
    } else if m == 4 || m == 6 || m == 9 || m == 11 {
        30
    } else {
        31
    }
}

/// The timestamp of midnight UTC on the date `d`.
pub fn date_to_timestamp(d: &Date) -> (r: Timestamp)
    requires
        date_in_range(d@),
    ensures
        r@ == date_timestamp(d@),
{
    let mut days: i64 = 0;
    if d.year >= 1970 {
        let mut y: i32 = 1970;
        while y < d.year
            invariant
                1970 <= y <= d.year <= 262142,
                days == days_before_year(y as int),
            decreases d.year - y,
        {
            proof {
                lemma_days_before_year_bound(y as int);
                lemma_days_before_year_bound(y as int + 1);
            }
            days = days + days_in_year_exec(y);
            y = y + 1;
        }
    } else {
        let mut y: i32 = 1970;
        while y > d.year
            invariant
                -262143 <= d.year <= y <= 1970,
                days == days_before_year(y as int),
            decreases y - d.year,
        {
            proof {
                lemma_days_before_year_bound(y as int);
                lemma_days_before_year_bound(y as int - 1);
            }
            y = y - 1;
            days = days - days_in_year_exec(y);
        }
    }
    proof {
        lemma_days_before_year_bound(d.year as int);
    }
    let mut m: u8 = 1;
    let mut mdays: i64 = 0;
    while m < d.month
        invariant
            1 <= m <= d.month <= 12,
            -262143 <= d.year <= 262142,
            mdays == days_before_month(d.year as int, m as int),
            0 <= mdays <= 31 * (m - 1),
        decreases d.month - m,
    {
        mdays = mdays + days_in_month_exec(d.year, m);
        m = m + 1;
    }
    let total: i64 = days + mdays + (d.day as i64) - 1;
    Timestamp { secs: 86400 * total, nanos: 0 }
}

/// What chrono's date parser returns for a string, as a plain date.
pub uninterp spec fn date_of_str(s: Seq<char>) -> Option<DateView>;

/// Relies on chrono's `str::parse::<NaiveDate>` (the `%Y-%m-%d` format) and
/// the `Datelike` accessors `year`, `month` and `day`: parsing depends on the
/// characters alone, and a parsed date has its month in 1..=12, its day in
/// 1..=31 and its year within the range chrono documents for `NaiveDate`.
#[verifier::external_body]
pub(crate) fn parse_date(s: &str) -> (r: Option<Date>)
    ensures
        (r is Some) == (date_of_str(s@) is Some),
        r matches Some(d) ==> date_of_str(s@) == Some(d@) && date_in_range(d@),
{
    match s.parse::<chrono::NaiveDate>() {
        Ok(d) => Some(
            Date { year: d.year(), month: d.month() as u8, day: d.day() as u8 },
        ),
        Err(_) => None,
    }
}

} // verus!
