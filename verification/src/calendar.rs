//! Calendar dates, wall-clock times and the local time zone.
//!
//! `Date` and `Time` hold plain values; the `chrono` crate decides which
//! dates exist, which weekday they fall on, and how local wall-clock times map
//! to Unix timestamps on this machine.
use chrono::{Datelike, Local, LocalResult, NaiveDate, NaiveTime, TimeZone, Timelike};
use vstd::prelude::*;

verus! {

/// Earliest year that `chrono::NaiveDate` represents.
pub open spec fn min_year() -> int {
    -262143
}

/// Latest year that `chrono::NaiveDate` represents.
pub open spec fn max_year() -> int {
    262142
}

/// Gregorian leap year.
pub open spec fn is_leap_year(y: int) -> bool {
    (y % 4 == 0 && y % 100 != 0) || y % 400 == 0
}

/// Number of days of a month of the proleptic Gregorian calendar.
pub open spec fn days_in_month(y: int, m: int) -> int {
    if m == 2 {
        if is_leap_year(y) {
            29
        } else {
            28
        }
    } else if m == 4 || m == 6 || m == 9 || m == 11 {
        30
    } else {
        31
    }
}

/// A calendar day that exists and that `chrono::NaiveDate` can represent.
pub open spec fn valid_ymd(y: int, m: int, d: int) -> bool {
    &&& min_year() <= y <= max_year()
    &&& 1 <= m <= 12
    &&& 1 <= d <= days_in_month(y, m)
}

/// Leap years among the years 1 to `n` (counted backwards for `n` below
/// zero), by the Gregorian rule.
pub open spec fn leap_years_through(n: int) -> int {
    n / 4 - n / 100 + n / 400
}

/// Days of the months before month `m` of year `y`.
pub open spec fn days_before_month(y: int, m: int) -> int {
    let before: int = if m == 1 {
        0
    } else if m == 2 {
        31
    } else if m == 3 {
        59
    } else if m == 4 {
        90
    } else if m == 5 {
        120
    } else if m == 6 {
        151
    } else if m == 7 {
        181
    } else if m == 8 {
        212
    } else if m == 9 {
        243
    } else if m == 10 {
        273
    } else if m == 11 {
        304
    } else {
        334
    };
    before + if m > 2 && is_leap_year(y) {
        1int
    } else {
        0int
    }
}

/// Days from 1 January 1970 to the day `d` (negative before it).
pub open spec fn days_from_epoch(d: (int, int, int)) -> int {
    365 * (d.0 - 1970) + leap_years_through(d.0 - 1) - leap_years_through(1969) + days_before_month(
        d.0,
        d.1,
    ) + d.2 - 1
}

/// The Unix timestamp that the wall-clock time `t` of day `d` would have in
/// UTC.
pub open spec fn wall_seconds(d: (int, int, int), t: (int, int, int)) -> int {
    days_from_epoch(d) * 86400 + t.0 * 3600 + t.1 * 60 + t.2
}

/// Two instants, in seconds, lie less than a day apart: what a time-zone
/// offset, which is under 24 hours, can make of one instant.
pub open spec fn within_a_day(a: int, b: int) -> bool {
    b - 86400 < a < b + 86400
}

/// The local calendar day `d` can be the day of the instant `ts`: the day
/// starts less than a day after `ts`, and ends less than a day before it.
pub open spec fn day_of_instant(d: (int, int, int), ts: int) -> bool {
    days_from_epoch(d) * 86400 - 86400 < ts < days_from_epoch(d) * 86400 + 2 * 86400
}

/// The instants whose local day and time `chrono` reads without leaving its
/// calendar, whatever the time zone: from 2 January of the first year it
/// represents to the start of 31 December of the last one, in UTC.
pub open spec fn in_local_range(ts: int) -> bool {
    days_from_epoch((min_year(), 1, 2)) * 86400 <= ts < days_from_epoch((max_year(), 12, 31)) * 86400
}

/// The instants that chrono's calendar holds: from the start of its first
/// day to the end of its last one, in UTC.
pub open spec fn in_timestamp_range(ts: int) -> bool {
    days_from_epoch((min_year(), 1, 1)) * 86400 <= ts < (days_from_epoch((max_year(), 12, 31)) + 1)
        * 86400
}

/// Offset of each month in the weekday computation.
pub open spec fn month_offset(m: int) -> int {
    if m == 1 {
        0
    } else if m == 2 {
        3
    } else if m == 3 {
        2
    } else if m == 4 {
        5
    } else if m == 5 {
        0
    } else if m == 6 {
        3
    } else if m == 7 {
        5
    } else if m == 8 {
        1
    } else if m == 9 {
        4
    } else if m == 10 {
        6
    } else if m == 11 {
        2
    } else {
        4
    }
}

/// Day of the week of a Gregorian date, counted from Sunday (0) to
/// Saturday (6).
pub open spec fn weekday_spec(y: int, m: int, d: int) -> int {
    let yy = if m < 3 {
        y - 1
    } else {
        y
    };
    (yy + yy / 4 - yy / 100 + yy / 400 + month_offset(m) + d) % 7
}

/// The calendar day after `(y, m, d)`.
pub open spec fn next_ymd(y: int, m: int, d: int) -> (int, int, int) {
    if d < days_in_month(y, m) {
        (y, m, d + 1)
    } else if m < 12 {
        (y, m + 1, 1)
    } else {
        (y + 1, 1, 1)
    }
}

/// A calendar date of the proleptic Gregorian calendar.
pub struct Date {
    year: i32,
    month: u32,
    day: u32,
    weekday: u32,
}

/// A wall-clock time of day, to the second.
pub struct Time {
    hour: u32,
    minute: u32,
    second: u32,
}

/// How a local wall-clock time maps to Unix timestamps here and now.
pub enum LocalLookup {
    /// The local time names one instant.
    Single(i64),
    /// The local time falls in a fold: its two instants, in no stated order.
    Ambiguous(i64, i64),
    /// The local time falls in a gap, or the time zone could not be read.
    Missing,
}

/// The current instant and the local calendar day it falls on.
pub struct LocalNow {
    pub timestamp: i64,
    pub today: Date,
}

impl View for Date {
    type V = (int, int, int);

    closed spec fn view(&self) -> (int, int, int) {
        (self.year as int, self.month as int, self.day as int)
    }
}

impl View for Time {
    type V = (int, int, int);

    closed spec fn view(&self) -> (int, int, int) {
        (self.hour as int, self.minute as int, self.second as int)
    }
}

impl Date {
    #[verifier::type_invariant]
    spec fn inv(self) -> bool {
        &&& valid_ymd(self.year as int, self.month as int, self.day as int)
        &&& self.weekday == weekday_spec(self.year as int, self.month as int, self.day as int)
    }

    /// The date with the given year, month and day, if that day exists.
    pub fn from_ymd(year: i32, month: u32, day: u32) -> (r: Option<Date>)
        ensures
            r is Some <==> valid_ymd(year as int, month as int, day as int),
            r matches Some(d) ==> d@ == (year as int, month as int, day as int),
    {
        match chrono_from_ymd(year, month, day) {
            Some((y, m, d, w)) => Some(Date { year: y, month: m, day: d, weekday: w }),
            None => None,
        }
    }

    /// The year.
    pub fn year(&self) -> (r: i32)
        ensures
            r == self@.0,
            valid_ymd(self@.0, self@.1, self@.2),
    {
        proof {
            use_type_invariant(self);
        }
        self.year
    }

    /// The month, from 1 to 12.
    pub fn month(&self) -> (r: u32)
        ensures
            r == self@.1,
            valid_ymd(self@.0, self@.1, self@.2),
    {
        proof {
            use_type_invariant(self);
        }
        self.month
    }

    /// The day of the month, from 1.
    pub fn day(&self) -> (r: u32)
        ensures
            r == self@.2,
            valid_ymd(self@.0, self@.1, self@.2),
    {
        proof {
            use_type_invariant(self);
        }
        self.day
    }

    /// The day of the week, counted from Sunday (0) to Saturday (6).
    pub fn weekday(&self) -> (r: u32)
        ensures
            r == weekday_spec(self@.0, self@.1, self@.2),
            r < 7,
    {
        proof {
            use_type_invariant(self);
        }
        self.weekday
    }

    /// A copy of the date.
    pub fn copy(&self) -> (r: Date)
        ensures
            r@ == self@,
    {
        proof {
            use_type_invariant(self);
        }
        Date { year: self.year, month: self.month, day: self.day, weekday: self.weekday }
    }

    /// Whether two dates are the same day.
    pub fn same_day(&self, other: &Date) -> (r: bool)
        ensures
            r == (self@ == other@),
    {
        self.year == other.year && self.month == other.month && self.day == other.day
    }

    /// The following calendar day; `None` only after the last representable
    /// day.
    pub fn next_day(&self) -> (r: Option<Date>)
        ensures
            r matches Some(n) ==> n@ == next_ymd(self@.0, self@.1, self@.2),
            r is None <==> !valid_ymd(
                next_ymd(self@.0, self@.1, self@.2).0,
                next_ymd(self@.0, self@.1, self@.2).1,
                next_ymd(self@.0, self@.1, self@.2).2,
            ),
    {
        proof {
            use_type_invariant(self);
        }
        let last = days_in_month_exec(self.year, self.month);
        if self.day < last {
            Date::from_ymd(self.year, self.month, self.day + 1)
        } else if self.month < 12 {
            Date::from_ymd(self.year, self.month + 1, 1)
        } else if self.year < 262142 {
            Date::from_ymd(self.year + 1, 1, 1)
        } else {
            None
        }
    }
}

impl Time {
    #[verifier::type_invariant]
    spec fn inv(self) -> bool {
        self.hour < 24 && self.minute < 60 && self.second < 60
    }

    /// The time of day with the given hour, minute and second, if it exists
    /// (`NaiveTime::from_hms_opt` without leap seconds).
    pub fn from_hms(hour: u32, minute: u32, second: u32) -> (r: Option<Time>)
        ensures
            r is Some <==> (hour < 24 && minute < 60 && second < 60),
            r matches Some(t) ==> t@ == (hour as int, minute as int, second as int),
    {
        if hour < 24 && minute < 60 && second < 60 {
            Some(Time { hour, minute, second })
        } else {
            None
        }
    }

    /// The hour, from 0 to 23.
    pub fn hour(&self) -> (r: u32)
        ensures
            r == self@.0,
            r < 24,
    {
        proof {
            use_type_invariant(self);
        }
        self.hour
    }

    /// The minute, from 0 to 59.
    pub fn minute(&self) -> (r: u32)
        ensures
            r == self@.1,
            r < 60,
    {
        proof {
            use_type_invariant(self);
        }
        self.minute
    }

    /// The second, from 0 to 59.
    pub fn second(&self) -> (r: u32)
        ensures
            r == self@.2,
            r < 60,
    {
        proof {
            use_type_invariant(self);
        }
        self.second
    }

    /// A copy of the time.
    pub fn copy(&self) -> (r: Time)
        ensures
            r@ == self@,
    {
        proof {
            use_type_invariant(self);
        }
        Time { hour: self.hour, minute: self.minute, second: self.second }
    }

    /// Whether two times of day are equal.
    pub fn same_time(&self, other: &Time) -> (r: bool)
        ensures
            r == (self@ == other@),
    {
        self.hour == other.hour && self.minute == other.minute && self.second == other.second
    }
}

/// Number of days of a month.
fn days_in_month_exec(year: i32, month: u32) -> (r: u32)
    ensures
        r == days_in_month(year as int, month as int),
{
    if month == 2 {
        if (year % 4 == 0 && year % 100 != 0) || year % 400 == 0 {
            29
        } else {
            28
        }
    } else if month == 4 || month == 6 || month == 9 || month == 11 {
        30
    } else {
        31
    }
}

/// `NaiveDate::from_ymd_opt`, read back as year, month, day and weekday.
/// chrono documents that it returns `None` exactly when the day does not
/// exist or the year is out of its range, and that its calendar is the
/// proleptic Gregorian one; the weekday is `weekday().num_days_from_sunday()`.
#[verifier::external_body]
fn chrono_from_ymd(year: i32, month: u32, day: u32) -> (r: Option<(i32, u32, u32, u32)>)
    ensures
        r is Some <==> valid_ymd(year as int, month as int, day as int),
        r matches Some(t) ==> {
            &&& t.0 == year
            &&& t.1 == month
            &&& t.2 == day
            &&& t.3 == weekday_spec(year as int, month as int, day as int)
        },
{
    match NaiveDate::from_ymd_opt(year, month, day) {
        Some(d) => Some((d.year(), d.month(), d.day(), d.weekday().num_days_from_sunday())),
        None => None,
    }
}

/// `Local::now()`, read back as its Unix timestamp and its local calendar
/// day. Both come from one reading of the clock; nothing is said of which
/// instant that is. The local day is that of the UTC instant moved by the
/// zone's offset, which chrono keeps under 24 hours (`FixedOffset`), so the
/// day is one the timestamp can fall on; which one is the machine's time zone.
#[verifier::external_body]
fn chrono_local_now() -> (r: (i64, (i32, u32, u32, u32)))
    ensures
        valid_ymd(r.1.0 as int, r.1.1 as int, r.1.2 as int),
        r.1.3 == weekday_spec(r.1.0 as int, r.1.1 as int, r.1.2 as int),
        day_of_instant((r.1.0 as int, r.1.1 as int, r.1.2 as int), r.0 as int),
{
    let now = Local::now();
    let d = now.date_naive();
    (now.timestamp(), (d.year(), d.month(), d.day(), d.weekday().num_days_from_sunday()))
}

/// `Local.from_local_datetime` on the given day and time, read back as Unix
/// timestamps. Which case comes back depends on the machine's time zone and
/// is not stated, nor the order of the two instants of an ambiguous time;
/// each instant is the local time less the zone's offset, a `FixedOffset` of
/// under 24 hours.
#[verifier::external_body]
fn chrono_local_lookup(date: &Date, time: &Time) -> (r: LocalLookup)
    ensures
        r matches LocalLookup::Single(t) ==> within_a_day(t as int, wall_seconds(date@, time@)),
        r matches LocalLookup::Ambiguous(a, b) ==> within_a_day(
            a as int,
            wall_seconds(date@, time@),
        ) && within_a_day(b as int, wall_seconds(date@, time@)),
{
    let naive = NaiveDate::from_ymd_opt(date.year, date.month, date.day).unwrap().and_time(
        NaiveTime::from_hms_opt(time.hour, time.minute, time.second).unwrap(),
    );
    match Local.from_local_datetime(&naive) {
        LocalResult::Single(t) => LocalLookup::Single(t.timestamp()),
        LocalResult::Ambiguous(a, b) => LocalLookup::Ambiguous(a.timestamp(), b.timestamp()),
        LocalResult::None => LocalLookup::Missing,
    }
}

/// `Local.timestamp_opt(ts, 0).single()`, read back as the local time of day
/// (`DateTime::time`) and, when it stays inside chrono's calendar, the local
/// calendar day (the UTC date and time moved by the zone's offset with
/// `NaiveDateTime::checked_add_offset`, the value `date_naive` gives where it
/// does not panic). `timestamp_opt` gives one value exactly for the instants
/// of chrono's calendar. The local values are the UTC instant moved by the
/// zone's offset, a `FixedOffset` of under 24 hours; which offset is the
/// machine's time zone and is not stated, so neither is the time of day
/// beyond its ranges, nor whether the day is given near the ends of the
/// calendar.
#[verifier::external_body]
fn chrono_local_at(ts: i64) -> (r: Option<(Option<(i32, u32, u32, u32)>, (u32, u32, u32))>)
    ensures
        r is Some <==> in_timestamp_range(ts as int),
        in_local_range(ts as int) ==> r is Some && r.unwrap().0 is Some,
        r matches Some(v) ==> v.1.0 < 24 && v.1.1 < 60 && v.1.2 < 60,
        r matches Some(v) ==> (v.0 matches Some(dd) ==> ({
            &&& valid_ymd(dd.0 as int, dd.1 as int, dd.2 as int)
            &&& dd.3 == weekday_spec(dd.0 as int, dd.1 as int, dd.2 as int)
            &&& within_a_day(
                wall_seconds(
                    (dd.0 as int, dd.1 as int, dd.2 as int),
                    (v.1.0 as int, v.1.1 as int, v.1.2 as int),
                ),
                ts as int,
            )
        })),
{
    match Local.timestamp_opt(ts, 0).single() {
        Some(t) => {
            let day = match t.naive_utc().checked_add_offset(*t.offset()) {
                Some(local) => {
                    let d = local.date();
                    Some((d.year(), d.month(), d.day(), d.weekday().num_days_from_sunday()))
                },
                None => None,
            };
            Some((day, (t.hour(), t.minute(), t.second())))
        },
        None => None,
    }
}

/// The current instant and today's local date.
pub fn local_now() -> (r: LocalNow)
    ensures
        day_of_instant(r.today@, r.timestamp as int),
{
    let (timestamp, (y, m, d, w)) = chrono_local_now();
    LocalNow { timestamp, today: Date { year: y, month: m, day: d, weekday: w } }
}

/// How the local wall-clock time `date` at `time` maps to instants.
pub fn local_lookup(date: &Date, time: &Time) -> (r: LocalLookup)
    ensures
        r matches LocalLookup::Single(t) ==> within_a_day(t as int, wall_seconds(date@, time@)),
        r matches LocalLookup::Ambiguous(a, b) ==> within_a_day(
            a as int,
            wall_seconds(date@, time@),
        ) && within_a_day(b as int, wall_seconds(date@, time@)),
{
    chrono_local_lookup(date, time)
}

/// The local calendar day and time of day of a Unix timestamp, when chrono
/// can read the day: always away from the ends of its calendar; near them,
/// as the time zone's offset allows.
pub fn local_date_time_at(ts: i64) -> (r: Option<(Date, Time)>)
    ensures
        in_local_range(ts as int) ==> r is Some,
        r is Some ==> in_timestamp_range(ts as int),
        r matches Some((d, t)) ==> within_a_day(wall_seconds(d@, t@), ts as int) && day_of_instant(
            d@,
            ts as int,
        ),
{
    match chrono_local_at(ts) {
        Some((Some((y, m, d, w)), (h, mi, s))) => Some(
            (
                Date { year: y, month: m, day: d, weekday: w },
                Time { hour: h, minute: mi, second: s },
            ),
        ),
        _ => None,
    }
}

/// The local time of day of a Unix timestamp, for every instant of chrono's
/// calendar.
pub fn local_time_at(ts: i64) -> (r: Option<Time>)
    ensures
        r is Some <==> in_timestamp_range(ts as int),
{
    match chrono_local_at(ts) {
        Some((_, (h, mi, s))) => Some(Time { hour: h, minute: mi, second: s }),
        None => None,
    }
}

/// The instant a lookup resolves to: the only one, or the earlier of two.
pub open spec fn resolve_lookup_spec(l: LocalLookup) -> Option<int> {
    match l {
        LocalLookup::Single(t) => Some(t as int),
        LocalLookup::Ambiguous(a, b) => Some(
            if a <= b {
                a as int
            } else {
                b as int
            },
        ),
        LocalLookup::Missing => None,
    }
}

/// Resolves a lookup to one instant: the only one, or the earlier of the two
/// in a fold; none in a gap.
pub fn resolve_lookup(l: &LocalLookup) -> (r: Option<i64>)
    ensures
        r matches Some(t) ==> resolve_lookup_spec(*l) == Some(t as int),
        r is None <==> resolve_lookup_spec(*l) is None,
{
    match l {
        LocalLookup::Single(t) => Some(*t),
        LocalLookup::Ambiguous(a, b) => Some(
            if *a <= *b {
                *a
            } else {
                *b
            },
        ),
        LocalLookup::Missing => None,
    }
}

/// The Unix timestamp of a local wall-clock time on a given day, if the local
/// time zone has one (the earlier one in a fold).
pub fn local_timestamp(date: &Date, time: &Time) -> (r: Option<i64>)
    ensures
        r matches Some(t) ==> within_a_day(t as int, wall_seconds(date@, time@)),
{
    let lookup = local_lookup(date, time);
    resolve_lookup(&lookup)
}

} // verus!
