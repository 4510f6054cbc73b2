//! Readable renderings of dates and times, as they replace typed ones in a
//! note ("Wednesday June 10th, 2026", "9:30 PM").
use crate::calendar::{weekday_spec, Date, Time};
use crate::text::{decimal, push_decimal, push_signed_decimal, push_str, signed_decimal};
use vstd::prelude::*;

verus! {

/// English name of a weekday counted from Sunday (0).
pub open spec fn weekday_name_spec(i: int) -> Seq<char> {
    if i == 0 {
        "Sunday"@
    } else if i == 1 {
        "Monday"@
    } else if i == 2 {
        "Tuesday"@
    } else if i == 3 {
        "Wednesday"@
    } else if i == 4 {
        "Thursday"@
    } else if i == 5 {
        "Friday"@
    } else {
        "Saturday"@
    }
}

/// English name of a month (1 to 12); the empty text for 0.
pub open spec fn month_name_spec(m: int) -> Seq<char> {
    if m == 1 {
        "January"@
    } else if m == 2 {
        "February"@
    } else if m == 3 {
        "March"@
    } else if m == 4 {
        "April"@
    } else if m == 5 {
        "May"@
    } else if m == 6 {
        "June"@
    } else if m == 7 {
        "July"@
    } else if m == 8 {
        "August"@
    } else if m == 9 {
        "September"@
    } else if m == 10 {
        "October"@
    } else if m == 11 {
        "November"@
    } else if m == 12 {
        "December"@
    } else {
        ""@
    }
}

/// English ordinal suffix of a day number: "st", "nd", "rd" or "th".
pub open spec fn ordinal_suffix(day: int) -> Seq<char> {
    if 11 <= day % 100 <= 13 {
        "th"@
    } else if day % 10 == 1 {
        "st"@
    } else if day % 10 == 2 {
        "nd"@
    } else if day % 10 == 3 {
        "rd"@
    } else {
        "th"@
    }
}

/// A day number followed by its ordinal suffix ("1st", "12th", "23rd").
pub open spec fn ordinal_spec(day: nat) -> Seq<char> {
    decimal(day) + ordinal_suffix(day as int)
}

/// "Weekday Month Nth, Year".
pub open spec fn format_date_spec(d: (int, int, int)) -> Seq<char> {
    weekday_name_spec(weekday_spec(d.0, d.1, d.2)) + " "@ + month_name_spec(d.1) + " "@
        + ordinal_spec(d.2 as nat) + ", "@ + signed_decimal(d.0)
}

/// Hour on a 12-hour clock (12 for midnight and noon).
pub open spec fn hour12(h: int) -> int {
    if h % 12 == 0 {
        12
    } else {
        h % 12
    }
}

/// A number below 100 written with at least two digits.
pub open spec fn two_digits(n: nat) -> Seq<char> {
    if n < 10 {
        "0"@ + decimal(n)
    } else {
        decimal(n)
    }
}

/// "H:MM AM" or "H:MM PM".
pub open spec fn format_time_spec(t: (int, int, int)) -> Seq<char> {
    decimal(hour12(t.0) as nat) + ":"@ + two_digits(t.1 as nat) + " "@ + (if t.0 >= 12 {
        "PM"@
    } else {
        "AM"@
    })
}

/// English name of a weekday counted from Sunday (0).
pub fn weekday_name(index: u32) -> (r: &'static str)
    requires
        index < 7,
    ensures
        r@ == weekday_name_spec(index as int),
{
    if index == 0 {
        "Sunday"
    } else if index == 1 {
        "Monday"
    } else if index == 2 {
        "Tuesday"
    } else if index == 3 {
        "Wednesday"
    } else if index == 4 {
        "Thursday"
    } else if index == 5 {
        "Friday"
    } else {
        "Saturday"
    }
}

/// English name of a month (1 to 12); the empty text for 0.
pub fn month_name(month: u32) -> (r: &'static str)
    requires
        month <= 12,
    ensures
        r@ == month_name_spec(month as int),
{
    if month == 1 {
        "January"
    } else if month == 2 {
        "February"
    } else if month == 3 {
        "March"
    } else if month == 4 {
        "April"
    } else if month == 5 {
        "May"
    } else if month == 6 {
        "June"
    } else if month == 7 {
        "July"
    } else if month == 8 {
        "August"
    } else if month == 9 {
        "September"
    } else if month == 10 {
        "October"
    } else if month == 11 {
        "November"
    } else if month == 12 {
        "December"
    } else {
        ""
    }
}

/// A day number followed by its English ordinal suffix.
pub fn ordinal(day: u32) -> (r: String)
    ensures
        r@ == ordinal_spec(day as nat),
{
    let tens = day % 100;
    let ones = day % 10;
    let suffix = if 11 <= tens && tens <= 13 {
        "th"
    } else if ones == 1 {
        "st"
    } else if ones == 2 {
        "nd"
    } else if ones == 3 {
        "rd"
    } else {
        "th"
    };
    let mut out = String::new();
    push_decimal(&mut out, day as u64);
    push_str(&mut out, suffix);
    assert(out@ =~= ordinal_spec(day as nat));
    out
}

/// The readable form of a date: "Wednesday June 10th, 2026".
pub fn format_date(date: &Date) -> (r: String)
    ensures
        r@ == format_date_spec(date@),
{
    let year = date.year();
    let month = date.month();
    let day = date.day();
    let mut out = String::new();
    push_str(&mut out, weekday_name(date.weekday()));
    push_str(&mut out, " ");
    push_str(&mut out, month_name(month));
    push_str(&mut out, " ");
    let ord = ordinal(day);
    push_str(&mut out, ord.as_str());
    push_str(&mut out, ", ");
    push_signed_decimal(&mut out, year as i64);
    assert(out@ =~= format_date_spec(date@));
    out
}

/// The readable form of a time of day: "9:30 PM".
pub fn format_time(time: &Time) -> (r: String)
    ensures
        r@ == format_time_spec(time@),
{
    let hour = time.hour();
    let minute = time.minute();
    let suffix = if hour >= 12 {
        "PM"
    } else {
        "AM"
    };
    let h = if hour % 12 == 0 {
        12
    } else {
        hour % 12
    };
    let mut out = String::new();
    push_decimal(&mut out, h as u64);
    push_str(&mut out, ":");
    if minute < 10 {
        push_str(&mut out, "0");
    }
    push_decimal(&mut out, minute as u64);
    push_str(&mut out, " ");
    push_str(&mut out, suffix);
    assert(out@ =~= format_time_spec(time@));
    out
}

/// The English names of the months, January first.
pub open spec fn english_month_names() -> Seq<Seq<char>> {
    seq![
        "January"@,
        "February"@,
        "March"@,
        "April"@,
        "May"@,
        "June"@,
        "July"@,
        "August"@,
        "September"@,
        "October"@,
        "November"@,
        "December"@,
    ]
}

/// The English names of the weekdays, Sunday first.
pub open spec fn english_weekday_names() -> Seq<Seq<char>> {
    seq!["Sunday"@, "Monday"@, "Tuesday"@, "Wednesday"@, "Thursday"@, "Friday"@, "Saturday"@]
}

/// Month `m` of the year (1 to 12) is named by its English name, the `m`-th
/// of the calendar's months.
pub proof fn lemma_month_names(m: int)
    requires
        1 <= m <= 12,
    ensures
        month_name_spec(m) == english_month_names()[m - 1],
{
}

/// Weekday `i` counted from Sunday (0 to 6) is named by its English name, the
/// `i`-th day of the week from Sunday.
pub proof fn lemma_weekday_names(i: int)
    requires
        0 <= i < 7,
    ensures
        weekday_name_spec(i) == english_weekday_names()[i],
{
}

} // verus!
