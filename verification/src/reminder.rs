//! Reminders: when they are due, and how they are kept without duplicates.
use crate::calendar::{
    day_of_instant, in_local_range, in_timestamp_range, local_date_time_at, local_now, local_time_at,
    local_timestamp, next_ymd, wall_seconds, within_a_day, Date, LocalNow, Time,
};
use crate::text::{contains_chars, seq_contains, string_from};
use vstd::prelude::*;

verus! {

/// A reminder of a note: when it is due (Unix seconds), the readable date and
/// time it was typed as, and the line of the note it belongs to.
pub struct Reminder {
    pub due_at: i64,
    pub date_text: Option<String>,
    pub time_text: Option<String>,
    pub body: Option<String>,
}

/// A reminder as plain values.
pub type ReminderV = (int, Option<Seq<char>>, Option<Seq<char>>, Option<Seq<char>>);

/// The characters of an optional string.
pub open spec fn opt_chars(o: Option<String>) -> Option<Seq<char>> {
    match o {
        Some(s) => Some(s@),
        None => None,
    }
}

impl View for Reminder {
    type V = ReminderV;

    open spec fn view(&self) -> ReminderV {
        (self.due_at as int, opt_chars(self.date_text), opt_chars(self.time_text), opt_chars(self.body))
    }
}

/// Reminders as plain values.
pub open spec fn reminders_view(rs: Seq<Reminder>) -> Seq<ReminderV> {
    rs.map_values(|r: Reminder| r@)
}

/// `x` added at the end unless it is already there.
pub open spec fn push_unique<A>(s: Seq<A>, x: A) -> Seq<A> {
    if s.contains(x) {
        s
    } else {
        s.push(x)
    }
}

/// A copy of an optional string.
pub fn copy_opt_string(o: &Option<String>) -> (r: Option<String>)
    ensures
        opt_chars(r) == opt_chars(*o),
{
    match o {
        Some(s) => Some(s.clone()),
        None => None,
    }
}

/// Whether two optional strings are equal.
pub fn opt_string_eq(a: &Option<String>, b: &Option<String>) -> (r: bool)
    ensures
        r == (opt_chars(*a) == opt_chars(*b)),
{
    match (a, b) {
        (Some(x), Some(y)) => *x == *y,
        (None, None) => true,
        _ => false,
    }
}

impl Reminder {
    /// A copy of the reminder.
    pub fn copy(&self) -> (r: Reminder)
        ensures
            r@ == self@,
    {
        Reminder {
            due_at: self.due_at,
            date_text: copy_opt_string(&self.date_text),
            time_text: copy_opt_string(&self.time_text),
            body: copy_opt_string(&self.body),
        }
    }

    /// Whether two reminders are equal in every field.
    pub fn same_as(&self, other: &Reminder) -> (r: bool)
        ensures
            r == (self@ == other@),
    {
        self.due_at == other.due_at && opt_string_eq(&self.date_text, &other.date_text)
            && opt_string_eq(&self.time_text, &other.time_text) && opt_string_eq(
            &self.body,
            &other.body,
        )
    }
}

/// Adds a reminder unless an equal one is already in the list.
pub fn push_reminder(reminders: &mut Vec<Reminder>, reminder: Reminder)
    ensures
        reminders_view(final(reminders)@) == push_unique(reminders_view(old(reminders)@), reminder@),
{
    let ghost old_view = reminders_view(reminders@);
    let mut i: usize = 0;
    while i < reminders.len()
        invariant
            i <= reminders.len(),
            old_view == reminders_view(reminders@),
            forall|k: int| 0 <= k < i ==> old_view[k] != reminder@,
        decreases reminders.len() - i,
    {
        if reminders[i].same_as(&reminder) {
            assert(old_view[i as int] == reminder@);
            assert(old_view.contains(reminder@));
            return;
        }
        i = i + 1;
    }
    assert(!old_view.contains(reminder@));
    reminders.push(reminder);
    assert(reminders_view(reminders@) =~= old_view.push(reminder@));
}

/// Moves a reminder saved in the older single-reminder form into the list of
/// reminders when that list is empty; the older form is dropped in any case.
pub fn migrate_note_reminders(reminders: &mut Vec<Reminder>, legacy_reminder: &mut Option<Reminder>)
    ensures
        *final(legacy_reminder) is None,
        old(reminders).len() == 0 && *old(legacy_reminder) is Some ==> reminders_view(
            final(reminders)@,
        ) == seq![old(legacy_reminder).unwrap()@],
        !(old(reminders).len() == 0 && *old(legacy_reminder) is Some) ==> reminders_view(
            final(reminders)@,
        ) == reminders_view(old(reminders)@),
{
    if reminders.len() == 0 {
        if let Some(reminder) = legacy_reminder.take() {
            reminders.push(reminder);
            assert(reminders_view(reminders@) =~= seq![old(legacy_reminder).unwrap()@]);
        }
    } else {
        *legacy_reminder = None;
    }
}

/// The local wall-clock time at which a reminder typed with this date and
/// this time is due: the typed day (today when only a time was typed) at the
/// typed time (9:00 AM when only a date was typed).
pub open spec fn wall_clock_spec(
    date: Option<(int, int, int)>,
    time: Option<(int, int, int)>,
    today: (int, int, int),
) -> Option<((int, int, int), (int, int, int))> {
    if date is None && time is None {
        None
    } else {
        Some(
            (
                match date {
                    Some(d) => d,
                    None => today,
                },
                match time {
                    Some(t) => t,
                    None => (9, 0, 0),
                },
            ),
        )
    }
}

/// The time of day a dated reminder is due at: the typed time, or 9:00 AM.
pub open spec fn dated_time(time: Option<(int, int, int)>) -> (int, int, int) {
    match time {
        Some(t) => t,
        None => (9, 0, 0),
    }
}

/// A date as plain values, if any.
pub open spec fn opt_date(d: Option<Date>) -> Option<(int, int, int)> {
    match d {
        Some(x) => Some(x@),
        None => None,
    }
}

/// A time as plain values, if any.
pub open spec fn opt_time(t: Option<Time>) -> Option<(int, int, int)> {
    match t {
        Some(x) => Some(x@),
        None => None,
    }
}

/// The local wall-clock day and time a reminder is first looked up at.
pub fn reminder_wall_clock(date: &Option<Date>, time: &Option<Time>, today: &Date) -> (r: Option<
    (Date, Time),
>)
    ensures
        r matches Some((d, t)) ==> wall_clock_spec(opt_date(*date), opt_time(*time), today@) == Some(
            (d@, t@),
        ),
        r is None <==> wall_clock_spec(opt_date(*date), opt_time(*time), today@) is None,
{
    let day = match date {
        Some(d) => d.copy(),
        None => today.copy(),
    };
    match time {
        Some(t) => Some((day, t.copy())),
        None => {
            if date.is_none() {
                None
            } else {
                match Time::from_hms(9, 0, 0) {
                    Some(t) => Some((day, t)),
                    None => None,
                }
            }
        },
    }
}

/// When a reminder is due, given the current instant, the instant of its
/// wall-clock time (`first`) and, for a reminder typed without a date, the
/// instant of that time on the following day (`next_day`): a dated reminder
/// is due at `first`; an undated one at `first` if that is still ahead, else
/// at `next_day`; in every case only if that is after `now`.
pub open spec fn choose_due_at_spec(
    has_date: bool,
    now: int,
    first: Option<int>,
    next_day: Option<int>,
) -> Option<int> {
    let candidate = if has_date {
        first
    } else {
        match first {
            Some(t) => if t > now {
                Some(t)
            } else {
                next_day
            },
            None => None,
        }
    };
    match candidate {
        Some(t) => if t > now {
            Some(t)
        } else {
            None
        },
        None => None,
    }
}

/// When a reminder is due, from the current instant and the instants its
/// wall-clock time names (see `choose_due_at_spec`).
pub fn choose_due_at(has_date: bool, now: i64, first: Option<i64>, next_day: Option<i64>) -> (r:
    Option<i64>)
    ensures
        r matches Some(t) ==> choose_due_at_spec(
            has_date,
            now as int,
            match first {
                Some(x) => Some(x as int),
                None => None,
            },
            match next_day {
                Some(x) => Some(x as int),
                None => None,
            },
        ) == Some(t as int),
        r is None <==> choose_due_at_spec(
            has_date,
            now as int,
            match first {
                Some(x) => Some(x as int),
                None => None,
            },
            match next_day {
                Some(x) => Some(x as int),
                None => None,
            },
        ) is None,
{
    let candidate = if has_date {
        first
    } else {
        match first {
            Some(t) => if t > now {
                Some(t)
            } else {
                next_day
            },
            None => None,
        }
    };
    match candidate {
        Some(t) => if t > now {
            Some(t)
        } else {
            None
        },
        None => None,
    }
}

/// What holds of the instant a reminder is due at, whatever the time zone
/// answered, given the clock reading `now` (its timestamp and local day): it
/// lies after `now`; a dated reminder lies within a day of its date's wall
/// clock at its time (9:00 AM when none was typed); an undated one within a
/// day of its time on the clock's day or on the day after.
pub open spec fn due_at_facts(
    date: Option<(int, int, int)>,
    time: Option<(int, int, int)>,
    now: int,
    today: (int, int, int),
    due: int,
) -> bool {
    &&& due > now
    &&& date matches Some(d) ==> within_a_day(due, wall_seconds(d, dated_time(time)))
    &&& date is None ==> (time matches Some(tm) ==> (within_a_day(due, wall_seconds(today, tm))
        || within_a_day(due, wall_seconds(next_ymd(today.0, today.1, today.2), tm))))
}

/// The instant a reminder with this date and time is due, given the clock
/// reading `now`: the local wall-clock time of the typed day (today for a time
/// alone) at the typed time (9:00 AM for a date alone); for a time alone that
/// is not after `now`, the same time tomorrow. `None` when neither is given,
/// when the local time does not exist, or when it is not after `now`; the
/// local times come from the time zone (see `choose_due_at`, which decides
/// from them).
pub fn due_at_from(date: Option<Date>, time: Option<Time>, now: &LocalNow) -> (r: Option<i64>)
    ensures
        date is None && time is None ==> r is None,
        r matches Some(t) ==> due_at_facts(
            opt_date(date),
            opt_time(time),
            now.timestamp as int,
            now.today@,
            t as int,
        ),
{
    let (day, at) = match reminder_wall_clock(&date, &time, &now.today) {
        Some(v) => v,
        None => return None,
    };
    let first = local_timestamp(&day, &at);
    let mut next_day: Option<i64> = None;
    if date.is_none() {
        if let Some(t) = first {
            if t <= now.timestamp {
                if let Some(tomorrow) = now.today.next_day() {
                    next_day = local_timestamp(&tomorrow, &at);
                }
            }
        }
    }
    let r = choose_due_at(date.is_some(), now.timestamp, first, next_day);
    proof {
        if let Some(t) = r {
            if date is None {
                if let Some(f) = first {
                    if f > now.timestamp {
                        assert(t == f);
                    } else {
                        assert(next_day == Some(t));
                    }
                }
            }
        }
    }
    r
}

/// The instant a reminder with this date and time is due, from one reading
/// of the clock and the local time zone (see `due_at_from`); `None` when
/// neither is given, when the local time does not exist, or when it is not in
/// the future.
pub fn build_due_at(date: Option<Date>, time: Option<Time>) -> (r: Option<i64>)
    ensures
        date is None && time is None ==> r is None,
        date matches Some(d) ==> (r matches Some(t) ==> within_a_day(
            t as int,
            wall_seconds(d@, dated_time(opt_time(time))),
        )),
        r matches Some(t) ==> exists|now: int, today: (int, int, int)|
            day_of_instant(today, now) && #[trigger] due_at_facts(
                opt_date(date),
                opt_time(time),
                now,
                today,
                t as int,
            ),
{
    let now = local_now();
    due_at_from(date, time, &now)
}

/// A reminder with the given texts and body, due as `build_due_at` decides;
/// `None` when it is not due in the future.
pub fn build_reminder(
    date: Option<Date>,
    time: Option<Time>,
    date_text: Option<String>,
    time_text: Option<String>,
    body: Option<String>,
) -> (r: Option<Reminder>)
    ensures
        date is None && time is None ==> r is None,
        r matches Some(rem) ==> rem@.1 == opt_chars(date_text) && rem@.2 == opt_chars(time_text)
            && rem@.3 == opt_chars(body),
        date matches Some(d) ==> (r matches Some(rem) ==> within_a_day(
            rem.due_at as int,
            wall_seconds(d@, dated_time(opt_time(time))),
        )),
        r matches Some(rem) ==> exists|now: int, today: (int, int, int)|
            day_of_instant(today, now) && #[trigger] due_at_facts(
                opt_date(date),
                opt_time(time),
                now,
                today,
                rem.due_at as int,
            ),
{
    let due_at = match build_due_at(date, time) {
        Some(t) => t,
        None => return None,
    };
    let rem = Reminder { due_at, date_text, time_text, body };
    assert(rem.due_at == due_at);
    assert(exists|now: int, today: (int, int, int)|
        day_of_instant(today, now) && #[trigger] due_at_facts(
            opt_date(date),
            opt_time(time),
            now,
            today,
            rem.due_at as int,
        ));
    Some(rem)
}

/// The local calendar day a reminder is due on, for a reminder typed with a
/// date.
pub fn reminder_date(reminder: &Reminder) -> (r: Option<Date>)
    ensures
        r is Some ==> reminder.date_text is Some && in_timestamp_range(reminder.due_at as int),
        reminder.date_text is Some && in_local_range(reminder.due_at as int) ==> r is Some,
        r matches Some(d) ==> day_of_instant(d@, reminder.due_at as int),
{
    let (date, _) = match local_date_time_at(reminder.due_at) {
        Some(v) => v,
        None => return None,
    };
    match reminder.date_text {
        Some(_) => Some(date),
        None => None,
    }
}

/// The local time of day a reminder is due at, for a reminder typed with a
/// time.
pub fn reminder_time(reminder: &Reminder) -> (r: Option<Time>)
    ensures
        r is Some <==> reminder.time_text is Some && in_timestamp_range(reminder.due_at as int),
{
    let time = match local_time_at(reminder.due_at) {
        Some(v) => v,
        None => return None,
    };
    match reminder.time_text {
        Some(_) => Some(time),
        None => None,
    }
}

/// The day of a reminder whose date text still appears in `text`.
pub fn visible_reminder_date(text: &[char], reminder: &Reminder) -> (r: Option<Date>)
    ensures
        r is Some ==> reminder.date_text is Some && seq_contains(
            text@,
            reminder.date_text.unwrap()@,
        ) && in_timestamp_range(reminder.due_at as int),
        reminder.date_text is Some && seq_contains(text@, reminder.date_text.unwrap()@)
            && in_local_range(reminder.due_at as int) ==> r is Some,
        r matches Some(d) ==> day_of_instant(d@, reminder.due_at as int),
{
    let date_text = match &reminder.date_text {
        Some(t) => t,
        None => return None,
    };
    let needle = crate::text::chars_of(date_text.as_str());
    if contains_chars(text, &needle) {
        reminder_date(reminder)
    } else {
        None
    }
}

/// The time of a reminder whose time text still appears in `text`.
pub fn visible_reminder_time(text: &[char], reminder: &Reminder) -> (r: Option<Time>)
    ensures
        r is Some <==> reminder.time_text is Some && seq_contains(
            text@,
            reminder.time_text.unwrap()@,
        ) && in_timestamp_range(reminder.due_at as int),
{
    let time_text = match &reminder.time_text {
        Some(t) => t,
        None => return None,
    };
    let needle = crate::text::chars_of(time_text.as_str());
    if contains_chars(text, &needle) {
        reminder_time(reminder)
    } else {
        None
    }
}

/// When a reminder is due, given the local instants of its wall-clock time:
/// a dated reminder is due at its instant whenever that instant exists and is
/// after `now`; an undated one at today's instant when that is after `now`,
/// else at tomorrow's when that exists and is after `now`; and a due instant
/// is always one of the two and after `now`.
pub proof fn lemma_due_at_is_the_next_local_instant(
    has_date: bool,
    now: int,
    first: Option<int>,
    next_day: Option<int>,
)
    ensures
        first matches Some(t) ==> (t > now ==> choose_due_at_spec(has_date, now, first, next_day)
            == Some(t)),
        first matches Some(t) ==> (!has_date && t <= now ==> (next_day matches Some(u) ==> (u > now
            ==> choose_due_at_spec(has_date, now, first, next_day) == Some(u)))),
        choose_due_at_spec(has_date, now, first, next_day) matches Some(d) ==> d > now && (first
            == Some(d) || (!has_date && next_day == Some(d))),
        first is None ==> choose_due_at_spec(has_date, now, first, next_day) is None,
{
}

} // verus!
