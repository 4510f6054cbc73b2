//! Reminder notifications: their texts, the jobs that fire them, and the
//! queue they wait in.
use crate::normalize::next_newline;
use crate::reminder::{opt_chars, Reminder, ReminderV};
use crate::text::{
    chars_of, decimal, push_char, push_chars, push_str, string_from, trim_chars, trim_spec,
};
use vstd::prelude::*;

verus! {

/// How a character is written inside an AppleScript string literal.
pub open spec fn escape_char(c: char) -> Seq<char> {
    if c == '\\' {
        "\\\\"@
    } else if c == '"' {
        "\\\""@
    } else if c == '\r' {
        "\\r"@
    } else if c == '\n' {
        "\\n"@
    } else {
        seq![c]
    }
}

/// A text with every character escaped for an AppleScript string literal.
pub open spec fn escape_all(s: Seq<char>) -> Seq<char>
    decreases s.len(),
{
    if s.len() == 0 {
        seq![]
    } else {
        escape_all(s.drop_last()) + escape_char(s.last())
    }
}

/// An AppleScript string literal holding the text.
pub open spec fn apple_script_string_spec(s: Seq<char>) -> Seq<char> {
    "\""@ + escape_all(s) + "\""@
}

/// The first `max` characters of a text, followed by "..." when some were
/// cut.
pub open spec fn truncate_spec(s: Seq<char>, max: int) -> Seq<char> {
    if s.len() > max {
        s.take(max) + "..."@
    } else {
        s
    }
}

/// The first line of a text, as `str::lines` gives it: up to the first
/// newline, without the carriage return before that newline.
pub open spec fn first_line_spec(s: Seq<char>) -> Seq<char> {
    let j = next_newline(s, 0);
    let l = s.take(j);
    if j < s.len() && l.len() > 0 && l.last() == '\r' {
        l.drop_last()
    } else {
        l
    }
}

/// The text a notification shows when nothing else is to be said.
pub open spec fn default_body() -> Seq<char> {
    "Sticky note reminder"@
}

/// The body of a notification for a text: its first non-blank line, trimmed
/// and cut to 160 characters.
pub open spec fn notification_body_spec(text: Seq<char>) -> Seq<char> {
    let t = trim_spec(text);
    if t.len() == 0 {
        default_body()
    } else {
        truncate_spec(trim_spec(first_line_spec(t)), 160)
    }
}

/// The body of the notification of a reminder: from the reminder's own line
/// when that says something, else from the note's text.
pub open spec fn reminder_body_spec(note_text: Seq<char>, r: ReminderV) -> Seq<char> {
    match r.3 {
        Some(b) => if notification_body_spec(b) != default_body() {
            notification_body_spec(b)
        } else {
            notification_body_spec(note_text)
        },
        None => notification_body_spec(note_text),
    }
}

/// When a reminder is for: "DATE at TIME", the date, the time, or "Reminder".
pub open spec fn reminder_when_spec(r: ReminderV) -> Seq<char> {
    match (r.1, r.2) {
        (Some(d), Some(t)) => d + " at "@ + t,
        (Some(d), None) => d,
        (None, Some(t)) => t,
        (None, None) => "Reminder"@,
    }
}

/// The subtitle of a reminder notification: how long before, and when.
pub open spec fn notification_when_spec(r: ReminderV, lead_label: Seq<char>) -> Seq<char> {
    lead_label + ": "@ + reminder_when_spec(r)
}

/// Appends the text escaped for an AppleScript string literal.
fn push_escaped(out: &mut String, value: &[char])
    ensures
        final(out)@ == old(out)@ + escape_all(value@),
{
    let ghost start = out@;
    let mut i: usize = 0;
    assert(value@.take(0) =~= seq![]);
    while i < value.len()
        invariant
            i <= value.len(),
            out@ == start + escape_all(value@.take(i as int)),
        decreases value.len() - i,
    {
        let c = value[i];
        if c == '\\' {
            push_str(out, "\\\\");
        } else if c == '"' {
            push_str(out, "\\\"");
        } else if c == '\r' {
            push_str(out, "\\r");
        } else if c == '\n' {
            push_str(out, "\\n");
        } else {
            push_char(out, c);
        }
        i = i + 1;
        assert(value@.take(i as int).drop_last() =~= value@.take(i - 1));
        assert(out@ =~= start + escape_all(value@.take(i as int)));
    }
    assert(value@.take(i as int) =~= value@);
}

/// An AppleScript string literal holding the text: quoted, with backslashes,
/// quotes, carriage returns and newlines escaped.
pub fn apple_script_string(value: &str) -> (r: String)
    ensures
        r@ == apple_script_string_spec(value@),
{
    let chars = chars_of(value);
    let mut out = String::new();
    push_str(&mut out, "\"");
    push_escaped(&mut out, &chars);
    push_str(&mut out, "\"");
    assert(out@ =~= apple_script_string_spec(value@));
    out
}

/// The first `max` characters of a text, followed by "..." when some were
/// cut.
pub fn truncate_chars(value: &[char], max: usize) -> (r: String)
    ensures
        r@ == truncate_spec(value@, max as int),
{
    let mut out = String::new();
    let mut i: usize = 0;
    while i < max && i < value.len()
        invariant
            i <= max,
            i <= value.len(),
            out@ == value@.take(i as int),
        decreases value.len() - i,
    {
        push_char(&mut out, value[i]);
        i = i + 1;
        assert(out@ =~= value@.take(i as int));
    }
    if i < value.len() {
        push_str(&mut out, "...");
    } else {
        assert(value@.take(i as int) =~= value@);
    }
    out
}

/// The first line of a text, without the carriage return before its newline.
fn first_line(text: &[char]) -> (r: Vec<char>)
    ensures
        r@ == first_line_spec(text@),
{
    let mut j: usize = 0;
    let mut line: Vec<char> = Vec::new();
    while j < text.len() && text[j] != '\n'
        invariant
            j <= text.len(),
            next_newline(text@, 0) == next_newline(text@, j as int),
            line@ == text@.take(j as int),
        decreases text.len() - j,
    {
        line.push(text[j]);
        j = j + 1;
        assert(line@ =~= text@.take(j as int));
    }
    if j < text.len() && line.len() > 0 && line[line.len() - 1] == '\r' {
        line.pop();
        assert(line@ =~= text@.take(j as int).drop_last());
    }
    line
}

/// The body of a notification for a text: its first line, trimmed and cut to
/// 160 characters; "Sticky note reminder" for a blank text.
pub fn notification_body(text: &[char]) -> (r: String)
    ensures
        r@ == notification_body_spec(text@),
{
    let trimmed = trim_chars(text);
    if trimmed.len() == 0 {
        return string_from("Sticky note reminder");
    }
    let line = first_line(&trimmed);
    let line = trim_chars(&line);
    truncate_chars(&line, 160)
}

/// The body of the notification of a reminder: from the reminder's own line
/// unless that gives only the default text, else from the note's text.
pub fn notification_body_for_reminder(note_text: &[char], reminder: &Reminder) -> (r: String)
    ensures
        r@ == reminder_body_spec(note_text@, reminder@),
{
    match &reminder.body {
        Some(body) => {
            let body_chars = chars_of(body.as_str());
            let from_body = notification_body(&body_chars);
            let default = string_from("Sticky note reminder");
            if from_body != default {
                from_body
            } else {
                notification_body(note_text)
            }
        },
        None => notification_body(note_text),
    }
}

/// When a reminder is for: "DATE at TIME", the date, the time, or "Reminder".
pub fn reminder_when(reminder: &Reminder) -> (r: String)
    ensures
        r@ == reminder_when_spec(reminder@),
{
    match (&reminder.date_text, &reminder.time_text) {
        (Some(date), Some(time)) => {
            let mut out = date.clone();
            push_str(&mut out, " at ");
            push_str(&mut out, time.as_str());
            out
        },
        (Some(date), None) => date.clone(),
        (None, Some(time)) => time.clone(),
        (None, None) => string_from("Reminder"),
    }
}

/// The subtitle of a reminder notification: "LEAD: WHEN".
pub fn reminder_notification_when(reminder: &Reminder, lead_label: &str) -> (r: String)
    ensures
        r@ == notification_when_spec(reminder@, lead_label@),
{
    let mut out = string_from(lead_label);
    push_str(&mut out, ": ");
    let when = reminder_when(reminder);
    push_str(&mut out, when.as_str());
    assert(out@ =~= notification_when_spec(reminder@, lead_label@));
    out
}

/// Seconds before a reminder's due time at which its `l`-th notification
/// fires: 30 minutes, 10 minutes, 5 minutes, and at the time itself.
pub open spec fn lead_seconds_spec(l: int) -> int {
    if l == 0 {
        1800
    } else if l == 1 {
        600
    } else if l == 2 {
        300
    } else {
        0
    }
}

/// How the `l`-th notification of a reminder says how early it is.
pub open spec fn lead_label_spec(l: int) -> Seq<char> {
    if l == 0 {
        "30 minutes before"@
    } else if l == 1 {
        "10 minutes before"@
    } else if l == 2 {
        "5 minutes before"@
    } else {
        "Due now"@
    }
}

/// Number of notifications per reminder.
pub open spec fn lead_count() -> int {
    4
}

/// The `l`-th lead of a reminder: its seconds and its label.
pub fn reminder_lead(l: usize) -> (r: (i64, &'static str))
    requires
        l < 4,
    ensures
        r.0 == lead_seconds_spec(l as int),
        r.1@ == lead_label_spec(l as int),
{
    if l == 0 {
        (1800, "30 minutes before")
    } else if l == 1 {
        (600, "10 minutes before")
    } else if l == 2 {
        (300, "5 minutes before")
    } else {
        (0, "Due now")
    }
}

/// When the `l`-th notification of a reminder due at `due` fires (the
/// subtraction wraps around as it does in an optimized build).
pub open spec fn notify_at_spec(due: int, l: int) -> int {
    (due as i64).wrapping_sub(lead_seconds_spec(l) as i64) as int
}

/// Which notification a job is: the note, the reminder's position in the
/// note, and the lead in seconds.
#[derive(Clone, Copy)]
pub struct ReminderJobKey {
    pub note_id: u64,
    pub reminder_index: usize,
    pub lead_seconds: i64,
}

/// A notification waiting to fire: when, its body and its subtitle.
pub struct ReminderJob {
    pub notify_at: i64,
    pub body: String,
    pub when: String,
}

/// A job with its key.
pub struct ScheduledJob {
    pub key: ReminderJobKey,
    pub job: ReminderJob,
}

/// What the scheduler reads of a note: its id, its text and its reminders.
pub struct NoteReminders {
    pub id: u64,
    pub text: String,
    pub reminders: Vec<Reminder>,
}

/// A job key as plain values.
pub type JobKeyV = (int, int, int);

/// A job as plain values.
pub type JobV = (int, Seq<char>, Seq<char>);

/// A note's reminder data as plain values.
pub type NoteRemindersV = (int, Seq<char>, Seq<ReminderV>);

impl View for ReminderJobKey {
    type V = JobKeyV;

    open spec fn view(&self) -> JobKeyV {
        (self.note_id as int, self.reminder_index as int, self.lead_seconds as int)
    }
}

impl View for ReminderJob {
    type V = JobV;

    open spec fn view(&self) -> JobV {
        (self.notify_at as int, self.body@, self.when@)
    }
}

impl View for NoteReminders {
    type V = NoteRemindersV;

    open spec fn view(&self) -> NoteRemindersV {
        (self.id as int, self.text@, self.reminders@.map_values(|r: Reminder| r@))
    }
}

/// Jobs as plain values.
pub open spec fn jobs_view(v: Seq<ReminderJob>) -> Seq<JobV> {
    v.map_values(|j: ReminderJob| j@)
}

/// Scheduled jobs as plain values.
pub open spec fn scheduled_view(v: Seq<ScheduledJob>) -> Seq<(JobKeyV, JobV)> {
    v.map_values(|j: ScheduledJob| (j.key@, j.job@))
}

/// The jobs after adding the `l`-th notification of reminder `idx` of a
/// note, when it fires after `now` (a job with the same key is replaced).
pub open spec fn lead_insert(
    m: Map<JobKeyV, JobV>,
    id: int,
    text: Seq<char>,
    idx: int,
    r: ReminderV,
    l: int,
    now: int,
) -> Map<JobKeyV, JobV> {
    let at = notify_at_spec(r.0, l);
    if at > now {
        m.insert(
            (id, idx, lead_seconds_spec(l)),
            (at, reminder_body_spec(text, r), notification_when_spec(r, lead_label_spec(l))),
        )
    } else {
        m
    }
}

/// The jobs after adding the first `n` notifications of a reminder.
pub open spec fn reminder_jobs_insert(
    m: Map<JobKeyV, JobV>,
    id: int,
    text: Seq<char>,
    idx: int,
    r: ReminderV,
    now: int,
    n: int,
) -> Map<JobKeyV, JobV>
    decreases n,
{
    if n <= 0 {
        m
    } else {
        lead_insert(reminder_jobs_insert(m, id, text, idx, r, now, n - 1), id, text, idx, r, n - 1, now)
    }
}

/// The jobs after adding the notifications of a note's reminders.
pub open spec fn note_jobs_insert(
    m: Map<JobKeyV, JobV>,
    id: int,
    text: Seq<char>,
    rs: Seq<ReminderV>,
    now: int,
) -> Map<JobKeyV, JobV>
    decreases rs.len(),
{
    if rs.len() == 0 {
        m
    } else {
        reminder_jobs_insert(
            note_jobs_insert(m, id, text, rs.drop_last(), now),
            id,
            text,
            rs.len() - 1,
            rs.last(),
            now,
            lead_count(),
        )
    }
}

/// The notifications still to fire after `now` for the reminders of the
/// notes, by key.
pub open spec fn jobs_spec(notes: Seq<NoteRemindersV>, now: int) -> Map<JobKeyV, JobV>
    decreases notes.len(),
{
    if notes.len() == 0 {
        Map::empty()
    } else {
        note_jobs_insert(
            jobs_spec(notes.drop_last(), now),
            notes.last().0,
            notes.last().1,
            notes.last().2,
            now,
        )
    }
}

/// A list of jobs holds exactly the map: each key once, with its job.
pub open spec fn jobs_match(v: Seq<(JobKeyV, JobV)>, m: Map<JobKeyV, JobV>) -> bool {
    &&& forall|i: int, j: int| 0 <= i < j < v.len() ==> (#[trigger] v[i]).0 != (#[trigger] v[j]).0
    &&& forall|i: int| 0 <= i < v.len() ==> m.contains_key((#[trigger] v[i]).0) && m[v[i].0] == v[i].1
    &&& forall|k: JobKeyV| #[trigger] m.contains_key(k) ==> exists|i: int| 0 <= i < v.len() && (#[trigger] v[i]).0 == k
}

/// Adds a job, replacing the one with the same key if there is one.
fn insert_job(out: &mut Vec<ScheduledJob>, job: ScheduledJob, Ghost(m): Ghost<Map<JobKeyV, JobV>>)
    requires
        jobs_match(scheduled_view(old(out)@), m),
    ensures
        jobs_match(scheduled_view(final(out)@), m.insert(job.key@, job.job@)),
{
    let ghost old_v = scheduled_view(out@);
    let ghost kv = job.key@;
    let ghost jv = job.job@;
    let ghost m2 = m.insert(kv, jv);
    let mut i: usize = 0;
    while i < out.len()
        invariant
            i <= out.len(),
            old_v == scheduled_view(out@),
            old_v == scheduled_view(old(out)@),
            kv == job.key@,
            jv == job.job@,
            m2 == m.insert(kv, jv),
            jobs_match(old_v, m),
            forall|k: int| 0 <= k < i ==> (#[trigger] old_v[k]).0 != kv,
        decreases out.len() - i,
    {
        let same = out[i].key.note_id == job.key.note_id && out[i].key.reminder_index
            == job.key.reminder_index && out[i].key.lead_seconds == job.key.lead_seconds;
        if same {
            assert(old_v[i as int].0 == kv);
            out.set(i, job);
            let ghost v = scheduled_view(out@);
            assert(v =~= old_v.update(i as int, (kv, jv)));
            assert forall|a: int, b: int| 0 <= a < b < v.len() implies (#[trigger] v[a]).0 != (
            #[trigger] v[b]).0 by {
                assert(old_v[a].0 != old_v[b].0);
            }
            assert forall|a: int| 0 <= a < v.len() implies m2.contains_key((#[trigger] v[a]).0)
                && m2[v[a].0] == v[a].1 by {
                if a != i {
                    assert(old_v[a].0 != old_v[i as int].0 || a == i);
                }
            }
            assert forall|k: JobKeyV| #[trigger] m2.contains_key(k) implies exists|a: int|
                0 <= a < v.len() && (#[trigger] v[a]).0 == k by {
                if k == kv {
                    assert(v[i as int].0 == k);
                } else {
                    let a = choose|a: int| 0 <= a < old_v.len() && (#[trigger] old_v[a]).0 == k;
                    assert(v[a].0 == k);
                }
            }
            return;
        }
        i = i + 1;
    }
    out.push(job);
    let ghost v = scheduled_view(out@);
    assert(v =~= old_v.push((kv, jv)));
    assert forall|a: int, b: int| 0 <= a < b < v.len() implies (#[trigger] v[a]).0 != (
    #[trigger] v[b]).0 by {
        if b < old_v.len() {
            assert(old_v[a].0 != old_v[b].0);
        } else {
            assert(old_v[a].0 != kv);
        }
    }
    assert forall|a: int| 0 <= a < v.len() implies m2.contains_key((#[trigger] v[a]).0) && m2[v[a].0]
        == v[a].1 by {
        if a < old_v.len() {
            assert(old_v[a].0 != kv);
            assert(v[a] == old_v[a]);
        }
    }
    assert forall|k: JobKeyV| #[trigger] m2.contains_key(k) implies exists|a: int|
        0 <= a < v.len() && (#[trigger] v[a]).0 == k by {
        if k == kv {
            assert(v[old_v.len() as int].0 == k);
        } else {
            let a = choose|a: int| 0 <= a < old_v.len() && (#[trigger] old_v[a]).0 == k;
            assert(v[a].0 == k);
        }
    }
}

/// The notifications still to fire after `now` for the reminders of the
/// notes: for each reminder, 30, 10 and 5 minutes before it is due and at
/// the time itself, each once per (note, reminder, lead).
pub fn sync_reminder_jobs(notes: &[NoteReminders], now: i64) -> (out: Vec<ScheduledJob>)
    ensures
        jobs_match(scheduled_view(out@), jobs_spec(notes@.map_values(|n: NoteReminders| n@), now as int)),
{
    let ghost nv = notes@.map_values(|n: NoteReminders| n@);
    let mut out: Vec<ScheduledJob> = Vec::new();
    let ghost mut m: Map<JobKeyV, JobV> = Map::empty();
    let mut n: usize = 0;
    assert(nv.take(0) =~= seq![]);
    while n < notes.len()
        invariant
            n <= notes.len(),
            nv == notes@.map_values(|n: NoteReminders| n@),
            m == jobs_spec(nv.take(n as int), now as int),
            jobs_match(scheduled_view(out@), m),
        decreases notes.len() - n,
    {
        let note = &notes[n];
        let ghost note_v = note@;
        assert(nv[n as int] == note_v);
        let text = chars_of(note.text.as_str());
        let ghost m0 = m;
        let ghost rs = note_v.2;
        let mut idx: usize = 0;
        assert(rs.take(0) =~= seq![]);
        while idx < note.reminders.len()
            invariant
                idx <= note.reminders.len(),
                note_v == note@,
                rs == note_v.2,
                text@ == note_v.1,
                m == note_jobs_insert(m0, note_v.0, note_v.1, rs.take(idx as int), now as int),
                jobs_match(scheduled_view(out@), m),
            decreases note.reminders.len() - idx,
        {
            let reminder = &note.reminders[idx];
            assert(rs[idx as int] == reminder@);
            let ghost m1 = m;
            let mut l: usize = 0;
            while l < 4
                invariant
                    l <= 4,
                    note_v == note@,
                    text@ == note_v.1,
                    m == reminder_jobs_insert(m1, note_v.0, note_v.1, idx as int, reminder@, now as int, l as int),
                    jobs_match(scheduled_view(out@), m),
                decreases 4 - l,
            {
                let (lead, label) = reminder_lead(l);
                let at = reminder.due_at.wrapping_sub(lead);
                if at > now {
                    let body = notification_body_for_reminder(&text, reminder);
                    let when = reminder_notification_when(reminder, label);
                    let key = ReminderJobKey { note_id: note.id, reminder_index: idx, lead_seconds: lead };
                    let job = ReminderJob { notify_at: at, body, when };
                    insert_job(&mut out, ScheduledJob { key, job }, Ghost(m));
                    proof {
                        m = m.insert(key@, job@);
                    }
                }
                l = l + 1;
            }
            idx = idx + 1;
            assert(rs.take(idx as int).drop_last() =~= rs.take(idx - 1));
        }
        assert(rs.take(idx as int) =~= rs);
        n = n + 1;
        assert(nv.take(n as int).drop_last() =~= nv.take(n - 1));
    }
    assert(nv.take(n as int) =~= nv);
    out
}

/// The jobs whose time has come (`notify_at` at or before `now`), in order.
pub open spec fn due_jobs(v: Seq<(JobKeyV, JobV)>, now: int) -> Seq<JobV>
    decreases v.len(),
{
    if v.len() == 0 {
        seq![]
    } else {
        let p = due_jobs(v.drop_last(), now);
        if v.last().1.0 <= now {
            p.push(v.last().1)
        } else {
            p
        }
    }
}

/// The jobs still waiting after `now`, in order.
pub open spec fn waiting_jobs(v: Seq<(JobKeyV, JobV)>, now: int) -> Seq<(JobKeyV, JobV)>
    decreases v.len(),
{
    if v.len() == 0 {
        seq![]
    } else {
        let p = waiting_jobs(v.drop_last(), now);
        if v.last().1.0 <= now {
            p
        } else {
            p.push(v.last())
        }
    }
}

impl ReminderJob {
    /// A copy of the job.
    pub fn copy(&self) -> (r: ReminderJob)
        ensures
            r@ == self@,
    {
        ReminderJob { notify_at: self.notify_at, body: self.body.clone(), when: self.when.clone() }
    }
}

/// Takes out the jobs whose time has come, leaving the others waiting.
pub fn take_due_jobs(jobs: &mut Vec<ScheduledJob>, now: i64) -> (due: Vec<ReminderJob>)
    ensures
        jobs_view(due@) == due_jobs(scheduled_view(old(jobs)@), now as int),
        scheduled_view(final(jobs)@) == waiting_jobs(scheduled_view(old(jobs)@), now as int),
{
    let ghost v = scheduled_view(jobs@);
    let mut due: Vec<ReminderJob> = Vec::new();
    let mut keep: Vec<ScheduledJob> = Vec::new();
    let mut i: usize = 0;
    assert(v.take(0) =~= seq![]);
    while i < jobs.len()
        invariant
            i <= jobs.len(),
            v == scheduled_view(jobs@),
            jobs_view(due@) == due_jobs(v.take(i as int), now as int),
            scheduled_view(keep@) == waiting_jobs(v.take(i as int), now as int),
        decreases jobs.len() - i,
    {
        let item = &jobs[i];
        assert(v[i as int] == (item.key@, item.job@));
        assert(v.take(i + 1).drop_last() =~= v.take(i as int));
        if item.job.notify_at <= now {
            let ghost before = jobs_view(due@);
            due.push(item.job.copy());
            assert(jobs_view(due@) =~= before.push(item.job@));
        } else {
            let ghost before = scheduled_view(keep@);
            keep.push(ScheduledJob { key: item.key, job: item.job.copy() });
            assert(scheduled_view(keep@) =~= before.push((item.key@, item.job@)));
        }
        i = i + 1;
    }
    assert(v.take(i as int) =~= v);
    *jobs = keep;
    due
}

/// The table of scheduled jobs as the application starts: empty.
pub fn reminder_jobs() -> (jobs: Vec<ScheduledJob>)
    ensures
        jobs@.len() == 0,
{
    Vec::new()
}

/// The queue of notifications waiting to be delivered as the application
/// starts: empty.
pub fn pending_notifications() -> (pending: Vec<ReminderJob>)
    ensures
        pending@.len() == 0,
{
    Vec::new()
}

/// Queues a notification to be shown.
pub fn queue_notification(pending: &mut Vec<ReminderJob>, job: ReminderJob)
    ensures
        jobs_view(final(pending)@) == jobs_view(old(pending)@).push(job@),
{
    let ghost before = jobs_view(pending@);
    pending.push(job);
    assert(jobs_view(pending@) =~= before.push(job@));
}

/// Takes every queued notification, in order, leaving the queue empty.
pub fn deliver_pending_notifications(pending: &mut Vec<ReminderJob>) -> (jobs: Vec<ReminderJob>)
    ensures
        jobs_view(jobs@) == jobs_view(old(pending)@),
        final(pending)@.len() == 0,
{
    let mut jobs: Vec<ReminderJob> = Vec::new();
    std::mem::swap(&mut jobs, pending);
    jobs
}

/// The AppleScript that beeps and shows a reminder in a dialog.
pub open spec fn alert_script_spec(when: Seq<char>, body: Seq<char>) -> Seq<char> {
    "beep 1\ndisplay dialog "@ + apple_script_string_spec(when + "\n\n"@ + body) + " with title "@
        + apple_script_string_spec("Sticky Note Reminder"@)
        + " buttons {\"OK\"} default button \"OK\" with icon note"@
}

/// The AppleScript that beeps and shows a reminder in a dialog with an OK
/// button: its subtitle, an empty line, then its body.
pub fn reminder_alert_script(job: &ReminderJob) -> (r: String)
    ensures
        r@ == alert_script_spec(job.when@, job.body@),
{
    let mut message = job.when.clone();
    push_str(&mut message, "\n\n");
    push_str(&mut message, job.body.as_str());
    let mut out = string_from("beep 1\ndisplay dialog ");
    let quoted = apple_script_string(message.as_str());
    push_str(&mut out, quoted.as_str());
    push_str(&mut out, " with title ");
    let title = apple_script_string("Sticky Note Reminder");
    push_str(&mut out, title.as_str());
    push_str(&mut out, " buttons {\"OK\"} default button \"OK\" with icon note");
    assert(out@ =~= alert_script_spec(job.when@, job.body@));
    out
}

/// What delivering a notification does: a system notification when the user
/// allowed them, else an alert dialog in its place.
pub struct DeliveryPlan {
    pub system_notification: bool,
    pub alert_script: Option<String>,
}

/// How to deliver a notification: the system notification when allowed, the
/// alert dialog instead when not.
pub fn deliver_notification(job: &ReminderJob, system_notifications_allowed: bool) -> (r: DeliveryPlan)
    ensures
        r.system_notification == system_notifications_allowed,
        r.alert_script is Some <==> !system_notifications_allowed,
        r.alert_script matches Some(script) ==> script@ == alert_script_spec(job.when@, job.body@),
{
    if system_notifications_allowed {
        DeliveryPlan { system_notification: true, alert_script: None }
    } else {
        DeliveryPlan { system_notification: false, alert_script: Some(reminder_alert_script(job)) }
    }
}

/// Every job of a map fires after `now`.
pub open spec fn all_after(m: Map<JobKeyV, JobV>, now: int) -> bool {
    forall|k: JobKeyV| #[trigger] m.contains_key(k) ==> m[k].0 > now
}

proof fn lemma_reminder_jobs_after(
    m: Map<JobKeyV, JobV>,
    id: int,
    text: Seq<char>,
    idx: int,
    r: ReminderV,
    now: int,
    n: int,
)
    requires
        all_after(m, now),
    ensures
        all_after(reminder_jobs_insert(m, id, text, idx, r, now, n), now),
    decreases n,
{
    if n > 0 {
        lemma_reminder_jobs_after(m, id, text, idx, r, now, n - 1);
    }
}

proof fn lemma_note_jobs_after(m: Map<JobKeyV, JobV>, id: int, text: Seq<char>, rs: Seq<ReminderV>, now: int)
    requires
        all_after(m, now),
    ensures
        all_after(note_jobs_insert(m, id, text, rs, now), now),
    decreases rs.len(),
{
    if rs.len() > 0 {
        lemma_note_jobs_after(m, id, text, rs.drop_last(), now);
        lemma_reminder_jobs_after(
            note_jobs_insert(m, id, text, rs.drop_last(), now),
            id,
            text,
            rs.len() - 1,
            rs.last(),
            now,
            lead_count(),
        );
    }
}

/// No notification is scheduled for a moment that has passed: every job of
/// the notes fires after `now`.
pub proof fn lemma_jobs_fire_after_now(notes: Seq<NoteRemindersV>, now: int)
    ensures
        all_after(jobs_spec(notes, now), now),
    decreases notes.len(),
{
    if notes.len() > 0 {
        lemma_jobs_fire_after_now(notes.drop_last(), now);
        lemma_note_jobs_after(
            jobs_spec(notes.drop_last(), now),
            notes.last().0,
            notes.last().1,
            notes.last().2,
            now,
        );
    }
}

/// The job a reminder's `l`-th notification is scheduled as.
pub open spec fn job_for(text: Seq<char>, r: ReminderV, l: int) -> JobV {
    (notify_at_spec(r.0, l), reminder_body_spec(text, r), notification_when_spec(r, lead_label_spec(l)))
}

/// `m2` holds the entry of `m` for key `k`, if any.
pub open spec fn keeps_key(m: Map<JobKeyV, JobV>, m2: Map<JobKeyV, JobV>, k: JobKeyV) -> bool {
    &&& m2.contains_key(k) == m.contains_key(k)
    &&& m.contains_key(k) ==> m2[k] == m[k]
}

proof fn lemma_reminder_jobs_keep(
    m: Map<JobKeyV, JobV>,
    id: int,
    text: Seq<char>,
    idx: int,
    r: ReminderV,
    now: int,
    n: int,
    k: JobKeyV,
)
    requires
        k.0 != id || k.1 != idx,
    ensures
        keeps_key(m, reminder_jobs_insert(m, id, text, idx, r, now, n), k),
    decreases n,
{
    if n > 0 {
        lemma_reminder_jobs_keep(m, id, text, idx, r, now, n - 1, k);
    }
}

proof fn lemma_reminder_jobs_has(
    m: Map<JobKeyV, JobV>,
    id: int,
    text: Seq<char>,
    idx: int,
    r: ReminderV,
    now: int,
    n: int,
    l: int,
)
    requires
        0 <= l < n <= lead_count(),
        notify_at_spec(r.0, l) > now,
    ensures
        reminder_jobs_insert(m, id, text, idx, r, now, n).contains_key((id, idx, lead_seconds_spec(l))),
        reminder_jobs_insert(m, id, text, idx, r, now, n)[(id, idx, lead_seconds_spec(l))] == job_for(
            text,
            r,
            l,
        ),
    decreases n,
{
    if n - 1 > l {
        lemma_reminder_jobs_has(m, id, text, idx, r, now, n - 1, l);
        assert(lead_seconds_spec(n - 1) != lead_seconds_spec(l));
    }
}

proof fn lemma_note_jobs_keep(m: Map<JobKeyV, JobV>, id: int, text: Seq<char>, rs: Seq<ReminderV>, now: int, k: JobKeyV)
    requires
        k.0 != id,
    ensures
        keeps_key(m, note_jobs_insert(m, id, text, rs, now), k),
    decreases rs.len(),
{
    if rs.len() > 0 {
        lemma_note_jobs_keep(m, id, text, rs.drop_last(), now, k);
        lemma_reminder_jobs_keep(
            note_jobs_insert(m, id, text, rs.drop_last(), now),
            id,
            text,
            rs.len() - 1,
            rs.last(),
            now,
            lead_count(),
            k,
        );
    }
}

proof fn lemma_note_jobs_has(
    m: Map<JobKeyV, JobV>,
    id: int,
    text: Seq<char>,
    rs: Seq<ReminderV>,
    now: int,
    idx: int,
    l: int,
)
    requires
        0 <= idx < rs.len(),
        0 <= l < lead_count(),
        notify_at_spec(rs[idx].0, l) > now,
    ensures
        note_jobs_insert(m, id, text, rs, now).contains_key((id, idx, lead_seconds_spec(l))),
        note_jobs_insert(m, id, text, rs, now)[(id, idx, lead_seconds_spec(l))] == job_for(
            text,
            rs[idx],
            l,
        ),
    decreases rs.len(),
{
    let inner = note_jobs_insert(m, id, text, rs.drop_last(), now);
    if idx == rs.len() - 1 {
        lemma_reminder_jobs_has(inner, id, text, idx, rs.last(), now, lead_count(), l);
    } else {
        lemma_note_jobs_has(m, id, text, rs.drop_last(), now, idx, l);
        assert(rs.drop_last()[idx] == rs[idx]);
        lemma_reminder_jobs_keep(
            inner,
            id,
            text,
            rs.len() - 1,
            rs.last(),
            now,
            lead_count(),
            (id, idx, lead_seconds_spec(l)),
        );
    }
}

/// Notes with pairwise distinct ids.
pub open spec fn distinct_note_ids(notes: Seq<NoteRemindersV>) -> bool {
    forall|a: int, b: int| 0 <= a < b < notes.len() ==> (#[trigger] notes[a]).0 != (#[trigger] notes[b]).0
}

/// Every reminder of every note gets each of its notifications (30, 10 and
/// 5 minutes before it is due, and at the time itself) whose moment is still
/// ahead, keyed by note, reminder and lead, with the reminder's body and
/// subtitle; the notes' ids being distinct.
pub proof fn lemma_every_notification_is_scheduled(
    notes: Seq<NoteRemindersV>,
    now: int,
    n: int,
    idx: int,
    l: int,
)
    requires
        distinct_note_ids(notes),
        0 <= n < notes.len(),
        0 <= idx < notes[n].2.len(),
        0 <= l < lead_count(),
        notify_at_spec(notes[n].2[idx].0, l) > now,
    ensures
        jobs_spec(notes, now).contains_key((notes[n].0, idx, lead_seconds_spec(l))),
        jobs_spec(notes, now)[(notes[n].0, idx, lead_seconds_spec(l))] == job_for(
            notes[n].1,
            notes[n].2[idx],
            l,
        ),
    decreases notes.len(),
{
    let prev = notes.drop_last();
    let last = notes.last();
    if n == notes.len() - 1 {
        lemma_note_jobs_has(jobs_spec(prev, now), last.0, last.1, last.2, now, idx, l);
    } else {
        assert(prev[n] == notes[n]);
        assert(distinct_note_ids(prev)) by {
            assert forall|a: int, b: int| 0 <= a < b < prev.len() implies (#[trigger] prev[a]).0 != (
            #[trigger] prev[b]).0 by {
                assert(prev[a] == notes[a] && prev[b] == notes[b]);
            }
        }
        lemma_every_notification_is_scheduled(prev, now, n, idx, l);
        assert(notes[n].0 != notes[notes.len() - 1].0);
        lemma_note_jobs_keep(
            jobs_spec(prev, now),
            last.0,
            last.1,
            last.2,
            now,
            (notes[n].0, idx, lead_seconds_spec(l)),
        );
    }
}

/// Taking the due jobs splits the scheduled jobs in two: the due ones fire at
/// or before `now`, the waiting ones after it, and none is lost or repeated.
pub proof fn lemma_due_jobs_partition(v: Seq<(JobKeyV, JobV)>, now: int)
    ensures
        forall|k: int| 0 <= k < due_jobs(v, now).len() ==> (#[trigger] due_jobs(v, now)[k]).0 <= now,
        forall|k: int|
            0 <= k < waiting_jobs(v, now).len() ==> (#[trigger] waiting_jobs(v, now)[k]).1.0 > now,
        due_jobs(v, now).len() + waiting_jobs(v, now).len() == v.len(),
    decreases v.len(),
{
    if v.len() > 0 {
        let p = v.drop_last();
        lemma_due_jobs_partition(p, now);
        let d = due_jobs(p, now);
        let w = waiting_jobs(p, now);
        if v.last().1.0 <= now {
            assert forall|k: int| 0 <= k < due_jobs(v, now).len() implies (#[trigger] due_jobs(
                v,
                now,
            )[k]).0 <= now by {
                if k < d.len() {
                    assert(due_jobs(v, now)[k] == d[k]);
                }
            }
        } else {
            assert forall|k: int| 0 <= k < waiting_jobs(v, now).len() implies (#[trigger] waiting_jobs(
                v,
                now,
            )[k]).1.0 > now by {
                if k < w.len() {
                    assert(waiting_jobs(v, now)[k] == w[k]);
                }
            }
        }
    }
}

/// Escaping for an AppleScript literal leaves no line break in the text.
pub proof fn lemma_escaped_has_no_line_break(s: Seq<char>)
    ensures
        forall|k: int|
            0 <= k < escape_all(s).len() ==> #[trigger] escape_all(s)[k] != '\n' && escape_all(s)[k]
                != '\r',
    decreases s.len(),
{
    reveal_strlit("\\\\");
    reveal_strlit("\\\"");
    reveal_strlit("\\r");
    reveal_strlit("\\n");
    if s.len() > 0 {
        let p = escape_all(s.drop_last());
        let e = escape_char(s.last());
        lemma_escaped_has_no_line_break(s.drop_last());
        assert forall|k: int| 0 <= k < escape_all(s).len() implies #[trigger] escape_all(s)[k] != '\n'
            && escape_all(s)[k] != '\r' by {
            if k < p.len() {
                assert(escape_all(s)[k] == p[k]);
            } else {
                assert(escape_all(s)[k] == e[k - p.len()]);
            }
        }
    }
}

/// How a notification that comes `seconds` before the due time says so:
/// "Due now" at the due time, else the number of minutes and "minutes before".
pub open spec fn label_for_seconds(seconds: int) -> Seq<char> {
    if seconds == 0 {
        "Due now"@
    } else {
        decimal((seconds / 60) as nat) + " minutes before"@
    }
}

/// Each notification of a reminder says how early it comes: its label names
/// its lead in minutes ("Due now" for the notification at the due time), the
/// leads are whole minutes, and distinct notifications have distinct leads and
/// distinct labels.
pub proof fn lemma_lead_labels_name_their_leads(l: int, k: int)
    requires
        0 <= l < lead_count(),
        0 <= k < lead_count(),
    ensures
        lead_seconds_spec(l) >= 0,
        lead_seconds_spec(l) % 60 == 0,
        lead_label_spec(l) == label_for_seconds(lead_seconds_spec(l)),
        l != k ==> lead_seconds_spec(l) != lead_seconds_spec(k),
        l != k ==> lead_label_spec(l) != lead_label_spec(k),
{
    reveal_strlit("30 minutes before");
    reveal_strlit("10 minutes before");
    reveal_strlit("5 minutes before");
    reveal_strlit("Due now");
    reveal_strlit(" minutes before");
    assert(decimal(3) == seq!['3']);
    assert(decimal(30) =~= seq!['3', '0']);
    assert(decimal(1) == seq!['1']);
    assert(decimal(10) =~= seq!['1', '0']);
    assert(decimal(5) == seq!['5']);
    assert(decimal(30) + " minutes before"@ =~= "30 minutes before"@);
    assert(decimal(10) + " minutes before"@ =~= "10 minutes before"@);
    assert(decimal(5) + " minutes before"@ =~= "5 minutes before"@);
    assert("30 minutes before"@[0] != "10 minutes before"@[0]);
    assert("30 minutes before"@[0] != "5 minutes before"@[0]);
    assert("10 minutes before"@[0] != "5 minutes before"@[0]);
    assert("30 minutes before"@[0] != "Due now"@[0]);
    assert("10 minutes before"@[0] != "Due now"@[0]);
    assert("5 minutes before"@[0] != "Due now"@[0]);
}

} // verus!
