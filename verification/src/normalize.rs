//! Normalizing the text of a note: typed dates and times become readable, and
//! each line that names a date or a time becomes a reminder.
use crate::calendar::{day_of_instant, in_local_range, in_timestamp_range, Date, Time};
use crate::format::{format_date_spec, format_time_spec};
use crate::reminder::{
    build_due_at, copy_opt_string, due_at_facts, opt_chars, opt_date, opt_time, push_reminder,
    push_unique, reminders_view, visible_reminder_date, visible_reminder_time, Reminder, ReminderV,
};
use crate::text::{chars_of, push_str, seq_contains, string_of, trim_chars, trim_spec};
use crate::tokens::{
    date_edits, date_scan, date_token_edits, date_token_raw, find_date_tokens, find_time_tokens,
    lemma_line_edits_wf, lemma_normalized_line_has_no_newline, no_newline, normalize_line_spec,
    normalize_line_tokens, time_edits, time_scan, time_token_edits, time_token_raw,
};
use vstd::prelude::*;

verus! {

/// A date a line of a note names, with its readable text.
pub struct DateEntry {
    pub date: Date,
    pub text: String,
}

/// A time a line of a note names, with its readable text.
pub struct TimeEntry {
    pub time: Time,
    pub text: String,
}

/// A date entry as plain values.
pub type DateEntryV = ((int, int, int), Seq<char>);

/// A time entry as plain values.
pub type TimeEntryV = ((int, int, int), Seq<char>);

/// A reminder to be built: its date and time, and their texts.
pub struct Candidate {
    pub date: Option<Date>,
    pub time: Option<Time>,
    pub date_text: Option<String>,
    pub time_text: Option<String>,
}

/// A candidate as plain values.
pub type CandidateV = (
    Option<(int, int, int)>,
    Option<(int, int, int)>,
    Option<Seq<char>>,
    Option<Seq<char>>,
);

impl View for DateEntry {
    type V = DateEntryV;

    open spec fn view(&self) -> DateEntryV {
        (self.date@, self.text@)
    }
}

impl View for TimeEntry {
    type V = TimeEntryV;

    open spec fn view(&self) -> TimeEntryV {
        (self.time@, self.text@)
    }
}

impl View for Candidate {
    type V = CandidateV;

    open spec fn view(&self) -> CandidateV {
        (opt_date(self.date), opt_time(self.time), opt_chars(self.date_text), opt_chars(self.time_text))
    }
}

/// Date entries as plain values.
pub open spec fn date_entries_view(v: Seq<DateEntry>) -> Seq<DateEntryV> {
    v.map_values(|e: DateEntry| e@)
}

/// Time entries as plain values.
pub open spec fn time_entries_view(v: Seq<TimeEntry>) -> Seq<TimeEntryV> {
    v.map_values(|e: TimeEntry| e@)
}

/// Candidates as plain values.
pub open spec fn candidates_view(v: Seq<Candidate>) -> Seq<CandidateV> {
    v.map_values(|c: Candidate| c@)
}

/// The elements of `xs` in order, each kept at its first occurrence only.
pub open spec fn dedup_seq<A>(xs: Seq<A>) -> Seq<A>
    decreases xs.len(),
{
    if xs.len() == 0 {
        seq![]
    } else {
        push_unique(dedup_seq(xs.drop_last()), xs.last())
    }
}

/// The dates typed in a line, with their readable texts.
pub open spec fn token_date_entries(line: Seq<char>) -> Seq<DateEntryV> {
    date_scan(line, 0, 0).map_values(|t: (int, int, (int, int, int))| (t.2, format_date_spec(t.2)))
}

/// The times typed in a line, with their readable texts.
pub open spec fn token_time_entries(line: Seq<char>) -> Seq<TimeEntryV> {
    time_scan(line, 0, 0).map_values(|t: (int, int, (int, int, int))| (t.2, format_time_spec(t.2)))
}

/// The dates of existing reminders still visible in the line, with their
/// texts: `vd[k]` is the day of reminder `k` when it is visible.
pub open spec fn visible_date_entries(ex: Seq<ReminderV>, vd: Seq<Option<(int, int, int)>>) -> Seq<
    DateEntryV,
>
    decreases vd.len(),
{
    if vd.len() == 0 {
        seq![]
    } else {
        let n = vd.len() - 1;
        let prev = visible_date_entries(ex, vd.drop_last());
        match (vd[n], ex[n].1) {
            (Some(d), Some(t)) => prev.push((d, t)),
            _ => prev,
        }
    }
}

/// The times of existing reminders still visible in the line, with their
/// texts: `vt[k]` is the time of reminder `k` when it is visible.
pub open spec fn visible_time_entries(ex: Seq<ReminderV>, vt: Seq<Option<(int, int, int)>>) -> Seq<
    TimeEntryV,
>
    decreases vt.len(),
{
    if vt.len() == 0 {
        seq![]
    } else {
        let n = vt.len() - 1;
        let prev = visible_time_entries(ex, vt.drop_last());
        match (vt[n], ex[n].2) {
            (Some(t), Some(x)) => prev.push((t, x)),
            _ => prev,
        }
    }
}

/// All dates of a line: typed ones, then visible ones of existing reminders,
/// without repetition.
pub open spec fn line_date_entries(
    line: Seq<char>,
    ex: Seq<ReminderV>,
    vd: Seq<Option<(int, int, int)>>,
) -> Seq<DateEntryV> {
    dedup_seq(token_date_entries(line) + visible_date_entries(ex, vd))
}

/// All times of a line: typed ones, then visible ones of existing reminders,
/// without repetition.
pub open spec fn line_time_entries(
    line: Seq<char>,
    ex: Seq<ReminderV>,
    vt: Seq<Option<(int, int, int)>>,
) -> Seq<TimeEntryV> {
    dedup_seq(token_time_entries(line) + visible_time_entries(ex, vt))
}

/// One date combined with each time.
pub open spec fn pairs_with(d: DateEntryV, te: Seq<TimeEntryV>) -> Seq<CandidateV> {
    te.map_values(|t: TimeEntryV| (Some(d.0), Some(t.0), Some(d.1), Some(t.1)))
}

/// Every date combined with every time, dates outermost.
pub open spec fn pairs(de: Seq<DateEntryV>, te: Seq<TimeEntryV>) -> Seq<CandidateV>
    decreases de.len(),
{
    if de.len() == 0 {
        seq![]
    } else {
        pairs(de.drop_last(), te) + pairs_with(de.last(), te)
    }
}

/// A reminder for a date alone.
pub open spec fn date_only(d: DateEntryV) -> CandidateV {
    (Some(d.0), None, Some(d.1), None)
}

/// A reminder for a time alone.
pub open spec fn time_only(t: TimeEntryV) -> CandidateV {
    (None, Some(t.0), None, Some(t.1))
}

/// The reminders a line asks for: each date at each time when it names both;
/// else each date alone; else each time alone.
pub open spec fn candidates_spec(de: Seq<DateEntryV>, te: Seq<TimeEntryV>) -> Seq<CandidateV> {
    if de.len() > 0 && te.len() > 0 {
        pairs(de, te)
    } else if de.len() > 0 {
        de.map_values(|d: DateEntryV| date_only(d))
    } else {
        te.map_values(|t: TimeEntryV| time_only(t))
    }
}

/// The reminders built from the candidates, where `dues[k]` is when
/// candidate `k` is due (`None`: not in the future), without repetition.
pub open spec fn assemble(cands: Seq<CandidateV>, dues: Seq<Option<int>>, body: Option<Seq<char>>) -> Seq<
    ReminderV,
>
    decreases dues.len(),
{
    if dues.len() == 0 {
        seq![]
    } else {
        let n = dues.len() - 1;
        let prev = assemble(cands, dues.drop_last(), body);
        match dues[n] {
            Some(t) => push_unique(prev, (t, cands[n].2, cands[n].3, body)),
            None => prev,
        }
    }
}

/// The body of a reminder: its line without surrounding white space, if that
/// is not empty.
pub open spec fn body_spec(line: Seq<char>) -> Option<Seq<char>> {
    if trim_spec(line).len() == 0 {
        None
    } else {
        Some(trim_spec(line))
    }
}

/// An existing reminder's date text is still visible in the line, as typed
/// or as normalized.
pub open spec fn date_text_visible(line: Seq<char>, norm: Seq<char>, r: ReminderV) -> bool {
    r.1 is Some && (seq_contains(line, r.1.unwrap()) || seq_contains(norm, r.1.unwrap()))
}

/// An existing reminder's time text is still visible in the line, as typed
/// or as normalized.
pub open spec fn time_text_visible(line: Seq<char>, norm: Seq<char>, r: ReminderV) -> bool {
    r.2 is Some && (seq_contains(line, r.2.unwrap()) || seq_contains(norm, r.2.unwrap()))
}

/// What holds of the day read for an existing reminder: one is read only
/// when its date text is visible and its due instant lies in chrono's
/// calendar, and always when moreover that instant is away from the calendar's
/// ends; the day is one the instant can fall on.
pub open spec fn date_reading_ok(
    line: Seq<char>,
    norm: Seq<char>,
    r: ReminderV,
    vd: Option<(int, int, int)>,
) -> bool {
    &&& vd is Some ==> date_text_visible(line, norm, r) && in_timestamp_range(r.0)
    &&& date_text_visible(line, norm, r) && in_local_range(r.0) ==> vd is Some
    &&& vd matches Some(d) ==> day_of_instant(d, r.0)
}

/// What holds of the time read for an existing reminder: one is read exactly
/// when its time text is visible and its due instant lies in chrono's
/// calendar.
pub open spec fn time_reading_ok(
    line: Seq<char>,
    norm: Seq<char>,
    r: ReminderV,
    vt: Option<(int, int, int)>,
) -> bool {
    vt is Some <==> time_text_visible(line, norm, r) && in_timestamp_range(r.0)
}

/// What holds of when a candidate is due, whatever the clock and the time
/// zone answered: nothing when it is not due; else the facts of
/// `due_at_facts` for some reading of the clock.
pub open spec fn due_ok(cand: CandidateV, due: Option<int>) -> bool {
    due is Some ==> exists|now: int, today: (int, int, int)|
        day_of_instant(today, now) && #[trigger] due_at_facts(cand.0, cand.1, now, today, due->0)
}

proof fn lemma_due_ok(cand: CandidateV, t: int, now: int, today: (int, int, int))
    requires
        day_of_instant(today, now),
        due_at_facts(cand.0, cand.1, now, today, t),
    ensures
        due_ok(cand, Some(t)),
{
    assert(due_at_facts(cand.0, cand.1, now, today, t));
    assert(day_of_instant(today, now));
    assert(Some(t)->0 == t);
    assert(exists|now2: int, today2: (int, int, int)|
        day_of_instant(today2, now2) && #[trigger] due_at_facts(cand.0, cand.1, now2, today2, Some(t)->0));
}

/// The reminders of a line, given what the clock and the time zone answered:
/// `vd` and `vt` are the day and time of each existing reminder, given exactly
/// when its text is still visible in the line (as typed or as normalized) and
/// its due instant can be read in local time; `dues` when each candidate is
/// due (`None`: not in the future, or no such local time).
pub open spec fn line_outcome(
    line: Seq<char>,
    ex: Seq<ReminderV>,
    vd: Seq<Option<(int, int, int)>>,
    vt: Seq<Option<(int, int, int)>>,
    dues: Seq<Option<int>>,
    rs: Seq<ReminderV>,
) -> bool {
    let norm = normalize_line_spec(line);
    let cands = candidates_spec(line_date_entries(line, ex, vd), line_time_entries(line, ex, vt));
    &&& vd.len() == ex.len()
    &&& vt.len() == ex.len()
    &&& forall|k: int| 0 <= k < ex.len() ==> date_reading_ok(line, norm, ex[k], #[trigger] vd[k])
    &&& forall|k: int| 0 <= k < ex.len() ==> time_reading_ok(line, norm, ex[k], #[trigger] vt[k])
    &&& dues.len() == cands.len()
    &&& forall|c: int| 0 <= c < cands.len() ==> due_ok(cands[c], #[trigger] dues[c])
    &&& rs == assemble(cands, dues, body_spec(norm))
}

/// `rs` are the reminders of the line for some answers of the clock and the
/// time zone.
pub open spec fn line_reminders_ok(line: Seq<char>, ex: Seq<ReminderV>, rs: Seq<ReminderV>) -> bool {
    exists|vd: Seq<Option<(int, int, int)>>, vt: Seq<Option<(int, int, int)>>, dues: Seq<Option<int>>|
        #[trigger] line_outcome(line, ex, vd, vt, dues, rs)
}

/// Adds a date entry unless an equal one is already in the list.
pub fn push_date_entry(entries: &mut Vec<DateEntry>, date: Date, text: String)
    ensures
        date_entries_view(final(entries)@) == push_unique(
            date_entries_view(old(entries)@),
            (date@, text@),
        ),
{
    let ghost old_view = date_entries_view(entries@);
    let ghost x = (date@, text@);
    let mut i: usize = 0;
    while i < entries.len()
        invariant
            i <= entries.len(),
            old_view == date_entries_view(entries@),
            x == (date@, text@),
            forall|k: int| 0 <= k < i ==> old_view[k] != x,
        decreases entries.len() - i,
    {
        if entries[i].date.same_day(&date) && entries[i].text == text {
            assert(old_view[i as int] == x);
            assert(old_view.contains(x));
            return;
        }
        i = i + 1;
    }
    assert(!old_view.contains(x));
    entries.push(DateEntry { date, text });
    assert(date_entries_view(entries@) =~= old_view.push(x));
}

/// Adds a time entry unless an equal one is already in the list.
pub fn push_time_entry(entries: &mut Vec<TimeEntry>, time: Time, text: String)
    ensures
        time_entries_view(final(entries)@) == push_unique(
            time_entries_view(old(entries)@),
            (time@, text@),
        ),
{
    let ghost old_view = time_entries_view(entries@);
    let ghost x = (time@, text@);
    let mut i: usize = 0;
    while i < entries.len()
        invariant
            i <= entries.len(),
            old_view == time_entries_view(entries@),
            x == (time@, text@),
            forall|k: int| 0 <= k < i ==> old_view[k] != x,
        decreases entries.len() - i,
    {
        if entries[i].time.same_time(&time) && entries[i].text == text {
            assert(old_view[i as int] == x);
            assert(old_view.contains(x));
            return;
        }
        i = i + 1;
    }
    assert(!old_view.contains(x));
    entries.push(TimeEntry { time, text });
    assert(time_entries_view(entries@) =~= old_view.push(x));
}

/// The body of the reminders of a line: the line without surrounding white
/// space, or `None` when nothing is left.
pub fn reminder_body_for_line(line: &[char]) -> (r: Option<String>)
    ensures
        opt_chars(r) == body_spec(line@),
{
    let trimmed = trim_chars(line);
    if trimmed.len() == 0 {
        None
    } else {
        Some(string_of(&trimmed))
    }
}

/// A copy of an optional date.
fn copy_opt_date(d: &Option<Date>) -> (r: Option<Date>)
    ensures
        opt_date(r) == opt_date(*d),
{
    match d {
        Some(x) => Some(x.copy()),
        None => None,
    }
}

/// A copy of an optional time.
fn copy_opt_time(t: &Option<Time>) -> (r: Option<Time>)
    ensures
        opt_time(r) == opt_time(*t),
{
    match t {
        Some(x) => Some(x.copy()),
        None => None,
    }
}

/// The reminders a line asks for, from its dates and its times.
pub fn line_candidates(date_entries: &Vec<DateEntry>, time_entries: &Vec<TimeEntry>) -> (out: Vec<
    Candidate,
>)
    ensures
        candidates_view(out@) == candidates_spec(
            date_entries_view(date_entries@),
            time_entries_view(time_entries@),
        ),
{
    let ghost de = date_entries_view(date_entries@);
    let ghost te = time_entries_view(time_entries@);
    let mut out: Vec<Candidate> = Vec::new();
    if date_entries.len() > 0 && time_entries.len() > 0 {
        let mut i: usize = 0;
        assert(candidates_view(out@) =~= pairs(de.take(0), te));
        while i < date_entries.len()
            invariant
                i <= date_entries.len(),
                de == date_entries_view(date_entries@),
                te == time_entries_view(time_entries@),
                candidates_view(out@) == pairs(de.take(i as int), te),
            decreases date_entries.len() - i,
        {
            let ghost before = candidates_view(out@);
            let mut j: usize = 0;
            assert(candidates_view(out@) =~= before + pairs_with(de[i as int], te.take(0)));
            while j < time_entries.len()
                invariant
                    i < date_entries.len(),
                    j <= time_entries.len(),
                    de == date_entries_view(date_entries@),
                    te == time_entries_view(time_entries@),
                    candidates_view(out@) == before + pairs_with(de[i as int], te.take(j as int)),
                decreases time_entries.len() - j,
            {
                let d = &date_entries[i];
                let t = &time_entries[j];
                let c = Candidate {
                    date: Some(d.date.copy()),
                    time: Some(t.time.copy()),
                    date_text: Some(d.text.clone()),
                    time_text: Some(t.text.clone()),
                };
                let ghost prev = candidates_view(out@);
                assert(c@ == (Some(de[i as int].0), Some(te[j as int].0), Some(de[i as int].1), Some(
                    te[j as int].1,
                )));
                out.push(c);
                assert(candidates_view(out@) =~= prev.push(c@));
                assert(pairs_with(de[i as int], te.take(j + 1)) =~= pairs_with(
                    de[i as int],
                    te.take(j as int),
                ).push(c@));
                j = j + 1;
            }
            assert(te.take(j as int) =~= te);
            i = i + 1;
            assert(de.take(i as int).drop_last() =~= de.take(i - 1));
            assert(candidates_view(out@) =~= pairs(de.take(i as int), te));
        }
        assert(de.take(i as int) =~= de);
    } else if date_entries.len() > 0 {
        let mut i: usize = 0;
        while i < date_entries.len()
            invariant
                i <= date_entries.len(),
                de == date_entries_view(date_entries@),
                candidates_view(out@) == de.take(i as int).map_values(|d: DateEntryV| date_only(d)),
            decreases date_entries.len() - i,
        {
            let d = &date_entries[i];
            let c = Candidate {
                date: Some(d.date.copy()),
                time: None,
                date_text: Some(d.text.clone()),
                time_text: None,
            };
            let ghost prev = candidates_view(out@);
            assert(c@ == date_only(de[i as int]));
            out.push(c);
            assert(candidates_view(out@) =~= prev.push(c@));
            i = i + 1;
            assert(candidates_view(out@) =~= de.take(i as int).map_values(|d: DateEntryV| date_only(d)));
        }
        assert(de.take(i as int) =~= de);
    } else {
        let mut j: usize = 0;
        while j < time_entries.len()
            invariant
                j <= time_entries.len(),
                te == time_entries_view(time_entries@),
                candidates_view(out@) == te.take(j as int).map_values(|t: TimeEntryV| time_only(t)),
            decreases time_entries.len() - j,
        {
            let t = &time_entries[j];
            let c = Candidate {
                date: None,
                time: Some(t.time.copy()),
                date_text: None,
                time_text: Some(t.text.clone()),
            };
            let ghost prev = candidates_view(out@);
            assert(c@ == time_only(te[j as int]));
            out.push(c);
            assert(candidates_view(out@) =~= prev.push(c@));
            j = j + 1;
            assert(candidates_view(out@) =~= te.take(j as int).map_values(|t: TimeEntryV| time_only(t)));
        }
        assert(te.take(j as int) =~= te);
    }
    out
}

/// Optional dates as plain values.
pub open spec fn opt_dates(v: Seq<Option<Date>>) -> Seq<Option<(int, int, int)>> {
    v.map_values(|o: Option<Date>| opt_date(o))
}

/// Optional times as plain values.
pub open spec fn opt_times(v: Seq<Option<Time>>) -> Seq<Option<(int, int, int)>> {
    v.map_values(|o: Option<Time>| opt_time(o))
}

/// Optional instants as plain values.
pub open spec fn opt_instants(v: Seq<Option<i64>>) -> Seq<Option<int>> {
    v.map_values(|o: Option<i64>|
        match o {
            Some(x) => Some(x as int),
            None => None,
        })
}

/// The reminders a line asks for, before asking the clock when each is due:
/// its typed dates and times, then the dates and times of existing reminders
/// still visible in it (`visible_dates[k]` and `visible_times[k]`, those of
/// reminder `k`), each once; combined as `candidates_spec` combines them.
pub fn line_reminder_candidates(
    line: &[char],
    existing: &[Reminder],
    visible_dates: &[Option<Date>],
    visible_times: &[Option<Time>],
) -> (cands: Vec<Candidate>)
    requires
        visible_dates.len() == existing.len(),
        visible_times.len() == existing.len(),
    ensures
        candidates_view(cands@) == candidates_spec(
            line_date_entries(line@, reminders_view(existing@), opt_dates(visible_dates@)),
            line_time_entries(line@, reminders_view(existing@), opt_times(visible_times@)),
        ),
{
    let date_tokens = find_date_tokens(line);
    let time_tokens = find_time_tokens(line);
    let ghost ex = reminders_view(existing@);
    let ghost vds = opt_dates(visible_dates@);
    let ghost vts = opt_times(visible_times@);
    let ghost tde = token_date_entries(line@);
    let ghost tte = token_time_entries(line@);
    let mut date_entries: Vec<DateEntry> = Vec::new();
    let mut time_entries: Vec<TimeEntry> = Vec::new();
    let mut i: usize = 0;
    assert(tde.take(0) =~= seq![]);
    while i < date_tokens.len()
        invariant
            i <= date_tokens.len(),
            tde == token_date_entries(line@),
            date_token_raw(date_tokens@) == date_scan(line@, 0, 0),
            forall|k: int|
                0 <= k < date_tokens.len() ==> (#[trigger] date_tokens@[k]).replacement@
                    == format_date_spec(date_tokens@[k].date@),
            date_entries_view(date_entries@) == dedup_seq(tde.take(i as int)),
        decreases date_tokens.len() - i,
    {
        assert(date_token_raw(date_tokens@)[i as int] == date_scan(line@, 0, 0)[i as int]);
        assert(tde[i as int] == (date_tokens@[i as int].date@, date_tokens@[i as int].replacement@));
        push_date_entry(
            &mut date_entries,
            date_tokens[i].date.copy(),
            date_tokens[i].replacement.clone(),
        );
        i = i + 1;
        assert(tde.take(i as int).drop_last() =~= tde.take(i - 1));
    }
    assert(tde.take(i as int) =~= tde);
    let mut j: usize = 0;
    assert(tte.take(0) =~= seq![]);
    while j < time_tokens.len()
        invariant
            j <= time_tokens.len(),
            tte == token_time_entries(line@),
            time_token_raw(time_tokens@) == time_scan(line@, 0, 0),
            forall|k: int|
                0 <= k < time_tokens.len() ==> (#[trigger] time_tokens@[k]).replacement@
                    == format_time_spec(time_tokens@[k].time@),
            time_entries_view(time_entries@) == dedup_seq(tte.take(j as int)),
        decreases time_tokens.len() - j,
    {
        assert(time_token_raw(time_tokens@)[j as int] == time_scan(line@, 0, 0)[j as int]);
        assert(tte[j as int] == (time_tokens@[j as int].time@, time_tokens@[j as int].replacement@));
        push_time_entry(
            &mut time_entries,
            time_tokens[j].time.copy(),
            time_tokens[j].replacement.clone(),
        );
        j = j + 1;
        assert(tte.take(j as int).drop_last() =~= tte.take(j - 1));
    }
    assert(tte.take(j as int) =~= tte);
    let mut k: usize = 0;
    assert(vds.take(0) =~= seq![]);
    assert(vts.take(0) =~= seq![]);
    assert(tde + visible_date_entries(ex, vds.take(0)) =~= tde);
    assert(tte + visible_time_entries(ex, vts.take(0)) =~= tte);
    while k < existing.len()
        invariant
            k <= existing.len(),
            visible_dates.len() == existing.len(),
            visible_times.len() == existing.len(),
            ex == reminders_view(existing@),
            vds == opt_dates(visible_dates@),
            vts == opt_times(visible_times@),
            date_entries_view(date_entries@) == dedup_seq(tde + visible_date_entries(ex, vds.take(k as int))),
            time_entries_view(time_entries@) == dedup_seq(tte + visible_time_entries(ex, vts.take(k as int))),
        decreases existing.len() - k,
    {
        let reminder = &existing[k];
        assert(ex[k as int] == reminder@);
        assert(vds.take(k + 1).drop_last() =~= vds.take(k as int));
        assert(vts.take(k + 1).drop_last() =~= vts.take(k as int));
        assert(vds.take(k + 1)[k as int] == opt_date(visible_dates@[k as int]));
        assert(vts.take(k + 1)[k as int] == opt_time(visible_times@[k as int]));
        let ghost old_de = tde + visible_date_entries(ex, vds.take(k as int));
        let ghost old_te = tte + visible_time_entries(ex, vts.take(k as int));
        match (&visible_dates[k], &reminder.date_text) {
            (Some(date), Some(text)) => {
                let ghost x = (date@, text@);
                assert(visible_date_entries(ex, vds.take(k + 1)) == visible_date_entries(
                    ex,
                    vds.take(k as int),
                ).push(x));
                assert((tde + visible_date_entries(ex, vds.take(k + 1))).drop_last() =~= old_de);
                push_date_entry(&mut date_entries, date.copy(), text.clone());
            },
            _ => {
                assert(visible_date_entries(ex, vds.take(k + 1)) == visible_date_entries(
                    ex,
                    vds.take(k as int),
                ));
            },
        }
        match (&visible_times[k], &reminder.time_text) {
            (Some(time), Some(text)) => {
                let ghost x = (time@, text@);
                assert(visible_time_entries(ex, vts.take(k + 1)) == visible_time_entries(
                    ex,
                    vts.take(k as int),
                ).push(x));
                assert((tte + visible_time_entries(ex, vts.take(k + 1))).drop_last() =~= old_te);
                push_time_entry(&mut time_entries, time.copy(), text.clone());
            },
            _ => {
                assert(visible_time_entries(ex, vts.take(k + 1)) == visible_time_entries(
                    ex,
                    vts.take(k as int),
                ));
            },
        }
        k = k + 1;
    }
    assert(vds.take(k as int) =~= vds);
    assert(vts.take(k as int) =~= vts);
    line_candidates(&date_entries, &time_entries)
}

/// The reminders of the candidates, given when each is due (`dues[k]` for
/// candidate `k`; `None`: not due): each due candidate once, in order, with
/// its date and time texts and the line's body.
pub fn reminders_from_candidates(cands: &[Candidate], dues: &[Option<i64>], body: &Option<String>) -> (rs:
    Vec<Reminder>)
    requires
        dues.len() == cands.len(),
    ensures
        reminders_view(rs@) == assemble(candidates_view(cands@), opt_instants(dues@), opt_chars(*body)),
{
    let ghost cv = candidates_view(cands@);
    let ghost dv = opt_instants(dues@);
    let mut reminders: Vec<Reminder> = Vec::new();
    let mut c: usize = 0;
    assert(dv.take(0) =~= seq![]);
    while c < cands.len()
        invariant
            c <= cands.len(),
            dues.len() == cands.len(),
            cv == candidates_view(cands@),
            dv == opt_instants(dues@),
            reminders_view(reminders@) == assemble(cv, dv.take(c as int), opt_chars(*body)),
        decreases cands.len() - c,
    {
        let cand = &cands[c];
        assert(cv[c as int] == cand@);
        assert(dv.take(c + 1).drop_last() =~= dv.take(c as int));
        assert(dv.take(c + 1)[c as int] == dv[c as int]);
        match dues[c] {
            Some(t) => {
                let rem = Reminder {
                    due_at: t,
                    date_text: copy_opt_string(&cand.date_text),
                    time_text: copy_opt_string(&cand.time_text),
                    body: copy_opt_string(body),
                };
                assert(rem@ == (t as int, cv[c as int].2, cv[c as int].3, opt_chars(*body)));
                push_reminder(&mut reminders, rem);
            },
            None => {
            },
        }
        c = c + 1;
    }
    assert(dv.take(c as int) =~= dv);
    reminders
}

/// A line with its typed dates and times made readable, and the reminders
/// the line asks for: a date and a time on one line make one reminder for each
/// pair, a date alone one at 9:00 AM, a time alone one today or tomorrow.
/// Dates and times of `existing` reminders whose texts are still visible in
/// the line count as if typed again.
pub fn normalize_reminder_line(line: &[char], existing: &[Reminder]) -> (out: (String, Vec<Reminder>))
    ensures
        out.0@ == normalize_line_spec(line@),
        line_reminders_ok(line@, reminders_view(existing@), reminders_view(out.1@)),
{
    let date_tokens = find_date_tokens(line);
    let time_tokens = find_time_tokens(line);
    proof {
        lemma_line_edits_wf(line@);
        assert(date_token_edits(date_tokens@) =~= date_edits(line@)) by {
            assert forall|k: int| 0 <= k < date_tokens@.len() implies date_token_edits(
                date_tokens@,
            )[k] == date_edits(line@)[k] by {
                assert(date_token_raw(date_tokens@)[k] == date_scan(line@, 0, 0)[k]);
            }
        }
        assert(time_token_edits(time_tokens@) =~= time_edits(line@)) by {
            assert forall|k: int| 0 <= k < time_tokens@.len() implies time_token_edits(
                time_tokens@,
            )[k] == time_edits(line@)[k] by {
                assert(time_token_raw(time_tokens@)[k] == time_scan(line@, 0, 0)[k]);
            }
        }
    }
    let normalized = normalize_line_tokens(line, &date_tokens, &time_tokens);
    let normalized_chars = chars_of(normalized.as_str());
    let body = reminder_body_for_line(&normalized_chars);
    let ghost norm = normalized@;
    let ghost ex = reminders_view(existing@);
    let mut visible_dates: Vec<Option<Date>> = Vec::new();
    let mut visible_times: Vec<Option<Time>> = Vec::new();
    let mut k: usize = 0;
    while k < existing.len()
        invariant
            k <= existing.len(),
            ex == reminders_view(existing@),
            norm == normalized_chars@,
            norm == normalize_line_spec(line@),
            visible_dates.len() == k,
            visible_times.len() == k,
            forall|m: int|
                0 <= m < k ==> date_reading_ok(line@, norm, ex[m], #[trigger] opt_dates(visible_dates@)[m]),
            forall|m: int|
                0 <= m < k ==> time_reading_ok(line@, norm, ex[m], #[trigger] opt_times(visible_times@)[m]),
        decreases existing.len() - k,
    {
        let reminder = &existing[k];
        assert(ex[k as int] == reminder@);
        let vd = match visible_reminder_date(line, reminder) {
            Some(d) => Some(d),
            None => visible_reminder_date(&normalized_chars, reminder),
        };
        let vt = match visible_reminder_time(line, reminder) {
            Some(t) => Some(t),
            None => visible_reminder_time(&normalized_chars, reminder),
        };
        let ghost old_vd = visible_dates@;
        let ghost old_vt = visible_times@;
        visible_dates.push(vd);
        visible_times.push(vt);
        proof {
            assert forall|m: int| 0 <= m < k implies opt_dates(visible_dates@)[m] == opt_dates(
                old_vd,
            )[m] by {
                assert(visible_dates@[m] == old_vd[m]);
            }
            assert forall|m: int| 0 <= m < k implies opt_times(visible_times@)[m] == opt_times(
                old_vt,
            )[m] by {
                assert(visible_times@[m] == old_vt[m]);
            }
            assert(opt_dates(visible_dates@)[k as int] == opt_date(vd));
            assert(opt_times(visible_times@)[k as int] == opt_time(vt));
            assert(reminder@.1 == opt_chars(reminder.date_text));
            assert(date_reading_ok(line@, norm, ex[k as int], opt_date(vd)));
            assert(time_reading_ok(line@, norm, ex[k as int], opt_time(vt)));
            assert forall|m: int| 0 <= m < k + 1 implies date_reading_ok(
                line@,
                norm,
                ex[m],
                #[trigger] opt_dates(visible_dates@)[m],
            ) by {
                if m < k {
                    assert(opt_dates(visible_dates@)[m] == opt_dates(old_vd)[m]);
                }
            }
            assert forall|m: int| 0 <= m < k + 1 implies time_reading_ok(
                line@,
                norm,
                ex[m],
                #[trigger] opt_times(visible_times@)[m],
            ) by {
                if m < k {
                    assert(opt_times(visible_times@)[m] == opt_times(old_vt)[m]);
                }
            }
        }
        k = k + 1;
    }
    let candidates = line_reminder_candidates(line, existing, &visible_dates, &visible_times);
    let ghost cands = candidates_view(candidates@);
    let mut dues: Vec<Option<i64>> = Vec::new();
    let mut c: usize = 0;
    while c < candidates.len()
        invariant
            c <= candidates.len(),
            cands == candidates_view(candidates@),
            dues.len() == c,
            forall|m: int| 0 <= m < c ==> due_ok(cands[m], #[trigger] opt_instants(dues@)[m]),
        decreases candidates.len() - c,
    {
        let cand = &candidates[c];
        assert(cands[c as int] == cand@);
        let date_arg = copy_opt_date(&cand.date);
        let time_arg = copy_opt_time(&cand.time);
        let ghost gd = opt_date(date_arg);
        let ghost gt = opt_time(time_arg);
        let due = build_due_at(date_arg, time_arg);
        let ghost old = dues@;
        dues.push(due);
        proof {
            assert forall|m: int| 0 <= m < c implies opt_instants(dues@)[m] == opt_instants(old)[m] by {
                assert(dues@[m] == old[m]);
            }
            let dv = opt_instants(dues@)[c as int];
            assert(dv == match due {
                Some(x) => Some(x as int),
                None => None,
            });
            if let Some(t) = due {
                let (n, td) = choose|n: int, td: (int, int, int)|
                    day_of_instant(td, n) && #[trigger] due_at_facts(gd, gt, n, td, t as int);
                assert(gd == cands[c as int].0 && gt == cands[c as int].1);
                assert(day_of_instant(td, n) && due_at_facts(
                    cands[c as int].0,
                    cands[c as int].1,
                    n,
                    td,
                    t as int,
                ));
                assert(opt_instants(dues@)[c as int] == Some(t as int));
                assert(exists|now: int, today: (int, int, int)|
                    day_of_instant(today, now) && #[trigger] due_at_facts(
                        cands[c as int].0,
                        cands[c as int].1,
                        now,
                        today,
                        t as int,
                    ));
                lemma_due_ok(cands[c as int], t as int, n, td);
            } else {
                assert(opt_instants(dues@)[c as int] is None);
            }
            assert(due_ok(cands[c as int], opt_instants(dues@)[c as int]));
            assert forall|m: int| 0 <= m < c + 1 implies due_ok(
                cands[m],
                #[trigger] opt_instants(dues@)[m],
            ) by {
                if m < c {
                    assert(opt_instants(dues@)[m] == opt_instants(old)[m]);
                }
            }
        }
        c = c + 1;
    }
    let reminders = reminders_from_candidates(&candidates, &dues, &body);
    proof {
        let vds = opt_dates(visible_dates@);
        let vts = opt_times(visible_times@);
        let dv = opt_instants(dues@);
        assert(line_outcome(line@, ex, vds, vts, dv, reminders_view(reminders@)));
    }
    (normalized, reminders)
}

proof fn lemma_push_unique<A>(s: Seq<A>, x: A)
    requires
        s.no_duplicates(),
    ensures
        push_unique(s, x).no_duplicates(),
        push_unique(s, x).contains(x),
        forall|y: A| #[trigger] push_unique(s, x).contains(y) <==> (s.contains(y) || y == x),
{
    if !s.contains(x) {
        let e = s.push(x);
        assert(e[s.len() as int] == x);
        assert forall|y: A| #[trigger] e.contains(y) <==> (s.contains(y) || y == x) by {
            if e.contains(y) && y != x {
                let k = choose|k: int| 0 <= k < e.len() && e[k] == y;
                assert(s[k] == y);
            }
            if s.contains(y) {
                let k = choose|k: int| 0 <= k < s.len() && s[k] == y;
                assert(e[k] == y);
            }
        }
    }
}

proof fn lemma_assemble(cands: Seq<CandidateV>, dues: Seq<Option<int>>, body: Option<Seq<char>>)
    requires
        dues.len() <= cands.len(),
    ensures
        assemble(cands, dues, body).no_duplicates(),
        forall|r: ReminderV|
            #[trigger] assemble(cands, dues, body).contains(r) ==> r.3 == body && exists|k: int|
                0 <= k < dues.len() && dues[k] == Some(r.0) && r.1 == cands[k].2 && r.2
                    == cands[k].3,
    decreases dues.len(),
{
    if dues.len() > 0 {
        let n = dues.len() - 1;
        let p = dues.drop_last();
        lemma_assemble(cands, p, body);
        let prev = assemble(cands, p, body);
        if let Some(t) = dues[n] {
            let x = (t, cands[n].2, cands[n].3, body);
            lemma_push_unique(prev, x);
            assert forall|r: ReminderV| #[trigger] assemble(cands, dues, body).contains(r) implies r.3
                == body && exists|k: int|
                0 <= k < dues.len() && dues[k] == Some(r.0) && r.1 == cands[k].2 && r.2
                    == cands[k].3 by {
                if r == x {
                    assert(dues[n] == Some(r.0));
                } else {
                    assert(prev.contains(r));
                    let k = choose|k: int|
                        0 <= k < p.len() && p[k] == Some(r.0) && r.1 == cands[k].2 && r.2
                            == cands[k].3;
                    assert(dues[k] == p[k]);
                }
            }
        } else {
            assert forall|r: ReminderV| #[trigger] assemble(cands, dues, body).contains(r) implies r.3
                == body && exists|k: int|
                0 <= k < dues.len() && dues[k] == Some(r.0) && r.1 == cands[k].2 && r.2
                    == cands[k].3 by {
                assert(prev.contains(r));
                let k = choose|k: int|
                    0 <= k < p.len() && p[k] == Some(r.0) && r.1 == cands[k].2 && r.2 == cands[k].3;
                assert(dues[k] == p[k]);
            }
        }
    }
}

proof fn lemma_assemble_has(cands: Seq<CandidateV>, dues: Seq<Option<int>>, body: Option<Seq<char>>)
    requires
        dues.len() <= cands.len(),
    ensures
        forall|c: int|
            0 <= c < dues.len() && (#[trigger] dues[c]) is Some ==> assemble(cands, dues, body).contains(
                (dues[c]->0, cands[c].2, cands[c].3, body),
            ),
    decreases dues.len(),
{
    if dues.len() > 0 {
        let n = dues.len() - 1;
        let p = dues.drop_last();
        lemma_assemble_has(cands, p, body);
        lemma_assemble(cands, p, body);
        let prev = assemble(cands, p, body);
        assert forall|c: int|
            0 <= c < dues.len() && (#[trigger] dues[c]) is Some implies assemble(cands, dues, body).contains(
                (dues[c]->0, cands[c].2, cands[c].3, body),
            ) by {
            let x = (dues[c]->0, cands[c].2, cands[c].3, body);
            if let Some(t) = dues[n] {
                lemma_push_unique(prev, (t, cands[n].2, cands[n].3, body));
                if c < n {
                    assert(p[c] == dues[c]);
                    assert(prev.contains(x));
                }
            } else {
                assert(c < n);
                assert(p[c] == dues[c]);
            }
        }
    }
}

/// The reminders built from candidates are exactly the due ones: each
/// candidate whose due instant came back gives a reminder with that instant,
/// its date and time texts and the body, and every reminder is such a one,
/// each once.
pub proof fn lemma_reminders_are_the_due_candidates(
    cands: Seq<CandidateV>,
    dues: Seq<Option<int>>,
    body: Option<Seq<char>>,
)
    requires
        dues.len() == cands.len(),
    ensures
        assemble(cands, dues, body).no_duplicates(),
        forall|c: int|
            0 <= c < dues.len() && (#[trigger] dues[c]) is Some ==> assemble(cands, dues, body).contains(
                (dues[c]->0, cands[c].2, cands[c].3, body),
            ),
        forall|r: ReminderV|
            #[trigger] assemble(cands, dues, body).contains(r) ==> r.3 == body && exists|k: int|
                0 <= k < dues.len() && dues[k] == Some(r.0) && r.1 == cands[k].2 && r.2
                    == cands[k].3,
{
    lemma_assemble(cands, dues, body);
    lemma_assemble_has(cands, dues, body);
}

/// The reminders of a line are distinct, each carries the line as normalized
/// and trimmed as its body, and a line that names no date and no time, with
/// no reminder before it, gives none.
pub proof fn lemma_line_reminders(line: Seq<char>, ex: Seq<ReminderV>, rs: Seq<ReminderV>)
    requires
        line_reminders_ok(line, ex, rs),
    ensures
        rs.no_duplicates(),
        forall|k: int| 0 <= k < rs.len() ==> (#[trigger] rs[k]).3 == body_spec(normalize_line_spec(line)),
        ex.len() == 0 && date_scan(line, 0, 0).len() == 0 && time_scan(line, 0, 0).len() == 0 ==> rs.len() == 0,
{
    let (vd, vt, dues) = choose|vd: Seq<Option<(int, int, int)>>, vt: Seq<Option<(int, int, int)>>, dues: Seq<Option<int>>|
        #[trigger] line_outcome(line, ex, vd, vt, dues, rs);
    let de = line_date_entries(line, ex, vd);
    let te = line_time_entries(line, ex, vt);
    let cands = candidates_spec(de, te);
    let body = body_spec(normalize_line_spec(line));
    lemma_assemble(cands, dues, body);
    assert forall|k: int| 0 <= k < rs.len() implies (#[trigger] rs[k]).3 == body by {
        assert(rs.contains(rs[k]));
    }
    if ex.len() == 0 && date_scan(line, 0, 0).len() == 0 && time_scan(line, 0, 0).len() == 0 {
        assert(token_date_entries(line) + visible_date_entries(ex, vd) =~= Seq::<DateEntryV>::empty());
        assert(token_time_entries(line) + visible_time_entries(ex, vt) =~= Seq::<TimeEntryV>::empty());
        assert(de.len() == 0);
        assert(te.len() == 0);
        assert(cands.len() == 0);
        assert(dues.len() == 0);
    }
}

/// The first position at or after `i` that holds a newline, or the end.
pub open spec fn next_newline(s: Seq<char>, i: int) -> int
    decreases s.len() - i,
{
    if i >= s.len() {
        s.len() as int
    } else if s[i] == '\n' {
        i
    } else {
        next_newline(s, i + 1)
    }
}

/// The next newline lies between `i` and the end of the text, is one, and
/// none comes before it.
pub proof fn lemma_next_newline(s: Seq<char>, i: int)
    ensures
        i < s.len() ==> i <= next_newline(s, i) <= s.len(),
        next_newline(s, i) < s.len() ==> s[next_newline(s, i)] == '\n',
        forall|k: int| 0 <= i <= k < next_newline(s, i) ==> #[trigger] s[k] != '\n',
    decreases s.len() - i,
{
    if i < s.len() && s[i] != '\n' {
        lemma_next_newline(s, i + 1);
    }
}

/// The text from position `i` cut after each newline, as `str::split_inclusive`
/// cuts it: no segment is empty and each but the last ends with a newline.
pub open spec fn segments_from(s: Seq<char>, i: int) -> Seq<Seq<char>>
    decreases s.len() - i,
{
    if i >= s.len() {
        seq![]
    } else {
        let j = next_newline(s, i);
        proof {
            lemma_next_newline(s, i);
        }
        if j < s.len() {
            seq![s.subrange(i, j + 1)] + segments_from(s, j + 1)
        } else {
            seq![s.subrange(i, s.len() as int)]
        }
    }
}

/// A segment without its final newline, and that newline (or nothing).
pub open spec fn split_segment_spec(seg: Seq<char>) -> (Seq<char>, Seq<char>) {
    if seg.len() > 0 && seg.last() == '\n' {
        (seg.drop_last(), "\n"@)
    } else {
        (seg, ""@)
    }
}

/// The segments normalized line by line, newlines kept.
pub open spec fn normalize_segments(segs: Seq<Seq<char>>) -> Seq<char>
    decreases segs.len(),
{
    if segs.len() == 0 {
        seq![]
    } else {
        normalize_segments(segs.drop_last()) + normalize_line_spec(split_segment_spec(segs.last()).0)
            + split_segment_spec(segs.last()).1
    }
}

/// A note's text with the typed dates and times of every line made readable.
pub open spec fn normalize_text_spec(s: Seq<char>) -> Seq<char> {
    normalize_segments(segments_from(s, 0))
}

/// The number of newlines in a text.
pub open spec fn newline_count(s: Seq<char>) -> nat
    decreases s.len(),
{
    if s.len() == 0 {
        0
    } else {
        newline_count(s.drop_last()) + if s.last() == '\n' {
            1nat
        } else {
            0nat
        }
    }
}

proof fn lemma_newline_count_add(a: Seq<char>, b: Seq<char>)
    ensures
        newline_count(a + b) == newline_count(a) + newline_count(b),
    decreases b.len(),
{
    if b.len() == 0 {
        assert(a + b =~= a);
    } else {
        lemma_newline_count_add(a, b.drop_last());
        assert((a + b).drop_last() =~= a + b.drop_last());
        assert((a + b).last() == b.last());
    }
}

proof fn lemma_newline_count_none(s: Seq<char>)
    requires
        no_newline(s),
    ensures
        newline_count(s) == 0,
    decreases s.len(),
{
    if s.len() > 0 {
        assert forall|k: int| 0 <= k < s.drop_last().len() implies #[trigger] s.drop_last()[k] != '\n' by {
            assert(s.drop_last()[k] == s[k]);
        }
        lemma_newline_count_none(s.drop_last());
        assert(s.last() == s[s.len() - 1]);
    }
}

proof fn lemma_normalize_segments_front(x: Seq<char>, rest: Seq<Seq<char>>)
    ensures
        normalize_segments(seq![x] + rest) == normalize_line_spec(split_segment_spec(x).0)
            + split_segment_spec(x).1 + normalize_segments(rest),
    decreases rest.len(),
{
    let f = normalize_line_spec(split_segment_spec(x).0) + split_segment_spec(x).1;
    if rest.len() == 0 {
        assert(seq![x] + rest =~= seq![x]);
        assert(seq![x].drop_last() =~= Seq::<Seq<char>>::empty());
        assert(seq![x].last() == x);
        assert(normalize_segments(Seq::<Seq<char>>::empty()) == Seq::<char>::empty());
        assert(normalize_segments(seq![x]) =~= f);
    } else {
        lemma_normalize_segments_front(x, rest.drop_last());
        assert((seq![x] + rest).drop_last() =~= seq![x] + rest.drop_last());
        assert((seq![x] + rest).last() == rest.last());
        let g = normalize_line_spec(split_segment_spec(rest.last()).0) + split_segment_spec(rest.last()).1;
        assert(normalize_segments(seq![x] + rest) =~= f + normalize_segments(rest.drop_last()) + g);
    }
}

proof fn lemma_segment_newlines(seg: Seq<char>)
    requires
        seg.len() > 0,
        forall|k: int| 0 <= k < seg.len() - 1 ==> #[trigger] seg[k] != '\n',
    ensures
        newline_count(normalize_line_spec(split_segment_spec(seg).0) + split_segment_spec(seg).1)
            == newline_count(seg),
{
    reveal_strlit("\n");
    reveal_strlit("");
    let (line, nl) = split_segment_spec(seg);
    assert forall|k: int| 0 <= k < line.len() implies #[trigger] line[k] != '\n' by {
        assert(line[k] == seg[k]);
    }
    lemma_normalized_line_has_no_newline(line);
    lemma_newline_count_none(line);
    lemma_newline_count_none(normalize_line_spec(line));
    lemma_newline_count_add(normalize_line_spec(line), nl);
    if seg.last() == '\n' {
        assert(seg =~= line + nl);
        assert(newline_count(nl) == 1) by {
            assert(nl.drop_last() =~= Seq::<char>::empty());
            assert(newline_count(nl.drop_last()) == 0);
            assert(nl.last() == '\n');
        }
    } else {
        assert(nl.len() == 0);
        assert(normalize_line_spec(line) + nl =~= normalize_line_spec(line));
    }
    lemma_newline_count_add(line, nl);
}

proof fn lemma_segments_newlines(s: Seq<char>, i: int)
    requires
        0 <= i <= s.len(),
    ensures
        newline_count(normalize_segments(segments_from(s, i))) == newline_count(s.subrange(i, s.len() as int)),
    decreases s.len() - i,
{
    if i >= s.len() {
        assert(s.subrange(i, s.len() as int) =~= Seq::<char>::empty());
    } else {
        let j = next_newline(s, i);
        lemma_next_newline(s, i);
        if j < s.len() {
            let seg = s.subrange(i, j + 1);
            let rest = segments_from(s, j + 1);
            lemma_segments_newlines(s, j + 1);
            lemma_normalize_segments_front(seg, rest);
            assert forall|k: int| 0 <= k < seg.len() - 1 implies #[trigger] seg[k] != '\n' by {
                assert(seg[k] == s[i + k]);
            }
            lemma_segment_newlines(seg);
            let f = normalize_line_spec(split_segment_spec(seg).0) + split_segment_spec(seg).1;
            lemma_newline_count_add(f, normalize_segments(rest));
            assert(s.subrange(i, s.len() as int) =~= seg + s.subrange(j + 1, s.len() as int));
            lemma_newline_count_add(seg, s.subrange(j + 1, s.len() as int));
        } else {
            let seg = s.subrange(i, s.len() as int);
            assert forall|k: int| 0 <= k < seg.len() - 1 implies #[trigger] seg[k] != '\n' by {
                assert(seg[k] == s[i + k]);
            }
            lemma_segment_newlines(seg);
            assert(segments_from(s, i) == seq![seg]);
            lemma_normalize_segments_front(seg, Seq::<Seq<char>>::empty());
            assert(seq![seg] + Seq::<Seq<char>>::empty() =~= seq![seg]);
            let f = normalize_line_spec(split_segment_spec(seg).0) + split_segment_spec(seg).1;
            assert(normalize_segments(seq![seg]) =~= f);
        }
    }
}

/// Normalizing a note's text keeps its lines: the text has as many newlines
/// after as before.
pub proof fn lemma_normalized_text_keeps_lines(s: Seq<char>)
    ensures
        newline_count(normalize_text_spec(s)) == newline_count(s),
{
    lemma_segments_newlines(s, 0);
    assert(s.subrange(0, s.len() as int) =~= s);
}

/// The reminders of each line, one after the other.
pub open spec fn flatten_reminders(outs: Seq<Seq<ReminderV>>) -> Seq<ReminderV>
    decreases outs.len(),
{
    if outs.len() == 0 {
        seq![]
    } else {
        flatten_reminders(outs.drop_last()) + outs.last()
    }
}

/// `rs` are the reminders of each line of the segments, one line after the
/// other, for some answers of the clock and the time zone.
pub open spec fn text_reminders_ok(segs: Seq<Seq<char>>, ex: Seq<ReminderV>, rs: Seq<ReminderV>) -> bool {
    exists|outs: Seq<Seq<ReminderV>>|
        #[trigger] outs.len() == segs.len() && (forall|k: int|
            0 <= k < segs.len() ==> line_reminders_ok(
                split_segment_spec(segs[k]).0,
                ex,
                #[trigger] outs[k],
            )) && rs == flatten_reminders(outs)
}

/// A segment of a text split at its final newline, if it has one.
pub fn split_line_segment(segment: &[char]) -> (out: (Vec<char>, &'static str))
    ensures
        (out.0@, out.1@) == split_segment_spec(segment@),
{
    let n = segment.len();
    let mut line: Vec<char> = Vec::new();
    let keep = if n > 0 && segment[n - 1] == '\n' {
        n - 1
    } else {
        n
    };
    let mut i: usize = 0;
    while i < keep
        invariant
            keep <= n == segment.len(),
            i <= keep,
            line@ == segment@.take(i as int),
        decreases keep - i,
    {
        line.push(segment[i]);
        i = i + 1;
        assert(line@ =~= segment@.take(i as int));
    }
    if keep < n {
        assert(line@ =~= segment@.drop_last());
        (line, "\n")
    } else {
        assert(line@ =~= segment@);
        (line, "")
    }
}

/// A note's text with every typed date and time made readable, line by line,
/// and the reminders its lines ask for, line after line (see
/// `normalize_reminder_line`).
pub fn normalize_reminder_text(text: &str, existing: &[Reminder]) -> (out: (String, Vec<Reminder>))
    ensures
        out.0@ == normalize_text_spec(text@),
        text_reminders_ok(segments_from(text@, 0), reminders_view(existing@), reminders_view(out.1@)),
{
    let chars = chars_of(text);
    let ghost s = text@;
    let ghost ex = reminders_view(existing@);
    let mut normalized = String::new();
    let mut reminders: Vec<Reminder> = Vec::new();
    let ghost mut segs: Seq<Seq<char>> = seq![];
    let ghost mut outs: Seq<Seq<ReminderV>> = seq![];
    let mut i: usize = 0;
    assert(segs + segments_from(s, 0) =~= segments_from(s, 0));
    while i < chars.len()
        invariant
            chars@ == s,
            ex == reminders_view(existing@),
            i <= chars.len(),
            segs + segments_from(s, i as int) == segments_from(s, 0),
            normalized@ == normalize_segments(segs),
            outs.len() == segs.len(),
            forall|k: int|
                0 <= k < segs.len() ==> line_reminders_ok(
                    split_segment_spec(segs[k]).0,
                    ex,
                    #[trigger] outs[k],
                ),
            reminders_view(reminders@) == flatten_reminders(outs),
        decreases chars.len() - i,
    {
        let mut j: usize = i;
        while j < chars.len() && chars[j] != '\n'
            invariant
                chars@ == s,
                i <= j <= chars.len(),
                next_newline(s, i as int) == next_newline(s, j as int),
            decreases chars.len() - j,
        {
            j = j + 1;
        }
        let end = if j < chars.len() {
            j + 1
        } else {
            j
        };
        proof {
            lemma_next_newline(s, i as int);
        }
        let mut segment: Vec<char> = Vec::new();
        let mut k: usize = i;
        while k < end
            invariant
                chars@ == s,
                i <= k <= end <= chars.len(),
                segment@ == s.subrange(i as int, k as int),
            decreases end - k,
        {
            segment.push(chars[k]);
            k = k + 1;
            assert(segment@ =~= s.subrange(i as int, k as int));
        }
        let ghost seg = segment@;
        assert(segments_from(s, i as int) == seq![seg] + segments_from(s, end as int));
        let (line, newline) = split_line_segment(&segment);
        let (line_text, mut line_reminders) = normalize_reminder_line(&line, existing);
        let ghost old_norm = normalized@;
        let ghost old_rem = reminders_view(reminders@);
        let ghost line_rs = reminders_view(line_reminders@);
        push_str(&mut normalized, line_text.as_str());
        push_str(&mut normalized, newline);
        reminders.append(&mut line_reminders);
        proof {
            let old_segs = segs;
            let old_outs = outs;
            segs = segs.push(seg);
            outs = outs.push(line_rs);
            assert(segs.drop_last() =~= old_segs);
            assert(outs.drop_last() =~= old_outs);
            assert(old_segs + segments_from(s, i as int) =~= segs + segments_from(s, end as int));
            assert(normalized@ =~= normalize_segments(segs));
            assert(reminders_view(reminders@) =~= old_rem + line_rs);
            assert forall|m: int| 0 <= m < segs.len() implies line_reminders_ok(
                split_segment_spec(segs[m]).0,
                ex,
                #[trigger] outs[m],
            ) by {
                if m < old_segs.len() {
                    assert(segs[m] == old_segs[m]);
                    assert(outs[m] == old_outs[m]);
                }
            }
        }
        i = end;
    }
    assert(segs =~= segments_from(s, 0));
    assert(outs.len() == segs.len());
    (normalized, reminders)
}

} // verus!
