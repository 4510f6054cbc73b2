use sticky_note::calendar::{
    local_date_time_at, local_now, local_time_at, local_timestamp, resolve_lookup, Date, LocalLookup,
    LocalNow, Time,
};
use sticky_note::desktop::{
    active_space_changed, all_desktops_from, current_desktops_from, DisplaySpaces, desktop_display_identifier, desktop_id_for_display, display_identifier_for,
    managed_space_id_from_desktop_id, reassigned_desktop_id, space_identifier,
    desktop_id_for_space, desktop_id_set, display_changed, fallback_desktops, font_face,
    forget_closed_note, move_active_note_to_current_desktop, needs_desktop_assignment,
    note_cascade_slot, note_desktop_id, note_is_on_active_desktop, parse_u64,
    refreshed_active_note_id, style_target_note_id, text_color_after_background,
    window_on_other_desktop, ActiveDesktop, DesktopState, FontFace, NoteInfo,
};
use sticky_note::format::{format_date, format_time, month_name, ordinal, weekday_name};
use sticky_note::normalize::{
    line_reminder_candidates, normalize_reminder_line, normalize_reminder_text,
    reminder_body_for_line, reminders_from_candidates, split_line_segment,
};
use sticky_note::notify::{
    apple_script_string, deliver_notification, deliver_pending_notifications,
    notification_body, notification_body_for_reminder, queue_notification, reminder_alert_script,
    reminder_notification_when, reminder_when, sync_reminder_jobs, take_due_jobs, truncate_chars,
    pending_notifications, reminder_jobs, NoteReminders, ReminderJob,
};
use sticky_note::reminder::{
    build_due_at, build_reminder, choose_due_at, due_at_from, push_reminder, reminder_wall_clock,
    Reminder,
};
use sticky_note::text::trim_chars;
use sticky_note::tokens::{
    find_date_tokens, find_time_tokens, is_token_end, is_token_start, parse_date_prefix,
    parse_digits, parse_time_prefix,
};

fn chars(s: &str) -> Vec<char> {
    s.chars().collect()
}

fn date(y: i32, m: u32, d: u32) -> Date {
    Date::from_ymd(y, m, d).unwrap()
}

fn time(h: u32, m: u32) -> Time {
    Time::from_hms(h, m, 0).unwrap()
}

fn reminder(due_at: i64, date_text: Option<&str>, time_text: Option<&str>, body: Option<&str>) -> Reminder {
    Reminder {
        due_at,
        date_text: date_text.map(|s| s.to_string()),
        time_text: time_text.map(|s| s.to_string()),
        body: body.map(|s| s.to_string()),
    }
}

#[test]
fn dates_exist_by_the_gregorian_calendar() {
    assert!(Date::from_ymd(2024, 2, 29).is_some());
    assert!(Date::from_ymd(2023, 2, 29).is_none());
    assert!(Date::from_ymd(1900, 2, 29).is_none());
    assert!(Date::from_ymd(2000, 2, 29).is_some());
    assert!(Date::from_ymd(2026, 4, 31).is_none());
    assert!(Date::from_ymd(2026, 13, 1).is_none());
    assert!(Date::from_ymd(2026, 0, 1).is_none());
    assert!(Date::from_ymd(2026, 1, 0).is_none());
    assert!(Date::from_ymd(262142, 12, 31).is_some());
    assert!(Date::from_ymd(262143, 1, 1).is_none());
    assert!(Date::from_ymd(-262143, 1, 1).is_some());
    assert!(Date::from_ymd(-262144, 12, 31).is_none());
}

#[test]
fn weekdays_count_from_sunday() {
    assert_eq!(date(2026, 6, 10).weekday(), 3);
    assert_eq!(date(1970, 1, 1).weekday(), 4);
    assert_eq!(date(2000, 1, 1).weekday(), 6);
    assert_eq!(date(2024, 3, 3).weekday(), 0);
    assert_eq!(date(-4, 2, 29).weekday(), 4);
    assert_eq!(date(1, 1, 1).weekday(), 1);
}

#[test]
fn next_day_rolls_over_months_and_years() {
    let d = date(2024, 2, 28).next_day().unwrap();
    assert_eq!((d.year(), d.month(), d.day()), (2024, 2, 29));
    let d = date(2023, 2, 28).next_day().unwrap();
    assert_eq!((d.year(), d.month(), d.day()), (2023, 3, 1));
    let d = date(2025, 12, 31).next_day().unwrap();
    assert_eq!((d.year(), d.month(), d.day()), (2026, 1, 1));
    assert!(date(262142, 12, 31).next_day().is_none());
}

#[test]
fn times_exist_within_a_day() {
    assert!(Time::from_hms(23, 59, 59).is_some());
    assert!(Time::from_hms(24, 0, 0).is_none());
    assert!(Time::from_hms(0, 60, 0).is_none());
    assert!(Time::from_hms(0, 0, 60).is_none());
}

#[test]
fn names_and_ordinals() {
    assert_eq!(weekday_name(0), "Sunday");
    assert_eq!(weekday_name(6), "Saturday");
    assert_eq!(month_name(0), "");
    assert_eq!(month_name(1), "January");
    assert_eq!(month_name(12), "December");
    assert_eq!(ordinal(1), "1st");
    assert_eq!(ordinal(2), "2nd");
    assert_eq!(ordinal(3), "3rd");
    assert_eq!(ordinal(4), "4th");
    assert_eq!(ordinal(11), "11th");
    assert_eq!(ordinal(12), "12th");
    assert_eq!(ordinal(13), "13th");
    assert_eq!(ordinal(21), "21st");
    assert_eq!(ordinal(22), "22nd");
    assert_eq!(ordinal(23), "23rd");
    assert_eq!(ordinal(101), "101st");
    assert_eq!(ordinal(111), "111th");
    assert_eq!(ordinal(112), "112th");
}

#[test]
fn formats_dates_readably() {
    assert_eq!(format_date(&date(2026, 6, 10)), "Wednesday June 10th, 2026");
    assert_eq!(format_date(&date(2024, 3, 3)), "Sunday March 3rd, 2024");
    assert_eq!(format_date(&date(5, 1, 1)), "Saturday January 1st, 5");
    assert_eq!(format_date(&date(-4, 2, 29)), "Thursday February 29th, -4");
}

#[test]
fn formats_times_on_a_twelve_hour_clock() {
    assert_eq!(format_time(&time(0, 5)), "12:05 AM");
    assert_eq!(format_time(&time(9, 30)), "9:30 AM");
    assert_eq!(format_time(&time(12, 0)), "12:00 PM");
    assert_eq!(format_time(&time(13, 7)), "1:07 PM");
    assert_eq!(format_time(&time(23, 59)), "11:59 PM");
}

#[test]
fn parses_digit_runs() {
    let s = chars("a123");
    assert_eq!(parse_digits(&s, 1, 2), Some((12, 3)));
    assert_eq!(parse_digits(&s, 1, 9), Some((123, 4)));
    assert_eq!(parse_digits(&s, 0, 2), None);
    assert_eq!(parse_digits(&s, 4, 2), None);
    assert_eq!(parse_digits(&s, 9, 2), None);
}

#[test]
fn parses_date_prefixes() {
    assert_eq!(parse_date_prefix(&chars("06/10/2026"), 0), Some((10, 6, 10, 2026)));
    assert_eq!(parse_date_prefix(&chars("6/1/2026x"), 0), Some((8, 6, 1, 2026)));
    assert_eq!(parse_date_prefix(&chars("6/1/202"), 0), None);
    assert_eq!(parse_date_prefix(&chars("6-1-2026"), 0), None);
    assert_eq!(parse_date_prefix(&chars("123/1/2026"), 0), None);
}

#[test]
fn parses_time_prefixes() {
    let (end, t) = parse_time_prefix(&chars("9:30pm"), 0).unwrap();
    assert_eq!((end, t.hour(), t.minute(), t.second()), (6, 21, 30, 0));
    let (end, t) = parse_time_prefix(&chars("12:00  AM!"), 0).unwrap();
    assert_eq!((end, t.hour(), t.minute()), (9, 0, 0));
    let (_, t) = parse_time_prefix(&chars("12:15Pm"), 0).unwrap();
    assert_eq!(t.hour(), 12);
    assert!(parse_time_prefix(&chars("13:00pm"), 0).is_none());
    assert!(parse_time_prefix(&chars("0:30am"), 0).is_none());
    assert!(parse_time_prefix(&chars("9:60am"), 0).is_none());
    assert!(parse_time_prefix(&chars("9:3am"), 0).is_none());
    assert!(parse_time_prefix(&chars("9:30"), 0).is_none());
    assert!(parse_time_prefix(&chars("9:30 xm"), 0).is_none());
}

#[test]
fn token_boundaries() {
    let s = chars("a1 2");
    assert!(is_token_start(&s, 0));
    assert!(!is_token_start(&s, 1));
    assert!(is_token_start(&s, 3));
    assert!(is_token_end(&s, 4));
    assert!(is_token_end(&s, 2));
    assert!(!is_token_end(&s, 1));
}

#[test]
fn finds_tokens_left_to_right() {
    let s = chars("x 06/10/2026, 1/2/2030 and 02/30/2026 or a06/10/2026");
    let dates = find_date_tokens(&s);
    assert_eq!(dates.len(), 2);
    assert_eq!((dates[0].start, dates[0].end), (2, 12));
    assert_eq!(dates[0].replacement, "Wednesday June 10th, 2026");
    assert_eq!((dates[1].start, dates[1].end), (14, 22));
    let s = chars("at 9:30pm, 10:05 AM and 9:30pmx or 19:30pm");
    let times = find_time_tokens(&s);
    assert_eq!(times.len(), 2);
    assert_eq!(times[0].replacement, "9:30 PM");
    assert_eq!(times[1].replacement, "10:05 AM");
}

#[test]
fn normalizes_a_line() {
    let (text, _) = normalize_reminder_line(&chars("Call 06/10/2099 9:30pm please"), &[]);
    assert_eq!(text, "Call Wednesday June 10th, 2099 9:30 PM please");
    let (text, reminders) = normalize_reminder_line(&chars("nothing here 12/34"), &[]);
    assert_eq!(text, "nothing here 12/34");
    assert!(reminders.is_empty());
}

#[test]
fn normalized_times_are_stable() {
    let (once, _) = normalize_reminder_text("9:05pm and 12:00am", &[]);
    assert_eq!(once, "9:05 PM and 12:00 AM");
    let (twice, _) = normalize_reminder_text(&once, &[]);
    assert_eq!(twice, once);
}

#[test]
fn keeps_newlines_between_lines() {
    let (text, _) = normalize_reminder_text("a 1:00pm\n\nb\n", &[]);
    assert_eq!(text, "a 1:00 PM\n\nb\n");
    let (text, reminders) = normalize_reminder_text("", &[]);
    assert_eq!(text, "");
    assert!(reminders.is_empty());
}

#[test]
fn dated_line_with_two_times_makes_two_reminders_with_the_line_as_body() {
    let (text, reminders) = normalize_reminder_text("  Trip 01/02/2099 8:00am 9:00pm  ", &[]);
    assert_eq!(text, "  Trip Friday January 2nd, 2099 8:00 AM 9:00 PM  ");
    assert_eq!(reminders.len(), 2);
    for r in &reminders {
        assert_eq!(r.body.as_deref(), Some("Trip Friday January 2nd, 2099 8:00 AM 9:00 PM"));
        assert_eq!(r.date_text.as_deref(), Some("Friday January 2nd, 2099"));
    }
    assert!(reminders[0].due_at < reminders[1].due_at);
    assert_eq!(reminders[1].due_at - reminders[0].due_at, 13 * 3600);
}

#[test]
fn repeated_time_makes_one_reminder() {
    let (_, reminders) = normalize_reminder_text("01/02/2099 8:00am 8:00am", &[]);
    assert_eq!(reminders.len(), 1);
}

#[test]
fn past_dates_make_no_reminder() {
    let (text, reminders) = normalize_reminder_text("01/02/2000 8:00am", &[]);
    assert_eq!(text, "Sunday January 2nd, 2000 8:00 AM");
    assert!(reminders.is_empty());
}

#[test]
fn date_only_reminder_is_due_at_nine() {
    let d = date(2099, 1, 2);
    let due = build_due_at(Some(d.copy()), None).unwrap();
    let (day, at) = local_date_time_at(due).unwrap();
    assert_eq!((day.year(), day.month(), day.day()), (2099, 1, 2));
    assert_eq!((at.hour(), at.minute(), at.second()), (9, 0, 0));
    assert_eq!(Some(due), local_timestamp(&d, &time(9, 0)));
}

#[test]
fn time_only_reminder_is_due_within_a_day() {
    let now = local_now().timestamp;
    let due = build_due_at(None, Some(time(3, 17))).unwrap();
    assert!(due > now);
    assert!(due <= now + 25 * 3600);
    let (_, at) = local_date_time_at(due).unwrap();
    assert_eq!((at.hour(), at.minute()), (3, 17));
    assert_eq!(build_due_at(None, None), None);
}

#[test]
fn builds_reminders_with_their_texts() {
    let r = build_reminder(
        Some(date(2099, 1, 2)),
        None,
        Some("D".to_string()),
        None,
        Some("B".to_string()),
    )
    .unwrap();
    assert_eq!(r.date_text.as_deref(), Some("D"));
    assert_eq!(r.time_text, None);
    assert_eq!(r.body.as_deref(), Some("B"));
    assert!(build_reminder(None, None, None, None, None).is_none());
}

#[test]
fn wall_clock_of_a_reminder() {
    let today = date(2030, 5, 6);
    let (d, t) = reminder_wall_clock(&Some(date(2031, 1, 1)), &None, &today).unwrap();
    assert_eq!((d.year(), d.month(), d.day(), t.hour(), t.minute()), (2031, 1, 1, 9, 0));
    let (d, t) = reminder_wall_clock(&None, &Some(time(7, 45)), &today).unwrap();
    assert_eq!((d.year(), d.month(), d.day(), t.hour(), t.minute()), (2030, 5, 6, 7, 45));
    assert!(reminder_wall_clock(&None, &None, &today).is_none());
}

#[test]
fn chooses_when_a_reminder_is_due() {
    assert_eq!(choose_due_at(true, 100, Some(150), None), Some(150));
    assert_eq!(choose_due_at(true, 100, Some(50), Some(200)), None);
    assert_eq!(choose_due_at(true, 100, None, Some(200)), None);
    assert_eq!(choose_due_at(false, 100, Some(150), Some(300)), Some(150));
    assert_eq!(choose_due_at(false, 100, Some(100), Some(300)), Some(300));
    assert_eq!(choose_due_at(false, 100, Some(50), None), None);
    assert_eq!(choose_due_at(false, 100, None, Some(300)), None);
}

#[test]
fn resolves_local_lookups() {
    assert_eq!(resolve_lookup(&LocalLookup::Single(5)), Some(5));
    assert_eq!(resolve_lookup(&LocalLookup::Ambiguous(5, 9)), Some(5));
    assert_eq!(resolve_lookup(&LocalLookup::Ambiguous(9, 5)), Some(5));
    assert_eq!(resolve_lookup(&LocalLookup::Missing), None);
}

#[test]
fn existing_time_still_visible_is_kept() {
    let due = build_due_at(Some(date(2099, 3, 4)), Some(time(10, 0))).unwrap();
    let existing = reminder(due, Some("Wednesday March 4th, 2099"), Some("10:00 AM"), Some("x"));
    let (text, reminders) =
        normalize_reminder_text("Meet Wednesday March 4th, 2099 10:00 AM", &[existing]);
    assert_eq!(text, "Meet Wednesday March 4th, 2099 10:00 AM");
    assert_eq!(reminders.len(), 1);
    assert_eq!(reminders[0].due_at, due);
    assert_eq!(reminders[0].body.as_deref(), Some("Meet Wednesday March 4th, 2099 10:00 AM"));
}

#[test]
fn reminders_are_not_duplicated() {
    let mut rs = Vec::new();
    push_reminder(&mut rs, reminder(1, Some("a"), None, None));
    push_reminder(&mut rs, reminder(1, Some("a"), None, None));
    push_reminder(&mut rs, reminder(1, Some("a"), None, Some("b")));
    assert_eq!(rs.len(), 2);
}

#[test]
fn splits_segments_at_their_newline() {
    assert_eq!(split_line_segment(&chars("ab\n")), (chars("ab"), "\n"));
    assert_eq!(split_line_segment(&chars("ab")), (chars("ab"), ""));
    assert_eq!(split_line_segment(&chars("\n")), (chars(""), "\n"));
}

#[test]
fn body_of_a_line() {
    assert_eq!(reminder_body_for_line(&chars("  x y \t")), Some("x y".to_string()));
    assert_eq!(reminder_body_for_line(&chars(" \u{3000} ")), None);
}

#[test]
fn trims_unicode_white_space() {
    assert_eq!(trim_chars(&chars("\u{3000}\u{A0} abc\u{2029}\n")), chars("abc"));
    assert_eq!(trim_chars(&chars("abc")), chars("abc"));
    assert_eq!(trim_chars(&chars("  ")), chars(""));
}

#[test]
fn escapes_apple_script_strings() {
    assert_eq!(apple_script_string("plain"), "\"plain\"");
    assert_eq!(apple_script_string("a\"b\\c\nd\re"), "\"a\\\"b\\\\c\\nd\\re\"");
}

#[test]
fn truncates_by_characters() {
    assert_eq!(truncate_chars(&chars("héllo"), 3), "hél...");
    assert_eq!(truncate_chars(&chars("abc"), 3), "abc");
    assert_eq!(truncate_chars(&chars(""), 0), "");
}

#[test]
fn notification_bodies() {
    assert_eq!(notification_body(&chars(" \n ")), "Sticky note reminder");
    assert_eq!(notification_body(&chars("  Hello \r\nWorld")), "Hello");
    assert_eq!(notification_body(&chars("\n\n  Second line  \nthird")), "Second line");
    let long: String = "x".repeat(200);
    let body = notification_body(&chars(&long));
    assert_eq!(body.chars().count(), 163);
    assert!(body.ends_with("..."));
}

#[test]
fn reminder_bodies_fall_back_to_the_note() {
    let r = reminder(0, None, None, Some("  Call mom  "));
    assert_eq!(notification_body_for_reminder(&chars("Note text"), &r), "Call mom");
    let r = reminder(0, None, None, Some("   "));
    assert_eq!(notification_body_for_reminder(&chars("Note text\nmore"), &r), "Note text");
    let r = reminder(0, None, None, None);
    assert_eq!(notification_body_for_reminder(&chars(""), &r), "Sticky note reminder");
}

#[test]
fn describes_when_a_reminder_is() {
    assert_eq!(reminder_when(&reminder(0, Some("D"), Some("T"), None)), "D at T");
    assert_eq!(reminder_when(&reminder(0, Some("D"), None, None)), "D");
    assert_eq!(reminder_when(&reminder(0, None, Some("T"), None)), "T");
    assert_eq!(reminder_when(&reminder(0, None, None, None)), "Reminder");
    assert_eq!(
        reminder_notification_when(&reminder(0, None, Some("9:00 AM"), None), "Due now"),
        "Due now: 9:00 AM"
    );
}

#[test]
fn schedules_four_notifications_per_reminder() {
    let now = 1_000_000;
    let notes = vec![
        NoteReminders {
            id: 7,
            text: "Dentist\nbring card".to_string(),
            reminders: vec![
                reminder(now + 3600, None, Some("T"), None),
                reminder(now + 400, Some("D"), None, Some("Pay")),
            ],
        },
        NoteReminders {
            id: 8,
            text: String::new(),
            reminders: vec![reminder(now - 10, None, None, None)],
        },
    ];
    let jobs = sync_reminder_jobs(&notes, now);
    assert_eq!(jobs.len(), 6);
    let find = |idx: usize, lead: i64| {
        jobs.iter()
            .find(|j| j.key.note_id == 7 && j.key.reminder_index == idx && j.key.lead_seconds == lead)
            .map(|j| &j.job)
    };
    for lead in [1800, 600, 300, 0] {
        let job = find(0, lead).unwrap();
        assert_eq!(job.notify_at, now + 3600 - lead);
        assert_eq!(job.body, "Dentist");
    }
    assert_eq!(find(0, 1800).unwrap().when, "30 minutes before: T");
    assert_eq!(find(0, 0).unwrap().when, "Due now: T");
    assert!(find(1, 1800).is_none());
    assert!(find(1, 600).is_none());
    assert_eq!(find(1, 300).unwrap().when, "5 minutes before: D");
    assert_eq!(find(1, 0).unwrap().body, "Pay");
}

#[test]
fn duplicate_job_keys_keep_the_last() {
    let notes = vec![
        NoteReminders { id: 1, text: "first".to_string(), reminders: vec![reminder(5000, None, None, None)] },
        NoteReminders { id: 1, text: "second".to_string(), reminders: vec![reminder(6000, None, None, None)] },
    ];
    let jobs = sync_reminder_jobs(&notes, 0);
    assert_eq!(jobs.len(), 4);
    assert!(jobs.iter().all(|j| j.job.body == "second"));
}

#[test]
fn takes_due_jobs_and_keeps_the_others() {
    let now = 1_000_000;
    let notes = vec![NoteReminders {
        id: 1,
        text: "n".to_string(),
        reminders: vec![reminder(now + 1000, None, None, None)],
    }];
    let mut jobs = sync_reminder_jobs(&notes, now);
    assert_eq!(jobs.len(), 3);
    let due = take_due_jobs(&mut jobs, now + 700);
    assert_eq!(due.len(), 2);
    assert!(due.iter().all(|j| j.notify_at <= now + 700));
    assert_eq!(jobs.len(), 1);
    assert_eq!(jobs[0].job.notify_at, now + 1000);
}

#[test]
fn queues_and_delivers_in_order() {
    let mut pending = Vec::new();
    let job = |n: i64| ReminderJob { notify_at: n, body: format!("b{n}"), when: format!("w{n}") };
    queue_notification(&mut pending, job(1));
    queue_notification(&mut pending, job(2));
    let delivered = deliver_pending_notifications(&mut pending);
    assert!(pending.is_empty());
    assert_eq!(delivered.iter().map(|j| j.notify_at).collect::<Vec<_>>(), vec![1, 2]);
    assert!(deliver_pending_notifications(&mut pending).is_empty());
}

#[test]
fn alert_script_and_delivery_plan() {
    let job = ReminderJob { notify_at: 0, body: "Say \"hi\"".to_string(), when: "Due now: 9:00 AM".to_string() };
    let script = reminder_alert_script(&job);
    assert_eq!(
        script,
        "beep 1\ndisplay dialog \"Due now: 9:00 AM\\n\\nSay \\\"hi\\\"\" with title \"Sticky Note Reminder\" buttons {\"OK\"} default button \"OK\" with icon note"
    );
    let plan = deliver_notification(&job, false);
    assert!(!plan.system_notification);
    assert_eq!(plan.alert_script, Some(script));
    let allowed = deliver_notification(&job, true);
    assert!(allowed.system_notification);
    assert_eq!(allowed.alert_script, None);
}

#[test]
fn names_desktops_and_reads_them_back() {
    assert_eq!(desktop_id_for_space(Some("abc"), "id:5"), "display:abc/space:id:5");
    assert_eq!(desktop_id_for_space(None, "managed:9"), "space:managed:9");
    assert_eq!(desktop_display_identifier("display:a/space:b/space:c").as_deref(), Some("a"));
    assert_eq!(desktop_display_identifier("display:abc"), None);
    assert_eq!(managed_space_id_from_desktop_id("space:id:12"), Some(12));
    assert_eq!(managed_space_id_from_desktop_id("display:x/space:id:1/space:managed:3"), Some(3));
    assert_eq!(managed_space_id_from_desktop_id("space:id:+42"), Some(42));
    assert_eq!(managed_space_id_from_desktop_id("space:id:"), None);
    assert_eq!(managed_space_id_from_desktop_id("space:id:+"), None);
    assert_eq!(managed_space_id_from_desktop_id("desktop:default"), None);
    assert_eq!(
        managed_space_id_from_desktop_id("space:id:18446744073709551615"),
        Some(u64::MAX)
    );
    assert_eq!(managed_space_id_from_desktop_id("space:id:18446744073709551616"), None);
}

#[test]
fn parses_u64_like_std() {
    for s in ["0", "+7", "007", "18446744073709551615", "", "+", "-1", " 1", "1a", "99999999999999999999"] {
        assert_eq!(parse_u64(&chars(s)), s.parse::<u64>().ok(), "{s}");
    }
}

#[test]
fn desktop_id_sets() {
    let ids = desktop_id_set(&[]);
    assert_eq!(ids, vec!["desktop:default".to_string()]);
    let d = |id: &str| ActiveDesktop { display_identifier: None, desktop_id: id.to_string() };
    let ids = desktop_id_set(&[d("a"), d("b"), d("a")]);
    assert_eq!(ids, vec!["a".to_string(), "b".to_string()]);
    let fallback = fallback_desktops();
    assert_eq!(fallback.len(), 1);
    assert_eq!(fallback[0].desktop_id, "desktop:default");
    assert!(fallback[0].display_identifier.is_none());
}

fn state(notes: &[(u64, &str)], active: &[&str], active_note: Option<u64>) -> DesktopState {
    DesktopState {
        notes: notes.iter().map(|(id, d)| NoteInfo { id: *id, desktop_id: d.to_string() }).collect(),
        active_desktop_ids: active.iter().map(|s| s.to_string()).collect(),
        active_note_id: active_note,
    }
}

#[test]
fn notes_on_active_desktops() {
    let st = state(&[(1, ""), (2, "space:b")], &["desktop:default"], None);
    assert!(note_is_on_active_desktop(&st, &st.notes[0]));
    assert!(!note_is_on_active_desktop(&st, &st.notes[1]));
    let st = state(&[(2, "space:b")], &[], None);
    assert!(note_is_on_active_desktop(&st, &st.notes[0]));
    assert_eq!(note_desktop_id(""), "desktop:default");
    assert_eq!(note_desktop_id("space:x"), "space:x");
}

#[test]
fn chooses_the_note_for_styles_and_after_refresh() {
    let st = state(&[(1, "a"), (2, "b"), (3, "a")], &["a"], Some(2));
    assert_eq!(style_target_note_id(&st), Some(3));
    assert_eq!(refreshed_active_note_id(&st), Some(2));
    let st = state(&[(1, "a"), (2, "b"), (3, "a")], &["a"], Some(9));
    assert_eq!(refreshed_active_note_id(&st), Some(3));
    let st = state(&[(1, "a")], &["z"], None);
    assert_eq!(style_target_note_id(&st), None);
    assert_eq!(sticky_note::desktop::selected_note_id_for_move(&st), Some(1));
    let st = state(&[], &["z"], None);
    assert_eq!(sticky_note::desktop::selected_note_id_for_move(&st), None);
}

#[test]
fn moving_a_note_activates_the_target_desktop() {
    let mut st = state(&[(1, "a"), (2, "b")], &["a"], Some(2));
    assert_eq!(move_active_note_to_current_desktop(&mut st, "c"), Some(1));
    assert_eq!(st.active_desktop_ids, vec!["a".to_string(), "c".to_string()]);
    assert_eq!(st.active_note_id, Some(2));
    assert_eq!(st.notes[1].desktop_id, "c");
    assert_eq!(st.notes[0].desktop_id, "a");
    assert_eq!(move_active_note_to_current_desktop(&mut st, "a"), Some(1));
    assert_eq!(st.active_desktop_ids.len(), 2);
    let mut empty = state(&[], &["a"], None);
    assert_eq!(move_active_note_to_current_desktop(&mut empty, "c"), None);
    assert_eq!(empty.active_desktop_ids, vec!["a".to_string()]);
}

#[test]
fn closing_a_note_deletes_it_unless_internal() {
    let mut st = state(&[(1, "a"), (2, "a"), (3, "b")], &["a"], Some(2));
    assert!(!forget_closed_note(&mut st, 2, true));
    assert_eq!(st.notes.len(), 3);
    assert!(forget_closed_note(&mut st, 2, false));
    assert_eq!(st.notes.iter().map(|n| n.id).collect::<Vec<_>>(), vec![1, 3]);
    assert_eq!(st.active_note_id, Some(1));
    assert!(forget_closed_note(&mut st, 3, false));
    assert_eq!(st.active_note_id, Some(1));
}

#[test]
fn cascades_new_notes() {
    let notes: Vec<(u64, &str)> = (0..9).map(|i| (i, "a")).chain([(20, "b")]).collect();
    let st = state(&notes, &["a"], None);
    assert_eq!(note_cascade_slot(&st, "a"), 1);
    assert_eq!(note_cascade_slot(&st, "b"), 1);
    assert_eq!(note_cascade_slot(&st, "c"), 0);
}

#[test]
fn desktop_assignment_and_display_moves() {
    assert!(needs_desktop_assignment(""));
    assert!(needs_desktop_assignment("desktop:default"));
    assert!(!needs_desktop_assignment("space:1"));
    assert!(display_changed("display:ABC/space:1", "display:def/space:1"));
    assert!(!display_changed("display:ABC/space:1", "display:abc/space:2"));
    assert!(!display_changed("space:1", "display:abc/space:2"));
    assert!(window_on_other_desktop(Some("space:2"), "space:1"));
    assert!(!window_on_other_desktop(Some("SPACE:1"), "space:1"));
    assert!(!window_on_other_desktop(Some("desktop:default"), ""));
    assert!(!window_on_other_desktop(None, "space:1"));
}

#[test]
fn black_notes_get_white_text() {
    assert_eq!(text_color_after_background("black", "black"), "white");
    assert_eq!(text_color_after_background("yellow", "white"), "black");
    assert_eq!(text_color_after_background("yellow", "red"), "red");
}

#[test]
fn font_faces() {
    assert!(matches!(font_face("rounded"), FontFace::Named("Avenir Next")));
    assert!(matches!(font_face("serif"), FontFace::Named("Georgia")));
    assert!(matches!(font_face("marker"), FontFace::Named("Marker Felt")));
    assert!(matches!(font_face("mono"), FontFace::FixedPitch));
    assert!(matches!(font_face("system"), FontFace::System));
}

#[test]
fn every_readable_time_is_normal() {
    for hour in 0..24u32 {
        for minute in 0..60u32 {
            let readable = format_time(&time(hour, minute));
            let (again, _) = normalize_reminder_line(&chars(&readable), &[]);
            assert_eq!(again, readable);
            let (end, parsed) = parse_time_prefix(&chars(&readable), 0).unwrap();
            assert_eq!(end, readable.chars().count());
            assert_eq!((parsed.hour(), parsed.minute()), (hour, minute));
        }
    }
}

#[test]
fn lines_without_dates_or_times_make_no_reminders() {
    for line in ["", "   ", "buy milk", "12/34", "25:00pm", "1:60am", "3/4/99"] {
        let (text, reminders) = normalize_reminder_line(&chars(line), &[]);
        assert_eq!(text, line);
        assert!(reminders.is_empty(), "{line}");
    }
}

#[test]
fn space_identifiers_prefer_the_64_bit_id() {
    assert_eq!(space_identifier(Some(7), Some(9), Some("u".to_string())).as_deref(), Some("id:7"));
    assert_eq!(space_identifier(None, Some(9), Some("u".to_string())).as_deref(), Some("managed:9"));
    assert_eq!(space_identifier(None, None, Some("AB-1".to_string())).as_deref(), Some("uuid:AB-1"));
    assert_eq!(space_identifier(None, None, None), None);
}

#[test]
fn space_numbers_read_back_from_desktop_ids() {
    for n in [0u64, 5, 1234567, u64::MAX] {
        for display in [None, Some("display/space:odd"), Some("37D8832A-2D66")] {
            let by_id = space_identifier(Some(n), None, None).unwrap();
            let by_managed = space_identifier(None, Some(n), None).unwrap();
            assert_eq!(managed_space_id_from_desktop_id(&desktop_id_for_space(display, &by_id)), Some(n));
            assert_eq!(managed_space_id_from_desktop_id(&desktop_id_for_space(display, &by_managed)), Some(n));
        }
    }
    let by_uuid = space_identifier(None, None, Some("x".to_string())).unwrap();
    assert_eq!(managed_space_id_from_desktop_id(&desktop_id_for_space(None, &by_uuid)), None);
}

#[test]
fn displays_read_back_from_desktop_ids() {
    for display in ["abc", "37D8832A-2D66-02CA-B9F7-8F30A301B230", "display-id:1", "a/space", "/spac", ""] {
        let id = desktop_id_for_space(Some(display), "id:3");
        assert_eq!(desktop_display_identifier(&id).as_deref(), Some(display));
    }
    let id = desktop_id_for_space(Some("a/space:b"), "id:3");
    assert_eq!(desktop_display_identifier(&id).as_deref(), Some("a"));
}

#[test]
fn display_names_fall_back_to_their_number() {
    assert_eq!(display_identifier_for(Some("UUID-1".to_string()), 4), "UUID-1");
    assert_eq!(display_identifier_for(None, 69734272), "display-id:69734272");
    assert_eq!(display_identifier_for(None, 0), "display-id:0");
}

#[test]
fn screens_show_the_desktop_of_their_display() {
    let d = |display: Option<&str>, id: &str| ActiveDesktop {
        display_identifier: display.map(|s| s.to_string()),
        desktop_id: id.to_string(),
    };
    let desktops = vec![d(Some("AAA"), "first"), d(None, "none"), d(Some("bbb"), "second"), d(Some("BBB"), "third")];
    assert_eq!(desktop_id_for_display(&desktops, Some("BbB")).as_deref(), Some("second"));
    assert_eq!(desktop_id_for_display(&desktops, Some("aaa")).as_deref(), Some("first"));
    assert_eq!(desktop_id_for_display(&desktops, Some("ccc")).as_deref(), Some("first"));
    assert_eq!(desktop_id_for_display(&desktops, None).as_deref(), Some("first"));
    assert_eq!(desktop_id_for_display(&[], Some("aaa")), None);
}

#[test]
fn escaped_scripts_hold_no_line_break() {
    let escaped = apple_script_string("a\nb\r\nc\\\"");
    assert_eq!(escaped, "\"a\\nb\\r\\nc\\\\\\\"\"");
    assert!(!escaped.contains('\n') && !escaped.contains('\r'));
}

#[test]
fn due_and_waiting_jobs_split_the_schedule() {
    let now = 5_000;
    let notes = vec![NoteReminders {
        id: 3,
        text: "n".to_string(),
        reminders: vec![reminder(now + 1200, None, None, None), reminder(now + 4000, None, None, None)],
    }];
    let mut jobs = sync_reminder_jobs(&notes, now);
    let total = jobs.len();
    assert_eq!(total, 7);
    let later = now + 1100;
    let due = take_due_jobs(&mut jobs, later);
    assert_eq!(due.len() + jobs.len(), total);
    assert!(due.iter().all(|j| j.notify_at <= later));
    assert!(jobs.iter().all(|j| j.job.notify_at > later));
}

#[test]
fn saved_notes_move_to_the_desktop_under_their_frame() {
    let under = |s: &str| Some(s.to_string());
    assert_eq!(reassigned_desktop_id("", under("display:A/space:id:1"), "fb").as_deref(), Some("display:A/space:id:1"));
    assert_eq!(reassigned_desktop_id("desktop:default", None, "fb").as_deref(), Some("fb"));
    assert_eq!(
        reassigned_desktop_id("display:A/space:id:1", under("display:B/space:id:2"), "fb").as_deref(),
        Some("display:B/space:id:2")
    );
    assert_eq!(reassigned_desktop_id("display:A/space:id:1", under("display:a/space:id:2"), "fb"), None);
    assert_eq!(reassigned_desktop_id("display:A/space:id:1", None, "fb"), None);
    assert_eq!(reassigned_desktop_id("space:id:1", under("display:B/space:id:2"), "fb"), None);
}

#[test]
fn normalizing_keeps_the_number_of_lines() {
    for text in ["", "\n", "a\nb", "06/10/2099\n9:30pm\n\n", "x 1:00am\r\ny 02/03/2099 4:05 PM\n"] {
        let (normalized, _) = normalize_reminder_text(text, &[]);
        assert_eq!(normalized.matches('\n').count(), text.matches('\n').count(), "{text:?}");
    }
}

#[test]
fn changing_desktops_shows_their_notes() {
    let d = |id: &str| ActiveDesktop { display_identifier: None, desktop_id: id.to_string() };
    let mut st = state(&[(1, "a"), (2, "b"), (3, ""), (4, "a")], &["b"], Some(2));
    let shown = active_space_changed(&mut st, &[d("a"), d("a")]);
    assert_eq!(shown, vec![0, 3]);
    assert_eq!(st.active_desktop_ids, vec!["a".to_string()]);
    assert_eq!(st.active_note_id, Some(2));
    assert_eq!(st.notes.len(), 4);

    let mut st = state(&[(1, "a"), (2, "b"), (3, "")], &["a"], Some(9));
    let shown = active_space_changed(&mut st, &[]);
    assert_eq!(shown, vec![2]);
    assert_eq!(st.active_desktop_ids, vec!["desktop:default".to_string()]);
    assert_eq!(st.active_note_id, Some(3));

    let mut st = state(&[(1, "a")], &["a"], None);
    let shown = active_space_changed(&mut st, &[d("z")]);
    assert!(shown.is_empty());
    assert_eq!(st.active_note_id, None);
}

#[test]
fn job_stores_start_empty() {
    assert!(reminder_jobs().is_empty());
    assert!(pending_notifications().is_empty());
}

#[test]
fn readable_dates_are_normal() {
    for (y, m, d) in [(2026, 6, 10), (5, 1, 2), (1, 12, 31), (9999, 2, 28), (2000, 2, 29), (-44, 3, 15)] {
        let readable = format_date(&date(y, m, d));
        let (again, reminders) = normalize_reminder_line(&chars(&readable), &[]);
        assert_eq!(again, readable);
        assert!(reminders.is_empty());
    }
}

fn days_from_epoch(d: &Date) -> i64 {
    let (y, m, day) = (d.year() as i64, d.month() as i64, d.day() as i64);
    let leaps = |n: i64| n.div_euclid(4) - n.div_euclid(100) + n.div_euclid(400);
    let cum = [0, 31, 59, 90, 120, 151, 181, 212, 243, 273, 304, 334][(m - 1) as usize];
    let leap = (y % 4 == 0 && y % 100 != 0) || y % 400 == 0;
    365 * (y - 1970) + leaps(y - 1) - leaps(1969) + cum + if m > 2 && leap { 1 } else { 0 } + day - 1
}

#[test]
fn local_days_and_times_lie_within_a_day_of_the_instant() {
    for ts in [0i64, 1_781_049_600, -86_400 * 365 * 100, 8_210_266_790_399, -8_334_601_142_400] {
        let (day, at) = local_date_time_at(ts).unwrap();
        let wall = days_from_epoch(&day) * 86400 + (at.hour() * 3600 + at.minute() * 60 + at.second()) as i64;
        assert!((wall - ts).abs() < 86400, "{ts}");
    }
    assert!(local_date_time_at(i64::MAX).is_none());
    assert!(local_date_time_at(i64::MIN).is_none());
    // The first and last seconds of chrono's calendar have a local time of day
    // in every zone; whether they have a local day depends on the zone.
    assert!(local_time_at(8_210_266_790_400 + 86_399).is_some());
    assert!(local_time_at(-8_334_601_142_400 - 86_400).is_some());
    assert!(local_time_at(8_210_266_790_400 + 86_400).is_none());
    assert!(local_time_at(-8_334_601_142_400 - 86_401).is_none());
    assert!(local_time_at(i64::MAX).is_none());
    if let Some((day, at)) = local_date_time_at(8_210_266_790_400 + 86_399) {
        let wall = days_from_epoch(&day) * 86400 + (at.hour() * 3600 + at.minute() * 60 + at.second()) as i64;
        assert!((wall - (8_210_266_790_400 + 86_399)).abs() < 86400);
    }
    let now = local_now();
    let start = days_from_epoch(&now.today) * 86400;
    assert!(start - 86400 < now.timestamp && now.timestamp < start + 2 * 86400);
    let d = date(2026, 6, 10);
    let t = local_timestamp(&d, &time(9, 30)).unwrap();
    assert!((t - (days_from_epoch(&d) * 86400 + 9 * 3600 + 30 * 60)).abs() < 86400);
    assert_eq!(days_from_epoch(&date(1970, 1, 1)), 0);
    assert_eq!(days_from_epoch(&date(2000, 3, 1)), 11017);
}

#[test]
fn reminder_days_and_times_are_read_when_typed() {
    let r = reminder(1_781_049_600, Some("Wednesday June 10th, 2026"), None, None);
    assert!(sticky_note::reminder::reminder_date(&r).is_some());
    assert!(sticky_note::reminder::reminder_time(&r).is_none());
    let r = reminder(1_781_049_600, None, Some("9:00 AM"), None);
    assert!(sticky_note::reminder::reminder_date(&r).is_none());
    assert!(sticky_note::reminder::reminder_time(&r).is_some());
    let text: Vec<char> = "see 9:00 AM".chars().collect();
    assert!(sticky_note::reminder::visible_reminder_time(&text, &r).is_some());
    assert!(sticky_note::reminder::visible_reminder_date(&text, &r).is_none());
    let other: Vec<char> = "see 9:01 AM".chars().collect();
    assert!(sticky_note::reminder::visible_reminder_time(&other, &r).is_none());
    let far = reminder(i64::MAX, None, Some("9:00 AM"), None);
    assert!(sticky_note::reminder::reminder_time(&far).is_none());
}

#[test]
fn white_space_is_that_of_std() {
    for n in 0u32..=0x3100 {
        if let Some(c) = char::from_u32(n) {
            assert_eq!(trim_chars(&[c]).is_empty(), c.is_whitespace(), "{n:x}");
        }
    }
    for c in ['\u{feff}', '\u{180e}', '\u{200b}', '\u{10ffff}'] {
        assert_eq!(trim_chars(&[c]).is_empty(), c.is_whitespace());
    }
}

#[test]
fn candidates_combine_typed_and_visible_dates_and_times() {
    let line = chars("Dentist Friday January 2nd, 2099 9:45am");
    let existing = vec![reminder(4_070_000_000, Some("Friday January 2nd, 2099"), None, Some("Dentist"))];
    let cands = line_reminder_candidates(&line, &existing, &[Some(date(2099, 1, 2))], &[None]);
    assert_eq!(cands.len(), 1);
    assert_eq!(cands[0].date_text.as_deref(), Some("Friday January 2nd, 2099"));
    assert_eq!(cands[0].time_text.as_deref(), Some("9:45 AM"));
    let none = line_reminder_candidates(&line, &existing, &[None], &[None]);
    assert_eq!(none.len(), 1);
    assert!(none[0].date_text.is_none());
    assert_eq!(none[0].time_text.as_deref(), Some("9:45 AM"));

    let line = chars("Call 01/02/2099 9:15am and 10:20pm, 01/03/2099");
    let cands = line_reminder_candidates(&line, &[], &[], &[]);
    assert_eq!(cands.len(), 4);
    let body = Some("Call".to_string());
    let rs = reminders_from_candidates(&cands, &[Some(10), None, Some(30), Some(10)], &body);
    assert_eq!(rs.len(), 3);
    assert_eq!(rs[0].due_at, 10);
    assert_eq!(rs[0].date_text.as_deref(), Some("Friday January 2nd, 2099"));
    assert_eq!(rs[0].time_text.as_deref(), Some("9:15 AM"));
    assert_eq!(rs[1].date_text.as_deref(), Some("Saturday January 3rd, 2099"));
    assert_eq!(rs[1].time_text.as_deref(), Some("9:15 AM"));
    assert_eq!(rs[2].time_text.as_deref(), Some("10:20 PM"));
    assert!(rs.iter().all(|r| r.body.as_deref() == Some("Call")));
    assert!(reminders_from_candidates(&cands, &[None, None, None, None], &body).is_empty());
}

#[test]
fn due_instants_from_a_clock_reading() {
    let today = date(2026, 6, 10);
    let ten = local_timestamp(&today, &time(10, 0)).unwrap();
    let now = LocalNow { timestamp: ten, today: today.copy() };
    let nine_today = local_timestamp(&today, &time(9, 0)).unwrap();
    let nine_tomorrow = local_timestamp(&date(2026, 6, 11), &time(9, 0)).unwrap();
    let eleven_today = local_timestamp(&today, &time(11, 0)).unwrap();
    assert_eq!(due_at_from(None, Some(time(9, 0)), &now), Some(nine_tomorrow));
    assert_eq!(due_at_from(None, Some(time(11, 0)), &now), Some(eleven_today));
    assert_eq!(due_at_from(Some(date(2026, 6, 11)), None, &now), Some(nine_tomorrow));
    assert_eq!(due_at_from(Some(today.copy()), None, &now), None);
    assert!(nine_today < ten);
    assert_eq!(due_at_from(None, None, &now), None);
}

#[test]
fn desktops_from_what_the_displays_report() {
    let display = |id: Option<&str>, current: Option<Option<&str>>, spaces: &[(bool, Option<&str>)]| DisplaySpaces {
        display_identifier: id.map(|s| s.to_string()),
        current_space: current.map(|o| o.map(|s| s.to_string())),
        spaces: spaces.iter().map(|(f, s)| (*f, s.map(|x| x.to_string()))).collect(),
    };
    let displays = vec![
        display(Some("A"), Some(Some("id:1")), &[(false, Some("id:9"))]),
        display(Some("B"), None, &[(false, Some("id:2")), (true, Some("id:3")), (true, None)]),
        display(None, Some(None), &[(true, Some("id:4"))]),
    ];
    let current = current_desktops_from(&displays);
    let ids: Vec<&str> = current.iter().map(|d| d.desktop_id.as_str()).collect();
    assert_eq!(ids, vec!["display:A/space:id:1", "display:B/space:id:3"]);
    assert_eq!(current[1].display_identifier.as_deref(), Some("B"));
    let all = all_desktops_from(&displays);
    let ids: Vec<&str> = all.iter().map(|d| d.desktop_id.as_str()).collect();
    assert_eq!(ids, vec!["display:A/space:id:9", "display:B/space:id:2", "display:B/space:id:3", "space:id:4"]);
    for empty in [vec![], vec![display(Some("A"), Some(None), &[(true, None)])]] {
        let current = current_desktops_from(&empty);
        assert_eq!(current.len(), 1);
        assert_eq!(current[0].desktop_id, "desktop:default");
        assert!(current[0].display_identifier.is_none());
        assert_eq!(all_desktops_from(&empty)[0].desktop_id, "desktop:default");
    }
}
