use chrono::{Datelike, Local, NaiveDate};
use sticky_note::calendar::Date;
use sticky_note::desktop::{
    desktop_display_identifier, managed_space_id_from_desktop_id, selected_note_id_for_move,
    DesktopState, NoteInfo,
};
use sticky_note::format::format_date;
use sticky_note::normalize::normalize_reminder_text;
use sticky_note::reminder::{build_due_at, migrate_note_reminders, Reminder};

fn future_date() -> NaiveDate {
    Local::now().date_naive() + chrono::Duration::days(30)
}

fn numeric_date(date: NaiveDate) -> String {
    format!("{:02}/{:02}/{}", date.month(), date.day(), date.year())
}

fn library_date(date: NaiveDate) -> Date {
    Date::from_ymd(date.year(), date.month(), date.day()).unwrap()
}

fn test_note(id: u64, desktop_id: &str) -> NoteInfo {
    NoteInfo {
        id,
        desktop_id: desktop_id.to_string(),
    }
}

fn test_state(notes: Vec<NoteInfo>, active_desktop_id: &str, active_note_id: Option<u64>) -> DesktopState {
    DesktopState {
        notes,
        active_desktop_ids: vec![active_desktop_id.to_string()],
        active_note_id,
    }
}

#[test]
fn move_selection_keeps_hidden_active_note() {
    let state = test_state(
        vec![test_note(1, "space:one"), test_note(2, "space:two")],
        "space:two",
        Some(1),
    );

    assert_eq!(selected_note_id_for_move(&state), Some(1));
}

#[test]
fn move_selection_falls_back_to_visible_note() {
    let state = test_state(
        vec![test_note(1, "space:one"), test_note(2, "space:two")],
        "space:two",
        None,
    );

    assert_eq!(selected_note_id_for_move(&state), Some(2));
}

#[test]
fn parses_managed_space_ids_from_desktop_ids() {
    assert_eq!(
        managed_space_id_from_desktop_id("display:abc/space:id:546"),
        Some(546)
    );
    assert_eq!(
        managed_space_id_from_desktop_id("display:abc/space:managed:57"),
        Some(57)
    );
    assert_eq!(
        managed_space_id_from_desktop_id("display:abc/space:uuid:not-numeric"),
        None
    );
}

#[test]
fn extracts_display_identifier_from_desktop_id() {
    assert_eq!(
        desktop_display_identifier("display:abc/space:id:1").as_deref(),
        Some("abc")
    );
    assert_eq!(desktop_display_identifier("space:id:1"), None);
}

#[test]
fn parses_multiple_reminder_lines() {
    let date = future_date();
    let raw = format!(
        "Call {} 9:15am\nPay {} 10:20pm\nStretch 11:25am",
        numeric_date(date),
        numeric_date(date)
    );

    let (normalized, reminders) = normalize_reminder_text(&raw, &[]);

    assert!(normalized.contains(&format_date(&library_date(date))));
    assert!(normalized.contains("9:15 AM"));
    assert!(normalized.contains("10:20 PM"));
    assert!(normalized.contains("11:25 AM"));
    assert_eq!(reminders.len(), 3);
}

#[test]
fn parses_multiple_times_on_one_dated_line() {
    let date = future_date();
    let raw = format!("{} calls at 9:15am and 10:20pm", numeric_date(date));

    let (_, reminders) = normalize_reminder_text(&raw, &[]);

    let formatted = format_date(&library_date(date));
    assert_eq!(reminders.len(), 2);
    assert!(reminders
        .iter()
        .all(|reminder| reminder.date_text.as_deref() == Some(formatted.as_str())));
    assert!(reminders
        .iter()
        .any(|reminder| reminder.time_text.as_deref() == Some("9:15 AM")));
    assert!(reminders
        .iter()
        .any(|reminder| reminder.time_text.as_deref() == Some("10:20 PM")));
}

#[test]
fn combines_new_time_with_existing_visible_date() {
    let date = future_date();
    let existing = Reminder {
        due_at: build_due_at(Some(library_date(date)), None).unwrap(),
        date_text: Some(format_date(&library_date(date))),
        time_text: None,
        body: Some("Dentist".to_string()),
    };
    let raw = format!("Dentist {} 9:45am", existing.date_text.as_deref().unwrap());

    let (normalized, reminders) = normalize_reminder_text(&raw, &[existing]);

    let formatted = format_date(&library_date(date));
    assert!(normalized.contains("9:45 AM"));
    assert_eq!(reminders.len(), 1);
    assert_eq!(reminders[0].date_text.as_deref(), Some(formatted.as_str()));
    assert_eq!(reminders[0].time_text.as_deref(), Some("9:45 AM"));
}

#[test]
fn migrates_legacy_single_reminder_list() {
    let mut reminders: Vec<Reminder> = Vec::new();
    let mut legacy = Some(Reminder {
        due_at: 1999999999,
        date_text: None,
        time_text: Some("9:00 AM".to_string()),
        body: None,
    });

    migrate_note_reminders(&mut reminders, &mut legacy);

    assert_eq!(reminders.len(), 1);
    assert!(legacy.is_none());
    assert_eq!(reminders[0].time_text.as_deref(), Some("9:00 AM"));
}

#[test]
fn migration_keeps_existing_reminders_and_drops_legacy() {
    let mut reminders = vec![Reminder {
        due_at: 10,
        date_text: None,
        time_text: Some("1:00 PM".to_string()),
        body: None,
    }];
    let mut legacy = Some(Reminder {
        due_at: 20,
        date_text: None,
        time_text: Some("2:00 PM".to_string()),
        body: None,
    });

    migrate_note_reminders(&mut reminders, &mut legacy);

    assert_eq!(reminders.len(), 1);
    assert_eq!(reminders[0].due_at, 10);
    assert!(legacy.is_none());
}

fn reminder_from_json(value: &serde_json::Value) -> Reminder {
    let text = |key: &str| value.get(key).and_then(|v| v.as_str()).map(|s| s.to_string());
    Reminder {
        due_at: value["due_at"].as_i64().unwrap(),
        date_text: text("date_text"),
        time_text: text("time_text"),
        body: text("body"),
    }
}

fn reminder_to_json(reminder: &Reminder) -> serde_json::Value {
    let mut object = serde_json::Map::new();
    object.insert("due_at".to_string(), serde_json::Value::from(reminder.due_at));
    let opt = |o: &Option<String>| match o {
        Some(s) => serde_json::Value::String(s.clone()),
        None => serde_json::Value::Null,
    };
    object.insert("date_text".to_string(), opt(&reminder.date_text));
    object.insert("time_text".to_string(), opt(&reminder.time_text));
    if let Some(body) = &reminder.body {
        object.insert("body".to_string(), serde_json::Value::String(body.clone()));
    }
    serde_json::Value::Object(object)
}

// The saved note's serde attributes (the legacy "reminder" field is read but
// never written; "reminders" is written when not empty) belong to the
// application's own note type, which serde derives that tests cannot use; so
// this test writes that rule by hand around the library's migration.
#[test]
fn migrates_legacy_single_reminder() {
    let mut note: serde_json::Value = serde_json::from_str(
        r#"{
            "id": 1,
            "desktop_id": "",
            "x": 0.0,
            "y": 0.0,
            "w": 260.0,
            "h": 210.0,
            "text": "Legacy",
            "reminder": {
                "due_at": 1999999999,
                "date_text": null,
                "time_text": "9:00 AM"
            }
        }"#,
    )
    .unwrap();
    let object = note.as_object_mut().unwrap();
    let mut reminders: Vec<Reminder> = Vec::new();
    let mut legacy = object.remove("reminder").map(|v| reminder_from_json(&v));

    migrate_note_reminders(&mut reminders, &mut legacy);
    if !reminders.is_empty() {
        object.insert(
            "reminders".to_string(),
            serde_json::Value::Array(reminders.iter().map(reminder_to_json).collect()),
        );
    }
    let saved = serde_json::to_string(&note).unwrap();

    assert_eq!(reminders.len(), 1);
    assert!(saved.contains("\"reminders\""));
    assert!(!saved.contains("\"reminder\""));
}
