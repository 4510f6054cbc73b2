# sticky_note

The logic of a macOS desktop sticky-note application, verified with Verus.

Typed dates (`MM/DD/YYYY`) and times (`H:MMam`, `HH:MM pm`) in a note become
readable text and reminders; reminders become notification jobs 30, 10 and 5
minutes before and at the time they are due; desktops (a Space on a display)
are named and their names read back; the application's rules for which note
is selected, shown, moved or closed are stated over plain values.

Layout:

- `src/text.rs`: character helpers on strings and character slices.
- `src/calendar.rs`: dates, times, and the local clock and time zone (through
  `chrono`).
- `src/format.rs`: readable dates and times.
- `src/tokens.rs`: finding typed dates and times in a line and rewriting it.
- `src/reminder.rs`: reminders and when they are due.
- `src/normalize.rs`: normalizing a line and a whole note into text and
  reminders.
- `src/notify.rs`: notification texts, the job schedule and delivery.
- `src/desktop.rs`: desktop identifiers and the selection rules of the
  application state.
- `tests/`: tests of the library on concrete values.
- `app/main.rs`: the Cocoa application (windows, menus, files, the scheduler
  thread), which calls the library for its decisions.
