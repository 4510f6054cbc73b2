//! The logic of a desktop sticky-note application: typed dates and times in a
//! note become readable text and reminders, reminders become notification
//! jobs, and desktops are named and read back.
pub mod calendar;
pub mod desktop;
pub mod format;
pub mod normalize;
pub mod notify;
pub mod reminder;
pub mod text;
pub mod tokens;
