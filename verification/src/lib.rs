//! optioncalendar — ICS event store logic, day/week/month queries, reminders,
//! the tasks bridge and the decisions of the `oca` commands and month view,
//! with their behaviour stated as Verus contracts.
//!
//! Local-first minimal calendar. No network. No daemon.
pub mod date;
mod error;
pub mod text;
pub mod week;
pub mod ics;
pub mod sort;
pub mod tasks;
pub mod query;
pub mod notify;
pub mod store;
pub mod cli;
pub mod tui;
pub mod roundtrip;
pub mod reload;

pub use date::{Date, DateTime, today};
pub use error::{Error, Result};
pub use ics::{Event, format_date, format_dt, is_date_only, parse_dt, parse_ics, to_ics};
pub use notify::{DEFAULT_LATE, due_events, notification_key, parse_notified, notified_text, try_due_events};
pub use query::{
    DayItem, events_between, events_on, merged_between, month_range, occurrences_between, occurs_on,
    today_merged,
};
pub use store::{CalStore, EventEdit, Settings};
pub use tasks::{MarkdownFile, TaskDue, collect_due_tasks, is_markdown, parse_due_tasks};
pub use week::WeekStart;
