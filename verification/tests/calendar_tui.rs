use optioncalendar::date::{Date, DateTime};
use optioncalendar::tui::{
    Action, Key, Pane, TuiState, agenda_for_day, agenda_row, agenda_summary, cell_label, day_has_items,
    last_day_of_month, month_weeks, shift_month, truncate, weekday_header,
};
use optioncalendar::{DayItem, Event as CalEvent, TaskDue, WeekStart, parse_dt};

fn dt(raw: &str) -> DateTime {
    parse_dt(raw).unwrap()
}

fn ymd(y: i32, m: u32, d: u32) -> Date {
    Date::from_ymd(y, m, d).unwrap()
}

#[test]
fn month_weeks_cover_september_monday_first() {
    let weeks = month_weeks(2026, 9, WeekStart::Monday).unwrap();
    // Sep 1 2026 is a Tuesday: first week starts Mon Aug 31.
    assert_eq!(weeks[0][0], ymd(2026, 8, 31));
    assert!(weeks.iter().all(|w| w.len() == 7));
    assert!(weeks.concat().contains(&ymd(2026, 9, 30)));
}

#[test]
fn shift_month_clamps_short_months() {
    let jan31 = ymd(2026, 1, 31);
    assert_eq!(shift_month(jan31, 1), ymd(2026, 2, 28));
    let mar31 = ymd(2026, 3, 31);
    assert_eq!(shift_month(mar31, -1), ymd(2026, 2, 28));
}

#[test]
fn agenda_today_includes_overdue_other_days_do_not() {
    let today = ymd(2026, 9, 4);
    let events = vec![CalEvent::new("Standup", dt("2026-09-04T10:00"), None)];
    let tasks = vec![TaskDue {
        text: "pay bill".into(),
        due: ymd(2026, 9, 3),
        source: "tasks/a.md".into(),
    }];
    let items = agenda_for_day(&events, &tasks, today, today);
    assert_eq!(items.len(), 2);
    let other = ymd(2026, 9, 5);
    let items = agenda_for_day(&events, &tasks, other, today);
    assert!(items.is_empty());
}

#[test]
fn shift_month_crosses_years() {
    assert_eq!(shift_month(ymd(2026, 12, 15), 1), ymd(2027, 1, 15));
    assert_eq!(shift_month(ymd(2026, 1, 15), -1), ymd(2025, 12, 15));
    assert_eq!(shift_month(ymd(2024, 3, 31), -1), ymd(2024, 2, 29));
    assert_eq!(last_day_of_month(2026, 2), Some(28));
    assert_eq!(last_day_of_month(2026, 12), Some(31));
}

#[test]
fn sunday_grid_and_headers() {
    let weeks = month_weeks(2026, 9, WeekStart::Sunday).unwrap();
    assert_eq!(weeks[0][0], ymd(2026, 8, 30));
    assert_eq!(weeks.len(), 5);
    assert_eq!(weekday_header(WeekStart::Monday), "Mo Tu We Th Fr Sa Su");
    assert_eq!(weekday_header(WeekStart::Sunday), "Su Mo Tu We Th Fr Sa");
    assert!(month_weeks(2026, 13, WeekStart::Monday).is_none());
}

#[test]
fn truncation_marks_cut_text() {
    assert_eq!(truncate("hello", 10), "hello");
    assert_eq!(truncate("hello", 4), "hel…");
    assert_eq!(truncate("hello", 1), "…");
    assert_eq!(truncate("", 0), "");
}

#[test]
fn agenda_texts() {
    let selected = ymd(2026, 9, 10);
    let timed = CalEvent::new("Standup", dt("2026-09-10T09:30"), None);
    let earlier = CalEvent::new("Conf", dt("2026-09-09T09:00"), Some(dt("2026-09-11T17:00")));
    let midnight = CalEvent::new("Holiday", dt("2026-09-10T00:00"), None);
    assert_eq!(agenda_row(&DayItem::Event(timed.clone()), selected), "09:30  Standup");
    assert_eq!(agenda_row(&DayItem::Event(earlier.clone()), selected), "09-09 09:00  Conf");
    assert_eq!(agenda_row(&DayItem::Event(midnight), selected), "all-day  Holiday");
    let overdue = TaskDue { text: "pay".into(), due: ymd(2026, 9, 9), source: "a.md".into() };
    assert_eq!(agenda_row(&DayItem::Task(overdue.clone()), selected), "[ ] pay  (due 2026-09-09)");
    let due_today = TaskDue { text: "call".into(), due: selected, source: "a.md".into() };
    assert_eq!(agenda_row(&DayItem::Task(due_today.clone()), selected), "[ ] call");
    let events = vec![timed, earlier];
    let tasks = vec![overdue, due_today];
    assert_eq!(agenda_summary(&events, &tasks, selected), "2026-09-10 · 2 events + 1 task");
    assert_eq!(agenda_summary(&Vec::new(), &Vec::new(), selected), "2026-09-10 · nothing");
    assert!(day_has_items(&events, &tasks, selected));
    assert!(!day_has_items(&events, &tasks, ymd(2026, 9, 20)));
    assert_eq!(cell_label(ymd(2026, 9, 5), true), " 5•");
    assert_eq!(cell_label(ymd(2026, 9, 15), false), "15 ");
    let other_day = agenda_for_day(&events, &tasks, selected, ymd(2026, 9, 1));
    let rows: Vec<String> = other_day.iter().map(|i| agenda_row(i, selected)).collect();
    assert_eq!(rows, ["09-09 09:00  Conf", "09:30  Standup", "[ ] call"]);
}

#[test]
fn keys_drive_the_view() {
    let today = ymd(2026, 9, 10);
    let events: Vec<CalEvent> = Vec::new();
    let tasks: Vec<TaskDue> = Vec::new();
    let mut state = TuiState::new(today, false, WeekStart::Monday);
    assert_eq!(state.handle_key(Key::Char('l'), false, false, &events, &tasks, 8), Action::Continue);
    assert_eq!(state.selected, ymd(2026, 9, 11));
    state.handle_key(Key::Down, false, false, &events, &tasks, 8);
    assert_eq!(state.selected, ymd(2026, 9, 18));
    state.handle_key(Key::Char('n'), false, false, &events, &tasks, 8);
    assert_eq!(state.selected, ymd(2026, 10, 18));
    state.handle_key(Key::Char('t'), false, false, &events, &tasks, 8);
    assert_eq!(state.selected, today);
    state.handle_key(Key::Tab, false, false, &events, &tasks, 8);
    assert_eq!(state.pane, Pane::Agenda);
    state.handle_key(Key::Char('?'), false, false, &events, &tasks, 8);
    assert!(state.show_help);
    assert_eq!(state.handle_key(Key::Char('x'), false, false, &events, &tasks, 8), Action::Continue);
    assert!(!state.show_help);
    assert_eq!(state.handle_key(Key::Char('T'), false, false, &events, &tasks, 8), Action::ToggleLaunch);
    assert!(state.toggle_target());
    state.finish_toggle(false);
    assert_eq!(state.status_note.as_deref(), Some("config save failed"));
    assert!(!state.launch_on_no_args);
    state.finish_toggle(true);
    assert!(state.launch_on_no_args);
    assert_eq!(state.status_note, None);
    assert_eq!(state.handle_key(Key::Char('q'), false, false, &events, &tasks, 8), Action::Quit);
    assert_eq!(state.handle_key(Key::Esc, false, false, &events, &tasks, 8), Action::Quit);
}

#[test]
fn agenda_scrolls_within_bounds() {
    let today = ymd(2026, 9, 10);
    let events: Vec<CalEvent> = (0..5)
        .map(|i| CalEvent::new(&format!("E{i}"), dt(&format!("2026-09-10T1{i}:00")), None))
        .collect();
    let tasks: Vec<TaskDue> = Vec::new();
    let mut state = TuiState::new(today, false, WeekStart::Monday);
    state.handle_key(Key::Tab, false, false, &events, &tasks, 2);
    for _ in 0..10 {
        state.handle_key(Key::Char('j'), false, false, &events, &tasks, 2);
    }
    assert_eq!(state.agenda_scroll, 3);
    state.handle_key(Key::Char('k'), false, false, &events, &tasks, 2);
    assert_eq!(state.agenda_scroll, 2);
    state.handle_key(Key::Char('g'), false, false, &events, &tasks, 2);
    assert_eq!(state.agenda_scroll, 0);
    state.handle_key(Key::Char('G'), false, false, &events, &tasks, 2);
    assert_eq!(state.agenda_scroll, 3);
    state.clamp_scroll(5, 4);
    assert_eq!(state.agenda_scroll, 1);
}

#[test]
fn month_grid_stops_after_the_week_holding_the_last_day() {
    // May 2026: the 1st is a Friday, the 31st a Sunday.
    let weeks = month_weeks(2026, 5, WeekStart::Monday).unwrap();
    assert_eq!(weeks.len(), 5);
    assert_eq!(weeks[0][0], ymd(2026, 4, 27));
    assert_eq!(weeks[4][6], ymd(2026, 5, 31));
    // September 2026 (Monday start) ends on a Wednesday: five weeks too.
    assert_eq!(month_weeks(2026, 9, WeekStart::Monday).unwrap().len(), 5);
}
