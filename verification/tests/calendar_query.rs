use optioncalendar::date::{Date, DateTime};
use optioncalendar::{
    DayItem, Event, TaskDue, events_between, events_on, merged_between, month_range, occurs_on, parse_dt,
    today_merged,
};

fn dt(raw: &str) -> DateTime {
    parse_dt(raw).unwrap()
}

fn event(summary: &str, start: &str, end: Option<&str>) -> Event {
    Event::new(summary, dt(start), end.map(dt))
}

fn day(raw: &str) -> Date {
    parse_dt(raw).unwrap().date()
}

fn to_chrono(value: DateTime) -> chrono::NaiveDateTime {
    let date = chrono::NaiveDate::from_num_days_from_ce_opt(value.date().days()).unwrap();
    let time = chrono::NaiveTime::from_num_seconds_from_midnight_opt(value.secs(), value.frac()).unwrap();
    date.and_time(time)
}

#[test]
fn multiday_event_occurs_on_middle_day() {
    let e = event("Conf", "2026-09-04T09:00", Some("2026-09-06T18:00"));
    let mid = Date::from_ymd(2026, 9, 5).unwrap();
    assert!(occurs_on(&e, mid));
    assert!(!occurs_on(&e, Date::from_ymd(2026, 9, 7).unwrap()));
}

#[test]
fn today_merged_includes_overdue_tasks() {
    let date = Date::from_ymd(2026, 9, 4).unwrap();
    let events = vec![event("Standup", "2026-09-04T10:00", None)];
    let tasks = vec![
        TaskDue {
            text: "pay bill".into(),
            due: Date::from_ymd(2026, 9, 3).unwrap(),
            source: "tasks/a.md".into(),
        },
        TaskDue {
            text: "future".into(),
            due: Date::from_ymd(2026, 9, 10).unwrap(),
            source: "tasks/a.md".into(),
        },
    ];
    let items = today_merged(&events, &tasks, date);
    assert_eq!(items.len(), 2);
    // Overdue tasks surface before today's timed events.
    assert!(matches!(items[0], DayItem::Task(_)));
    assert!(matches!(items[1], DayItem::Event(_)));
}

#[test]
fn all_day_event_with_exclusive_dtend_spans_one_day() {
    let e = event("Holiday", "2026-09-10T00:00", None);
    let mut e = e;
    e.all_day = true;
    e.end = Some(dt("2026-09-11T00:00"));
    assert!(occurs_on(&e, day("2026-09-10")));
    assert!(!occurs_on(&e, day("2026-09-11")));
    assert_eq!(
        events_between(&vec![e], day("2026-09-11"), day("2026-09-30")).len(),
        0
    );
}

#[test]
fn rrule_weekly_count_expands_within_window() {
    let mut e = event("Standup", "2026-09-01T10:00", Some("2026-09-01T10:30"));
    e.rrule = Some("FREQ=WEEKLY;COUNT=3".into());
    let hits = events_between(&vec![e.clone()], day("2026-09-01"), day("2026-09-30"));
    let starts: Vec<String> = hits.iter().map(|h| to_chrono(h.start).to_string()).collect();
    assert_eq!(
        starts,
        vec![
            "2026-09-01 10:00:00",
            "2026-09-08 10:00:00",
            "2026-09-15 10:00:00"
        ]
    );
    assert_eq!(hits[1].end, Some(dt("2026-09-08T10:30")));
    assert_eq!(hits[1].uid, e.uid);
    assert!(occurs_on(&e, day("2026-09-15")));
    assert!(!occurs_on(&e, day("2026-09-22")));
    assert_eq!(events_on(&vec![e], day("2026-09-08")).len(), 1);
}

#[test]
fn rrule_daily_interval_until_stops_inclusive() {
    let mut e = event("Meds", "2026-09-01T08:00", None);
    e.rrule = Some("FREQ=DAILY;INTERVAL=2;UNTIL=20260905".into());
    let hits = events_between(&vec![e], day("2026-08-01"), day("2026-12-31"));
    let days: Vec<Date> = hits.iter().map(|h| h.start.date()).collect();
    assert_eq!(
        days,
        vec![day("2026-09-01"), day("2026-09-03"), day("2026-09-05")]
    );

    let mut timed = event("Meds", "2026-09-01T08:00", None);
    timed.rrule = Some("FREQ=DAILY;UNTIL=20260903T070000Z".into());
    let hits = events_between(&vec![timed], day("2026-08-01"), day("2026-12-31"));
    assert_eq!(hits.len(), 2);
}

#[test]
fn rrule_monthly_and_yearly() {
    let mut monthly = event("Rent", "2026-01-31T09:00", None);
    monthly.rrule = Some("FREQ=MONTHLY;COUNT=3".into());
    let days: Vec<Date> = events_between(&vec![monthly], day("2026-01-01"), day("2026-12-31"))
        .iter()
        .map(|h| h.start.date())
        .collect();
    assert_eq!(
        days,
        vec![day("2026-01-31"), day("2026-02-28"), day("2026-03-31")]
    );

    let mut yearly = event("Birthday", "2026-09-10T00:00", None);
    yearly.rrule = Some("FREQ=YEARLY".into());
    assert!(occurs_on(&yearly, day("2030-09-10")));
    assert!(!occurs_on(&yearly, day("2025-09-10")));
}

#[test]
fn unsupported_rrule_yields_first_occurrence_only() {
    let mut e = event("Odd", "2026-09-01T10:00", None);
    e.rrule = Some("FREQ=HOURLY;COUNT=5".into());
    assert_eq!(
        events_between(&vec![e.clone()], day("2026-09-01"), day("2026-09-30")).len(),
        1
    );
    e.rrule = Some("garbage".into());
    assert!(occurs_on(&e, day("2026-09-01")));
    assert!(!occurs_on(&e, day("2026-09-02")));
    e.rrule = Some("FREQ=DAILY;COUNT=0".into());
    assert!(occurs_on(&e, day("2026-09-01")));
    assert!(!occurs_on(&e, day("2026-09-02")));
}

#[test]
fn old_series_still_reaches_far_windows() {
    let mut daily = event("Old", "1990-01-01T07:00", Some("1990-01-03T07:00"));
    daily.rrule = Some("FREQ=DAILY".into());
    let hits = events_between(&vec![daily.clone()], day("2026-09-10"), day("2026-09-10"));
    // Three-day span: occurrences starting 09-08, 09-09 and 09-10 all touch the day.
    assert_eq!(hits.len(), 3);
    assert_eq!(hits[0].start.date(), day("2026-09-08"));
    assert!(hits[0].start_raw.is_none());
    daily.rrule = Some("FREQ=DAILY;COUNT=100".into());
    assert!(!occurs_on(&daily, day("2026-09-10")));

    let mut monthly = event("Rent", "1990-01-31T09:00", None);
    monthly.rrule = Some("FREQ=MONTHLY;INTERVAL=2".into());
    assert!(occurs_on(&monthly, day("2026-09-30")));
    assert!(!occurs_on(&monthly, day("2026-08-31")));
}

#[test]
fn month_range_september() {
    let date = Date::from_ymd(2026, 9, 4).unwrap();
    let (first, last) = month_range(date);
    assert_eq!(first, Date::from_ymd(2026, 9, 1).unwrap());
    assert_eq!(last, Date::from_ymd(2026, 9, 30).unwrap());
}

#[test]
fn month_range_december_ends_on_new_years_eve() {
    let (first, last) = month_range(Date::from_ymd(2026, 12, 15).unwrap());
    assert_eq!(first, Date::from_ymd(2026, 12, 1).unwrap());
    assert_eq!(last, Date::from_ymd(2026, 12, 31).unwrap());
}

#[test]
fn events_between_lists_by_start_then_summary() {
    let events = vec![
        event("B", "2026-09-10T10:00", None),
        event("A", "2026-09-10T10:00", None),
        event("Early", "2026-09-09T08:00", None),
    ];
    let hits = events_between(&events, day("2026-09-01"), day("2026-09-30"));
    let names: Vec<&str> = hits.iter().map(|h| h.summary.as_str()).collect();
    assert_eq!(names, ["Early", "A", "B"]);
}

#[test]
fn merged_window_keeps_only_tasks_due_inside() {
    let events = vec![event("Standup", "2026-09-08T09:00", None)];
    let tasks = vec![
        TaskDue { text: "old".into(), due: day("2026-09-01"), source: "a.md".into() },
        TaskDue { text: "inside".into(), due: day("2026-09-08"), source: "a.md".into() },
        TaskDue { text: "after".into(), due: day("2026-09-20"), source: "a.md".into() },
    ];
    let items = merged_between(&events, &tasks, day("2026-09-07"), day("2026-09-13"));
    assert_eq!(items.len(), 2);
    assert!(matches!(&items[0], DayItem::Event(e) if e.summary == "Standup"));
    assert!(matches!(&items[1], DayItem::Task(t) if t.text == "inside"));
}

#[test]
fn timed_events_come_before_all_day_items() {
    let date = Date::from_ymd(2026, 9, 10).unwrap();
    let events = vec![
        Event::new_all_day("Holiday", date, None),
        event("Standup", "2026-09-10T09:30", None),
    ];
    let tasks = vec![TaskDue { text: "file report".into(), due: date, source: "t.md".into() }];
    let items = today_merged(&events, &tasks, date);
    let names: Vec<String> = items
        .iter()
        .map(|i| match i {
            DayItem::Event(e) => e.summary.clone(),
            DayItem::Task(t) => t.text.clone(),
        })
        .collect();
    assert_eq!(names, ["Standup", "Holiday", "file report"]);
}
