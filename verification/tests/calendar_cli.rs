use optioncalendar::cli::{
    EditArgs, apply_config, build_added_event, check_add, day_item_line, event_line, event_matches, fmt_dt,
    fmt_time, grouped_lines, month_header, notification_body, notify_minutes, parse_bool, parse_cli_day,
    parse_cli_month, parse_minutes, parse_week_start, plan_edit, plural, remove_by_id, resolve_id,
    search_events, to_send, today_line, week_start_name, when_label, next_event,
};
use optioncalendar::date::{Date, DateTime};
use optioncalendar::{CalStore, DayItem, Event, Settings, TaskDue, WeekStart, notification_key, parse_dt, today};

fn d(y: i32, m: u32, day: u32) -> Date {
    Date::from_ymd(y, m, day).unwrap()
}

fn dt(raw: &str) -> DateTime {
    parse_dt(raw).unwrap()
}

#[test]
fn search_is_unicode_case_insensitive() {
    let event = Event::new(
        "Reunião de equipe",
        parse_dt("2026-09-10T10:00").unwrap(),
        None,
    );
    assert!(event_matches(&event, &"REUNIÃO".to_lowercase()));
    assert!(event_matches(&event, &"equipe".to_lowercase()));
    assert!(!event_matches(&event, &"dentista".to_lowercase()));
}

#[test]
fn ls_lines_are_numbered_with_and_without_uid() {
    let mut event = Event::new("Dentist", parse_dt("2026-09-10T10:00").unwrap(), None);
    event.uid = "abc".into();
    assert_eq!(
        event_line(&event, 1, false, true),
        "  1  2026-09-10 10:00  Dentist"
    );
    assert_eq!(
        event_line(&event, 12, true, true),
        " 12  2026-09-10 10:00  Dentist  [abc]"
    );
    assert_eq!(
        event_line(&event, 1, false, false),
        "2026-09-10 10:00  Dentist"
    );
}

#[test]
fn positional_dates_parse_or_fail_clearly() {
    assert_eq!(parse_cli_day(Some("2026-10-01"), today()).unwrap(), d(2026, 10, 1));
    assert!(parse_cli_day(Some("2026-10"), today()).is_err());
    assert!(parse_cli_day(Some("bogus"), today()).is_err());
    assert_eq!(parse_cli_day(None, today()).unwrap(), today());

    assert_eq!(parse_cli_month(Some("2026-10"), today()).unwrap(), d(2026, 10, 1));
    assert_eq!(
        parse_cli_month(Some("2026-10-15"), today()).unwrap(),
        d(2026, 10, 15)
    );
    let err = parse_cli_month(Some("10/2026"), today()).unwrap_err().to_string();
    assert!(err.contains("use YYYY-MM or YYYY-MM-DD"), "{err}");
}

#[test]
fn week_start_parses_and_prints() {
    assert_eq!(parse_week_start("Sunday").unwrap(), WeekStart::Sunday);
    assert_eq!(parse_week_start("mon").unwrap(), WeekStart::Monday);
    assert!(parse_week_start("friday").is_err());
    assert_eq!(week_start_name(WeekStart::Sunday), "sunday");
}

#[test]
fn grouped_lines_show_all_day_and_tasks() {
    let timed = DayItem::Event(Event::new(
        "Standup",
        parse_dt("2026-09-10T09:30").unwrap(),
        None,
    ));
    let all_day = DayItem::Event(Event::new("Holiday", parse_dt("2026-09-10").unwrap(), None));
    let task = DayItem::Task(TaskDue {
        text: "pay bill".into(),
        due: d(2026, 9, 10),
        source: "tasks/a.md".into(),
    });
    assert_eq!(day_item_line(&timed), "09:30  Standup");
    assert_eq!(day_item_line(&all_day), "all-day  Holiday");
    assert_eq!(day_item_line(&task), "[ ] pay bill");
}

#[test]
fn settings_words_parse_or_explain() {
    for word in ["true", " YES ", "1", "On"] {
        assert_eq!(parse_bool(word), Ok(true), "{word}");
    }
    for word in ["false", "No", "0", "off"] {
        assert_eq!(parse_bool(word), Ok(false), "{word}");
    }
    assert_eq!(parse_bool("maybe"), Err("invalid BOOL 'maybe': use true or false".to_string()));
    assert_eq!(parse_week_start(" SUN "), Ok(WeekStart::Sunday));
    assert_eq!(parse_week_start("x"), Err("invalid DAY 'x': use monday or sunday".to_string()));
    assert_eq!(parse_minutes(" 30 "), Ok(30));
    assert_eq!(parse_minutes("+5"), Ok(5));
    assert_eq!(parse_minutes("0"), Err("invalid MIN '0': use a positive number of minutes".to_string()));
    assert!(parse_minutes("4294967296").is_err());
    assert!(parse_minutes("-1").is_err());
    assert_eq!(week_start_name(WeekStart::Monday), "monday");
}

#[test]
fn ids_resolve_to_uids_or_explain() {
    let mut a = Event::new("First", dt("2026-09-10T10:00"), None);
    a.uid = "one".into();
    let events = vec![a];
    assert_eq!(resolve_id(&events, "1"), Ok("one".to_string()));
    assert_eq!(resolve_id(&events, "0"), Err("list index is 1-based, not 0".to_string()));
    assert_eq!(resolve_id(&events, "7"), Err("no event at index 7 (have 1)".to_string()));
    assert_eq!(resolve_id(&events, "abc@x"), Ok("abc@x".to_string()));
}

#[test]
fn remove_by_id_reports_unknown_ids() {
    let mut store = CalStore::empty("cal.ics".into());
    store.add(Event::new("Only", dt("2026-09-10T10:00"), None));
    let uid = store.events[0].uid.clone();
    assert_eq!(
        remove_by_id(&mut store, "missing@optioncalendar"),
        Err("no event with id 'missing@optioncalendar'".to_string())
    );
    assert_eq!(remove_by_id(&mut store, "1"), Ok(uid));
    assert!(store.events.is_empty());
}

#[test]
fn add_validates_summary_dates_and_order() {
    assert_eq!(check_add("  ", "2026-09-10", None).err(), Some("summary cannot be empty".to_string()));
    assert_eq!(
        check_add("Bad", "not-a-date", None).err(),
        Some("invalid date 'not-a-date': use YYYY-MM-DD or YYYY-MM-DDTHH:MM".to_string())
    );
    assert_eq!(
        check_add("Backwards", "2026-09-10T10:00", Some("2026-09-10T09:00")).err(),
        Some("end (2026-09-10 09:00) is before start (2026-09-10 10:00)".to_string())
    );
    let plan = check_add("Trip", "2026-09-10", Some("2026-09-12")).unwrap();
    assert!(plan.all_day);
    let event = build_added_event(" Trip ", Some(" beach "), &plan);
    assert!(event.all_day);
    assert_eq!(event.summary, "Trip");
    assert_eq!(event.description, "beach");
    assert_eq!(event.start, dt("2026-09-10T00:00"));
    assert_eq!(event.end, Some(dt("2026-09-13T00:00")));
    let timed = check_add("Call", "2026-09-10T09:00", None).unwrap();
    assert!(!timed.all_day);
    let call = build_added_event("Call", None, &timed);
    assert_eq!(call.start, dt("2026-09-10T09:00"));
    assert_eq!(call.end, None);
}

fn args() -> EditArgs {
    EditArgs { summary: None, at: None, end: None, description: None, clear_end: false, clear_description: false }
}

#[test]
fn edit_plans_changes_or_explains() {
    let mut event = Event::new("Dentist", dt("2030-09-10T10:00"), Some(dt("2030-09-10T11:00")));
    event.uid = "u1".into();
    let events = vec![event];
    assert!(plan_edit(&events, "1", &args()).unwrap_err().starts_with("nothing to change"));
    let mut bad_end = args();
    bad_end.end = Some("2030-09-09T10:00".into());
    assert!(plan_edit(&events, "1", &bad_end).unwrap_err().contains("is before start"));
    let mut unknown = args();
    unknown.summary = Some("X".into());
    assert_eq!(
        plan_edit(&events, "does-not-exist", &unknown).unwrap_err(),
        "no event with id 'does-not-exist'"
    );
    assert_eq!(plan_edit(&events, "5", &unknown).unwrap_err(), "no event at index 5 (have 1)");
    let mut moved = args();
    moved.summary = Some(" Dentist (moved) ".into());
    moved.at = Some("2030-09-11T11:00".into());
    moved.end = Some("2030-09-11T12:00".into());
    let (uid, edit) = plan_edit(&events, "1", &moved).unwrap();
    assert_eq!(uid, "u1");
    assert_eq!(edit.summary.as_deref(), Some("Dentist (moved)"));
    assert_eq!(edit.all_day, Some(false));
    assert_eq!(edit.start, dt("2030-09-11T11:00"));
    assert_eq!(edit.end, Some(dt("2030-09-11T12:00")));
    let mut clear = args();
    clear.clear_end = true;
    clear.clear_description = true;
    let (_, edit) = plan_edit(&events, "u1", &clear).unwrap();
    assert_eq!(edit.end, None);
    assert_eq!(edit.start, dt("2030-09-10T10:00"));
    assert!(edit.clear_description);
}

#[test]
fn next_event_is_the_earliest_after_now() {
    let events = vec![
        Event::new("Past", dt("2000-01-01T10:00"), None),
        Event::new("Later", dt("2026-09-12T10:00"), None),
        Event::new("Sooner", dt("2026-09-11T10:00"), None),
    ];
    assert_eq!(next_event(&events, dt("2026-09-10T10:00")), Some(2));
    assert_eq!(next_event(&events, dt("2030-01-01T00:00")), None);
    assert_eq!(when_label(0), "today");
    assert_eq!(when_label(1), "tomorrow");
    assert_eq!(when_label(5), "in 5 days");
}

#[test]
fn notify_window_and_send_plan() {
    assert_eq!(notify_minutes(None, 15), Ok(15));
    assert_eq!(notify_minutes(Some(5), 15), Ok(5));
    assert_eq!(notify_minutes(Some(0), 15), Err("invalid MIN '0': use a positive number of minutes".to_string()));
    let a = Event::new("A", dt("2026-09-16T10:05"), None);
    let mut b = Event::new("B", dt("2026-09-16T10:10"), None);
    b.description = "bring notes".into();
    let due = vec![a.clone(), b.clone(), a.clone()];
    let sent = vec![notification_key(&b)];
    assert_eq!(to_send(&due, &sent), vec![0]);
    assert_eq!(notification_body(&a), "2026-09-16 10:05");
    assert_eq!(notification_body(&b), "2026-09-16 10:10  bring notes");
}

#[test]
fn day_views_render_lines() {
    let standup = Event::new("Standup", dt("2026-09-10T09:30"), None);
    let task = TaskDue { text: "pay bill".into(), due: d(2026, 9, 9), source: "tasks/a.md".into() };
    let items = vec![DayItem::Task(task.clone()), DayItem::Event(standup.clone())];
    let lines = grouped_lines(&items);
    assert_eq!(lines.len(), 4);
    assert!(lines[0].starts_with("  Wed 2026-09-09"));
    assert_eq!(lines[1], "    [ ] pay bill");
    assert!(lines[2].starts_with("  Thu 2026-09-10"));
    assert_eq!(lines[3], "    09:30  Standup");
    assert_eq!(grouped_lines(&Vec::new()), vec!["  (empty)".to_string()]);
    assert_eq!(month_header(d(2026, 9, 1), &items), "2026-09 · 1 event, 1 task");
    assert_eq!(month_header(d(2026, 9, 1), &Vec::new()), "2026-09 · 0 events");
    assert_eq!(today_line(&DayItem::Event(standup)), "  2026-09-10 09:30  Standup");
    assert_eq!(today_line(&DayItem::Task(task)), "  [ ] pay bill  (due 2026-09-09, tasks/a.md)");
    assert_eq!(fmt_dt(&dt("2026-09-10T00:00")), "2026-09-10");
    assert_eq!(fmt_time(&dt("2026-09-10T08:05")), "08:05");
    assert_eq!(plural(1), "");
    assert_eq!(plural(2), "s");
}

#[test]
fn search_refuses_blank_queries() {
    let mut meeting = Event::new("Meeting", dt("2026-09-11T10:00"), None);
    meeting.description = "Quarterly Budget review".into();
    let events = vec![Event::new("Dentist", dt("2026-09-10T10:00"), None), meeting];
    assert_eq!(search_events(&events, "   ").unwrap_err(), "search query cannot be empty");
    assert_eq!(search_events(&events, "DENTIST").unwrap().len(), 1);
    assert_eq!(search_events(&events, " budget ").unwrap()[0].summary, "Meeting");
    assert!(search_events(&events, "nothing-here").unwrap().is_empty());
}

#[test]
fn config_flags_apply_in_order() {
    let settings = Settings::with_path("/tmp/cal.ics".into());
    assert_eq!(apply_config(&settings, None, None, None), Ok(None));
    let updated = apply_config(&settings, Some("true"), Some("sunday"), Some("20")).unwrap().unwrap();
    assert!(updated.launch_tui_on_no_args);
    assert_eq!(updated.week_start, WeekStart::Sunday);
    assert_eq!(updated.notify_window_minutes, 20);
    assert_eq!(updated.ics_path, "/tmp/cal.ics");
    assert_eq!(
        apply_config(&settings, Some("maybe"), Some("x"), None),
        Err("invalid BOOL 'maybe': use true or false".to_string())
    );
}
