use optioncalendar::date::DateTime;
use optioncalendar::{CalStore, Event, EventEdit, Settings, WeekStart, parse_dt};

fn parse_dt_for_test(raw: &str) -> DateTime {
    parse_dt(raw).unwrap()
}

/// The store as it comes back after being written and read again.
fn reload(store: &CalStore) -> CalStore {
    CalStore::from_text(store.path.clone(), &store.to_text())
}

#[test]
fn open_missing_file_starts_empty() {
    let store = CalStore::empty("cal.ics".to_string());
    assert!(store.events.is_empty());
}

#[test]
fn add_persists_and_reloads() {
    let mut store = CalStore::empty("cal.ics".to_string());
    let event = Event::new("Dentist", parse_dt_for_test("2026-09-04T10:00"), None);
    store.add(event.clone());
    let reloaded = reload(&store);
    assert_eq!(reloaded.events.len(), 1);
    assert_eq!(reloaded.events[0].summary, "Dentist");
    assert_eq!(reloaded.events[0].start, event.start);
}

#[test]
fn import_skips_duplicate_uids() {
    let mut store = CalStore::empty("cal.ics".to_string());
    let text = "BEGIN:VCALENDAR\r\nBEGIN:VEVENT\r\nUID:dup\r\nDTSTART:20260904T100000\r\nSUMMARY:A\r\nEND:VEVENT\r\nEND:VCALENDAR\r\n";
    assert_eq!(store.import(text), 1);
    assert_eq!(store.import(text), 0);
    assert_eq!(store.events.len(), 1);
}

#[test]
fn import_then_add_keeps_foreign_props() {
    let mut store = CalStore::empty("cal.ics".to_string());
    let text = "BEGIN:VCALENDAR\r\nBEGIN:VEVENT\r\nUID:rich\r\nDTSTART;TZID=America/Sao_Paulo:20260904T100000\r\nDTEND;TZID=America/Sao_Paulo:20260904T110000\r\nSUMMARY:Standup\r\nLOCATION:Room 1\r\nRRULE:FREQ=WEEKLY;COUNT=4\r\nX-FOO:bar\r\nBEGIN:VALARM\r\nTRIGGER:-PT10M\r\nACTION:DISPLAY\r\nEND:VALARM\r\nEND:VEVENT\r\nEND:VCALENDAR\r\n";
    assert_eq!(store.import(text), 1);
    store.add(Event::new(
        "Dentist",
        parse_dt_for_test("2026-09-05T10:00"),
        None,
    ));

    let raw = store.to_text();
    for line in [
        "DTSTART;TZID=America/Sao_Paulo:20260904T100000\r\n",
        "DTEND;TZID=America/Sao_Paulo:20260904T110000\r\n",
        "LOCATION:Room 1\r\n",
        "RRULE:FREQ=WEEKLY;COUNT=4\r\n",
        "X-FOO:bar\r\n",
        "BEGIN:VALARM\r\nTRIGGER:-PT10M\r\nACTION:DISPLAY\r\nEND:VALARM\r\n",
    ] {
        assert!(raw.contains(line), "missing {line:?} in {raw}");
    }
    let reloaded = reload(&store);
    assert_eq!(reloaded.events.len(), 2);
    let rich = reloaded.events.iter().find(|e| e.uid == "rich").unwrap();
    assert_eq!(rich, &store.events[0]);
    assert_eq!(rich.rrule.as_deref(), Some("FREQ=WEEKLY;COUNT=4"));
    assert_eq!(rich.extra.len(), 6);
}

#[test]
fn remove_deletes_by_uid_and_persists() {
    let mut store = CalStore::empty("cal.ics".to_string());
    let event = Event::new("Dentist", parse_dt_for_test("2026-09-04T10:00"), None);
    let uid = event.uid.clone();
    store.add(event);
    assert!(!store.remove("missing-uid"));
    assert!(store.remove(&uid));
    assert!(store.events.is_empty());
    assert!(reload(&store).events.is_empty());
}

#[test]
fn added_events_are_kept_in_start_order() {
    let mut store = CalStore::empty("cal.ics".to_string());
    store.add(Event::new("Late", parse_dt_for_test("2026-09-06T10:00"), None));
    store.add(Event::new("Early", parse_dt_for_test("2026-09-04T10:00"), None));
    store.add(Event::new("Middle", parse_dt_for_test("2026-09-05T10:00"), None));
    let names: Vec<&str> = store.events.iter().map(|e| e.summary.as_str()).collect();
    assert_eq!(names, ["Early", "Middle", "Late"]);
}

#[test]
fn import_of_events_without_uid_adds_each() {
    let mut store = CalStore::empty("cal.ics".to_string());
    let text = "BEGIN:VEVENT\r\nDTSTART:20260904T100000\r\nSUMMARY:A\r\nEND:VEVENT\r\nBEGIN:VEVENT\r\nDTSTART:20260904T110000\r\nSUMMARY:B\r\nEND:VEVENT\r\n";
    assert_eq!(store.import(text), 2);
    assert_eq!(store.import(text), 2);
    assert_eq!(store.events.len(), 4);
}

#[test]
fn update_changes_fields_and_keeps_uid() {
    let mut store = CalStore::empty("cal.ics".to_string());
    let event = Event::new("Dentist", parse_dt_for_test("2026-09-10T10:00"), None);
    let uid = event.uid.clone();
    store.add(event);
    let edit = EventEdit {
        summary: Some("Dentist (moved)".to_string()),
        all_day: Some(false),
        start: parse_dt_for_test("2026-09-11T11:00"),
        end: Some(parse_dt_for_test("2026-09-11T12:00")),
        clear_description: false,
        description: Some("cleaning".to_string()),
    };
    assert!(store.update(&uid, &edit));
    assert_eq!(store.events[0].uid, uid);
    assert_eq!(store.events[0].summary, "Dentist (moved)");
    assert_eq!(store.events[0].start, parse_dt_for_test("2026-09-11T11:00"));
    assert_eq!(store.events[0].end, Some(parse_dt_for_test("2026-09-11T12:00")));
    assert_eq!(store.events[0].description, "cleaning");
    assert!(!store.update("nope", &edit));
}

#[test]
fn settings_default_to_monday_weeks_and_a_quarter_hour_window() {
    let settings = Settings::with_path("/tmp/cal.ics".to_string());
    assert_eq!(settings.ics_path, "/tmp/cal.ics");
    assert!(!settings.launch_tui_on_no_args);
    assert_eq!(settings.week_start, WeekStart::Monday);
    assert_eq!(settings.notify_window_minutes, 15);
}
