use optioncalendar::date::{Date, DateTime};
use optioncalendar::{
    DEFAULT_LATE, Event, due_events, events_between, notification_key, notified_text, parse_dt, parse_notified,
    try_due_events,
};

fn dt(raw: &str) -> DateTime {
    parse_dt(raw).unwrap()
}

fn day(raw: &str) -> Date {
    parse_dt(raw).unwrap().date()
}

const MINUTE: i64 = 60;

#[test]
fn due_events_respects_window_and_late() {
    let now = dt("2026-09-16T10:00");
    let window = 15 * MINUTE;
    let events = vec![
        Event::new("Started", dt("2026-09-16T09:55"), None), // within late
        Event::new("Soon", dt("2026-09-16T10:10"), None),
        Event::new("Edge", dt("2026-09-16T10:15"), None), // boundary is due
        Event::new("Late", dt("2026-09-16T10:16"), None),
        Event::new("Old", dt("2026-09-16T09:00"), None), // beyond late
    ];
    let due = due_events(&events, now, window, DEFAULT_LATE);
    let names: Vec<&str> = due.iter().map(|e| e.summary.as_str()).collect();
    assert_eq!(names, ["Started", "Soon", "Edge"]);
}

#[test]
fn due_events_skips_all_day() {
    let now = dt("2026-09-16T10:00");
    let mut holiday = Event::new("Holiday", dt("2026-09-16T10:05"), None);
    holiday.all_day = true;
    assert!(due_events(&vec![holiday], now, 15 * MINUTE, DEFAULT_LATE).is_empty());
}

#[test]
fn recurring_occurrence_is_due_with_shifted_start() {
    let mut meds = Event::new("Meds", dt("2026-09-14T08:00"), None);
    meds.rrule = Some("FREQ=DAILY".into());
    let uid = meds.uid.clone();
    let due = due_events(
        &vec![meds],
        dt("2026-09-16T07:55"),
        10 * MINUTE,
        DEFAULT_LATE,
    );
    assert_eq!(due.len(), 1);
    assert_eq!(due[0].start, dt("2026-09-16T08:00"));
    assert_eq!(due[0].uid, uid);
}

#[test]
fn notification_key_distinguishes_occurrences() {
    let mut meds = Event::new("Meds", dt("2026-09-14T08:00"), None);
    meds.rrule = Some("FREQ=DAILY".into());
    let occurrences = events_between(&vec![meds], day("2026-09-14"), day("2026-09-16"));
    let mut keys: Vec<String> = occurrences.iter().map(notification_key).collect();
    keys.sort();
    keys.dedup();
    assert_eq!(occurrences.len(), 3);
    assert_eq!(keys.len(), 3);
    assert!(keys.contains(&format!("{}\t20260915T080000", occurrences[0].uid)));
}

#[test]
fn notified_state_roundtrips_prunes_and_tolerates_garbage() {
    // A missing state file reads as empty text.
    assert!(parse_notified("").is_empty());

    let keys = vec![
        "a\t20260916T100000".to_string(),
        "old\t20260910T100000".to_string(),
        "garbage".to_string(),
    ];
    let raw = notified_text(&keys, dt("2026-09-16T12:00")).unwrap();

    let loaded = parse_notified(&raw);
    assert!(loaded.contains(&"a\t20260916T100000".to_string()));
    assert!(!loaded.iter().any(|k| k.starts_with("old\t")));
    assert!(!loaded.contains(&"garbage".to_string()));

    let mut lines: Vec<&str> = raw.lines().collect();
    lines.sort_unstable();
    assert_eq!(raw.lines().collect::<Vec<_>>(), lines); // written sorted
}

#[test]
fn state_text_is_sorted_one_key_per_line() {
    let keys = vec![
        "b\t20260916T090000".to_string(),
        "a\t20260916T100000".to_string(),
        "c\t20260915T100000".to_string(),
    ];
    let raw = notified_text(&keys, dt("2026-09-16T12:00")).unwrap();
    assert_eq!(raw, "a\t20260916T100000\nb\t20260916T090000\nc\t20260915T100000\n");
}

#[test]
fn state_lines_are_trimmed_and_blank_lines_dropped() {
    let loaded = parse_notified("  a\t20260916T100000  \r\n\n\t\nb\n");
    assert_eq!(loaded, vec!["a\t20260916T100000".to_string(), "b".to_string()]);
}

#[test]
fn window_outside_the_calendar_range_yields_none() {
    let events: Vec<Event> = Vec::new();
    let now = dt("2026-09-16T10:00");
    assert!(try_due_events(&events, now, i64::MAX, DEFAULT_LATE).is_none());
    assert!(try_due_events(&events, now, 15 * MINUTE, i64::MIN).is_none());
    assert_eq!(try_due_events(&events, now, 15 * MINUTE, DEFAULT_LATE), Some(Vec::new()));
}

#[test]
fn saved_state_reads_back_as_the_kept_keys_each_once() {
    let keys = vec![
        "b\t20260916T090000".to_string(),
        "a\t20260916T100000".to_string(),
        "b\t20260916T090000".to_string(),
        "old\t20260910T100000".to_string(),
    ];
    let raw = notified_text(&keys, dt("2026-09-16T12:00")).unwrap();
    assert_eq!(raw, "a\t20260916T100000\nb\t20260916T090000\n");
    assert_eq!(
        parse_notified(&raw),
        vec!["a\t20260916T100000".to_string(), "b\t20260916T090000".to_string()]
    );
}
