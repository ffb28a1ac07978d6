use optioncalendar::date::{Date, DateTime};
use optioncalendar::ics::{escape_chars, unescape_chars};
use optioncalendar::{Error, Event, is_date_only, parse_dt, parse_ics, to_ics};

const SAMPLE: &str = "BEGIN:VCALENDAR\r\nVERSION:2.0\r\nBEGIN:VEVENT\r\nUID:abc-1\r\nDTSTART:20260904T100000\r\nDTEND:20260904T110000\r\nSUMMARY:Standup\r\nDESCRIPTION:team\\, daily\r\nEND:VEVENT\r\nBEGIN:VEVENT\r\nUID:abc-2\r\nDTSTART:20260905\r\nSUMMARY:Holiday\r\nEND:VEVENT\r\nEND:VCALENDAR\r\n";

const RICH: &str = "BEGIN:VCALENDAR\r\nVERSION:2.0\r\nBEGIN:VEVENT\r\nUID:rich-1\r\nDTSTART;TZID=America/Sao_Paulo:20260904T100000\r\nDTEND;TZID=America/Sao_Paulo:20260904T110000\r\nSUMMARY:Standup\r\nLOCATION:Room 1\r\nRRULE:FREQ=WEEKLY;COUNT=4\r\nX-FOO;X-BAR=1:baz\r\nBEGIN:VALARM\r\nTRIGGER:-PT10M\r\nACTION:DISPLAY\r\nDESCRIPTION:Reminder\r\nEND:VALARM\r\nEND:VEVENT\r\nEND:VCALENDAR\r\n";

fn dt(raw: &str) -> DateTime {
    parse_dt(raw).unwrap()
}

fn to_chrono(value: DateTime) -> chrono::NaiveDateTime {
    let date = chrono::NaiveDate::from_num_days_from_ce_opt(value.date().days()).unwrap();
    let time = chrono::NaiveTime::from_num_seconds_from_midnight_opt(value.secs(), value.frac()).unwrap();
    date.and_time(time)
}

#[test]
fn parses_uid_start_end_summary_description() {
    let events = parse_ics(SAMPLE);
    assert_eq!(events.len(), 2);
    assert_eq!(events[0].uid, "abc-1");
    assert_eq!(events[0].summary, "Standup");
    assert_eq!(events[0].description, "team, daily");
    assert_eq!(events[0].start, dt("2026-09-04T10:00:00"));
    assert_eq!(events[0].end, Some(dt("2026-09-04T11:00:00")));
    assert!(!events[0].all_day);
    // Date-only DTSTART becomes midnight and all-day.
    assert_eq!(events[1].start, dt("2026-09-05T00:00:00"));
    assert_eq!(events[1].end, None);
    assert!(events[1].all_day);
}

#[test]
fn roundtrip_serialize_parse() {
    let events = parse_ics(SAMPLE);
    let reparsed = parse_ics(&to_ics(&events));
    assert_eq!(events, reparsed);
}

#[test]
fn parse_dt_accepts_cli_shapes() {
    let midnight = parse_dt("2026-09-04").unwrap();
    assert_eq!(to_chrono(midnight).format("%H:%M").to_string(), "00:00");
    assert_eq!(
        parse_dt("2026-09-04T10:30").unwrap(),
        parse_dt("20260904T103000").unwrap()
    );
}

#[test]
fn skips_events_without_dtstart() {
    let text = "BEGIN:VEVENT\r\nUID:x\r\nSUMMARY:no date\r\nEND:VEVENT\r\n";
    assert!(parse_ics(text).is_empty());
}

#[test]
fn preserves_unknown_props_nested_components_and_params() {
    let events = parse_ics(RICH);
    assert_eq!(events.len(), 1);
    let event = &events[0];
    assert_eq!(event.rrule.as_deref(), Some("FREQ=WEEKLY;COUNT=4"));
    assert_eq!(event.description, "");
    assert_eq!(
        event.extra,
        vec![
            ("LOCATION".to_string(), "Room 1".to_string()),
            ("X-FOO;X-BAR=1".to_string(), "baz".to_string()),
            ("BEGIN".to_string(), "VALARM".to_string()),
            ("TRIGGER".to_string(), "-PT10M".to_string()),
            ("ACTION".to_string(), "DISPLAY".to_string()),
            ("DESCRIPTION".to_string(), "Reminder".to_string()),
            ("END".to_string(), "VALARM".to_string()),
        ]
    );

    let text = to_ics(&events);
    for line in [
        "DTSTART;TZID=America/Sao_Paulo:20260904T100000\r\n",
        "DTEND;TZID=America/Sao_Paulo:20260904T110000\r\n",
        "LOCATION:Room 1\r\n",
        "RRULE:FREQ=WEEKLY;COUNT=4\r\n",
        "X-FOO;X-BAR=1:baz\r\n",
        "BEGIN:VALARM\r\nTRIGGER:-PT10M\r\nACTION:DISPLAY\r\nDESCRIPTION:Reminder\r\nEND:VALARM\r\n",
    ] {
        assert!(text.contains(line), "missing {line:?} in {text}");
    }
    assert_eq!(parse_ics(&text), events);
}

#[test]
fn modified_start_drops_stale_raw_params() {
    let mut events = parse_ics(RICH);
    events[0].start = dt("2026-09-05T10:00:00");
    let text = to_ics(&events);
    assert!(text.contains("DTSTART:20260905T100000\r\n"));
    assert!(text.contains("DTEND;TZID=America/Sao_Paulo:20260904T110000\r\n"));
}

#[test]
fn all_day_dtend_is_exclusive_and_roundtrips() {
    let text = "BEGIN:VEVENT\r\nUID:d\r\nDTSTART;VALUE=DATE:20260910\r\nDTEND;VALUE=DATE:20260911\r\nSUMMARY:Day off\r\nEND:VEVENT\r\n";
    let events = parse_ics(text);
    let event = &events[0];
    assert!(event.all_day);
    assert_eq!(event.end_or_start().date(), event.start.date());
    let out = to_ics(&events);
    assert!(out.contains("DTSTART;VALUE=DATE:20260910\r\n"));
    assert!(out.contains("DTEND;VALUE=DATE:20260911\r\n"));
    assert_eq!(parse_ics(&out), events);
}

#[test]
fn new_all_day_event_serializes_as_dates() {
    let event = Event::new_all_day(
        "Trip",
        dt("2026-09-10T00:00:00").date(),
        Some(dt("2026-09-12T00:00:00").date()),
    );
    assert!(event.all_day);
    // Inclusive CLI end becomes exclusive ICS DTEND.
    assert_eq!(event.end, Some(dt("2026-09-13T00:00:00")));
    assert_eq!(event.end_or_start(), dt("2026-09-12T00:00:00"));
    let out = to_ics(&vec![event.clone()]);
    assert!(out.contains("DTSTART;VALUE=DATE:20260910\r\n"));
    assert!(out.contains("DTEND;VALUE=DATE:20260913\r\n"));
    let reparsed = parse_ics(&out);
    assert!(reparsed[0].all_day);
    assert_eq!(reparsed[0].end, event.end);

    let timed = Event::new("Call", dt("2026-09-10T09:00:00"), None);
    assert!(!timed.all_day);
    assert!(to_ics(&vec![timed]).contains("DTSTART:20260910T090000\r\n"));

    let midnight = Event::new(
        "Maintenance",
        dt("2026-09-10T00:00:00"),
        Some(dt("2026-09-11T00:00:00")),
    );
    assert!(!midnight.all_day);
    assert_eq!(midnight.end, Some(dt("2026-09-11T00:00:00")));
    assert!(to_ics(&vec![midnight]).contains("DTEND:20260911T000000\r\n"));
}

#[test]
fn unparseable_dtend_is_kept_verbatim() {
    let ics = "BEGIN:VCALENDAR\r\nBEGIN:VEVENT\r\nUID:x\r\nDTSTART:20260910T100000\r\nDTEND;TZID=Mars/Olympus:garbage\r\nSUMMARY:S\r\nEND:VEVENT\r\nEND:VCALENDAR\r\n";
    let events = parse_ics(ics);
    assert_eq!(events[0].end, None);
    assert!(to_ics(&events).contains("DTEND;TZID=Mars/Olympus:garbage\r\n"));
}

#[test]
fn parse_dt_rejects_garbage_with_invalid_date_error() {
    match parse_dt("not-a-date") {
        Err(Error::InvalidDate(raw)) => assert_eq!(raw, "not-a-date"),
        other => panic!("unexpected {other:?}"),
    }
    let message = Error::InvalidDate("x".to_string()).message();
    assert_eq!(message, "invalid date 'x': use YYYY-MM-DD or YYYY-MM-DDTHH:MM");
    assert_eq!(Error::Config("bad".to_string()).message(), "config error: bad");
    assert_eq!(Error::Io("gone".to_string()).message(), "io error: gone");
    assert_eq!(Error::InvalidEvent("e".to_string()).message(), "invalid event: e");
}

#[test]
fn parse_dt_accepts_every_listed_shape() {
    let expected = dt("2026-09-04T10:30:00");
    for raw in [
        "20260904T103000",
        "20260904T1030",
        "2026-09-04T10:30:00",
        "2026-09-04T10:30",
        "2026-09-04 10:30",
        " 20260904T103000Z ",
    ] {
        assert_eq!(parse_dt(raw).unwrap(), expected, "{raw}");
    }
    assert_eq!(parse_dt("20260904").unwrap(), dt("2026-09-04T00:00"));
}

#[test]
fn date_only_values_are_recognised() {
    assert!(is_date_only("2026-09-04"));
    assert!(is_date_only(" 20260904 "));
    assert!(!is_date_only("2026-09-04T10:00"));
    assert!(!is_date_only("2026-09-04 10:00"));
}

#[test]
fn escaping_text_roundtrips_without_backslashes() {
    let text: Vec<char> = "a, b; c\nd".chars().collect();
    let escaped = escape_chars(&text);
    assert_eq!(escaped.iter().collect::<String>(), "a\\, b\\; c\\nd");
    assert_eq!(unescape_chars(&escaped), text);
}

#[test]
fn summary_with_comma_roundtrips_through_the_file() {
    let event = Event::new("Lunch, team; all", dt("2026-09-10T12:00"), None);
    let text = to_ics(&vec![event.clone()]);
    assert!(text.contains("SUMMARY:Lunch\\, team\\; all\r\n"));
    let back = parse_ics(&text);
    assert_eq!(back.len(), 1);
    assert_eq!(back[0].uid, event.uid);
    assert_eq!(back[0].summary, event.summary);
    assert_eq!(back[0].start, event.start);
    assert_eq!(back[0].start_raw, Some(("DTSTART".to_string(), "20260910T120000".to_string())));
}

#[test]
fn generated_uids_carry_the_calendar_suffix() {
    let a = Event::new("Dentist", dt("2026-09-10T10:00"), None);
    assert!(a.uid.ends_with("@optioncalendar"));
    let b = Event::new_with_nanos("Dentist", dt("2026-09-10T10:00"), None, 7);
    let c = Event::new_with_nanos("Dentist", dt("2026-09-10T10:00"), None, 7);
    assert_eq!(b.uid, c.uid);
    let d = Event::new_with_nanos("Dentist", dt("2026-09-10T10:00"), None, 8);
    assert_ne!(b.uid, d.uid);
}

#[test]
fn dates_convert_to_and_from_calendar_fields() {
    let d = Date::from_ymd(2026, 9, 4).unwrap();
    assert_eq!(d.ymd(), (2026, 9, 4));
    assert!(Date::from_ymd(2026, 2, 30).is_none());
    let last = Date::from_ymd(262142, 12, 31).unwrap();
    assert_eq!(last.days(), optioncalendar::date::DATE_MAX_DAYS);
    let first = Date::from_ymd(-262143, 1, 1).unwrap();
    assert_eq!(first.days(), optioncalendar::date::DATE_MIN_DAYS);
    assert!(last.checked_add_days(1).is_none());
    assert_eq!(d.checked_add_days(-3).unwrap(), Date::from_ymd(2026, 9, 1).unwrap());
}

#[test]
fn backslash_before_n_survives_a_save_and_reload() {
    let text: Vec<char> = "C:\\notes\\N and \\\\ too".chars().collect();
    let escaped = escape_chars(&text);
    assert_eq!(unescape_chars(&escaped), text);

    let event = Event::new("C:\\notes", dt("2026-09-10T12:00"), None);
    let back = parse_ics(&to_ics(&vec![event.clone()]));
    assert_eq!(back.len(), 1);
    assert_eq!(back[0].summary, "C:\\notes");
}

#[test]
fn unescaping_reads_left_to_right() {
    let raw: Vec<char> = "a\\\\nb\\Nc\\xd\\".chars().collect();
    let out: String = unescape_chars(&raw).iter().collect();
    assert_eq!(out, "a\\nb\nc\\xd\\");
}

#[test]
fn new_events_read_back_and_save_the_same_again() {
    let timed = Event::new("Standup", dt("2026-09-10T09:30"), Some(dt("2026-09-10T10:00")));
    let all_day = Event::new_all_day("Holiday", Date::from_ymd(2026, 9, 11).unwrap(), None);
    let first = to_ics(&vec![timed.clone(), all_day.clone()]);
    let back = parse_ics(&first);
    assert_eq!(back.len(), 2);
    assert_eq!(back[0].start, timed.start);
    assert_eq!(back[0].end, timed.end);
    assert_eq!(back[0].start_raw, Some(("DTSTART".to_string(), "20260910T093000".to_string())));
    assert_eq!(back[0].end_raw, Some(("DTEND".to_string(), "20260910T100000".to_string())));
    assert!(back[1].all_day);
    assert_eq!(back[1].start, all_day.start);
    assert_eq!(back[1].start_raw, Some(("DTSTART;VALUE=DATE".to_string(), "20260911".to_string())));
    assert_eq!(to_ics(&back), first);
    assert_eq!(parse_ics(&to_ics(&back)), back);
}

#[test]
fn listed_end_is_the_inclusive_last_day_of_all_day_events() {
    let trip = Event::new_all_day(
        "Trip",
        Date::from_ymd(2030, 9, 1).unwrap(),
        Some(Date::from_ymd(2030, 9, 3).unwrap()),
    );
    assert_eq!(trip.end, Some(dt("2030-09-04")));
    assert_eq!(trip.listed_end(), Some(dt("2030-09-03")));
    let timed = Event::new("Call", dt("2030-09-10T10:00"), Some(dt("2030-09-10T11:00")));
    assert_eq!(timed.listed_end(), Some(dt("2030-09-10T11:00")));
    let open = Event::new("Dentist", dt("2030-09-10T10:00"), None);
    assert_eq!(open.listed_end(), None);
}
