use optioncalendar::date::Date;
use optioncalendar::WeekStart;

fn d(y: i32, m: u32, day: u32) -> Date {
    Date::from_ymd(y, m, day).unwrap()
}

#[test]
fn monday_start_week_begins_on_monday() {
    // 2026-09-08 is a Tuesday.
    let tue = d(2026, 9, 8);
    assert_eq!(WeekStart::Monday.start_of(tue), d(2026, 9, 7));
    // Sunday belongs to the previous Monday-start week.
    let sun = d(2026, 9, 13);
    assert_eq!(WeekStart::Monday.start_of(sun), d(2026, 9, 7));
}

#[test]
fn sunday_start_week_begins_on_sunday() {
    // 2026-09-08 (Tue) -> Sunday 2026-09-06.
    assert_eq!(WeekStart::Sunday.start_of(d(2026, 9, 8)), d(2026, 9, 6));
    // Sunday itself starts the week.
    assert_eq!(WeekStart::Sunday.start_of(d(2026, 9, 13)), d(2026, 9, 13));
}

#[test]
fn days_since_start_is_zero_on_first_day() {
    assert_eq!(WeekStart::Monday.days_since_start(d(2026, 9, 7)), 0);
    assert_eq!(WeekStart::Sunday.days_since_start(d(2026, 9, 6)), 0);
}

#[test]
fn week_start_defaults_to_monday() {
    assert_eq!(WeekStart::default(), WeekStart::Monday);
}

#[test]
fn every_day_of_a_week_shares_its_start() {
    for ws in [WeekStart::Monday, WeekStart::Sunday] {
        let start = ws.start_of(d(2026, 9, 10));
        assert_eq!(ws.days_since_start(start), 0);
        for k in 0..7 {
            let day = start.checked_add_days(k).unwrap();
            assert_eq!(ws.start_of(day), start);
            assert_eq!(ws.days_since_start(day), k);
        }
    }
}
