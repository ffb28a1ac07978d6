//! Calendar dates and wall-clock datetimes as plain values.
//!
//! A [`Date`] is its day number in the proleptic Gregorian calendar (day 1 is
//! 0001-01-01, the numbering chrono calls `num_days_from_ce`). A [`DateTime`]
//! is a date, the seconds since midnight, and the nanosecond fraction (which
//! reaches past one second only on a leap second, as in chrono).
//! What only chrono computes (calendar fields, parsing, formatting, shifting
//! by durations and months) goes through the trusted wrappers at the end.
use vstd::prelude::*;
use chrono::{Datelike, Timelike, NaiveDate, NaiveTime, NaiveDateTime, TimeDelta, Months};

verus! {

/// Day number of -262143-01-01, the earliest date chrono represents.
pub const DATE_MIN_DAYS: i32 = -95746129;

/// Day number of 262142-12-31, the latest date chrono represents.
pub const DATE_MAX_DAYS: i32 = 95745399;

pub const SECS_PER_DAY: u32 = 86400;

/// Nanosecond fractions at or above this value mark a leap second.
pub const LEAP_FRAC: u32 = 1_000_000_000;

pub const FRAC_LIMIT: u32 = 2_000_000_000;

pub open spec fn valid_day(n: int) -> bool {
    DATE_MIN_DAYS <= n <= DATE_MAX_DAYS
}

pub open spec fn valid_time(secs: int, frac: int) -> bool {
    &&& 0 <= secs < SECS_PER_DAY
    &&& 0 <= frac < FRAC_LIMIT
    &&& frac >= LEAP_FRAC ==> secs % 60 == 59
}

/// A calendar date.
#[derive(Debug, Clone, Copy, PartialEq, Eq, PartialOrd, Ord, Hash, Structural)]
pub struct Date {
    days: i32,
}

impl Date {
    #[verifier::type_invariant]
    spec fn inv(self) -> bool {
        valid_day(self.days as int)
    }
}

impl View for Date {
    type V = int;

    closed spec fn view(&self) -> int {
        self.days as int
    }
}

/// Two dates are the same value exactly when their day numbers agree.
pub broadcast proof fn lemma_date_view_eq(a: Date, b: Date)
    ensures
        #[trigger] a.view() == #[trigger] b.view() <==> a == b,
{
}

impl Date {
    /// The day number (1 is 0001-01-01).
    pub fn days(&self) -> (r: i32)
        ensures
            r == self@,
            valid_day(r as int),
    {
        proof {
            use_type_invariant(self);
        }
        self.days
    }

    /// The date with day number `days`, when chrono can represent it.
    pub fn from_days(days: i32) -> (r: Option<Date>)
        ensures
            r is Some <==> valid_day(days as int),
            r matches Some(d) ==> d@ == days,
    {
        if DATE_MIN_DAYS <= days && days <= DATE_MAX_DAYS {
            Some(Date { days })
        } else {
            None
        }
    }
}


impl Date {
    /// `self` moved by `n` days, when the result is still representable
    /// (chrono's `checked_add_signed` with a whole number of days).
    pub fn checked_add_days(&self, n: i64) -> (r: Option<Date>)
        ensures
            r is Some <==> valid_day(self@ + n),
            r matches Some(d) ==> d@ == self@ + n,
    {
        let days = self.days() as i64;
        if n < (DATE_MIN_DAYS as i64) - days || n > (DATE_MAX_DAYS as i64) - days {
            None
        } else {
            Date::from_days((days + n) as i32)
        }
    }

    /// Days from `other` to `self` (chrono's `self - other` in whole days).
    pub fn days_since(&self, other: &Date) -> (r: i64)
        ensures
            r == self@ - other@,
            DATE_MIN_DAYS - DATE_MAX_DAYS <= r <= DATE_MAX_DAYS - DATE_MIN_DAYS,
    {
        self.days() as i64 - other.days() as i64
    }

    pub fn is_before(&self, other: &Date) -> (r: bool)
        ensures
            r == (self@ < other@),
    {
        self.days() < other.days()
    }

    pub fn is_same(&self, other: &Date) -> (r: bool)
        ensures
            r == (self@ == other@),
            r == (*self == *other),
    {
        proof {
            lemma_date_view_eq(*self, *other);
        }
        self.days() == other.days()
    }

    /// The date `year-month-day`, when it is a calendar date chrono
    /// represents (chrono's `NaiveDate::from_ymd_opt`).
    pub fn from_ymd(year: i32, month: u32, day: u32) -> (r: Option<Date>)
        ensures
            r matches Some(d) ==> spec_date_from_ymd(year as int, month as int, day as int) == Some(
                d@,
            ),
            r is None ==> spec_date_from_ymd(year as int, month as int, day as int) is None,
    {
        chrono_from_ymd(year, month, day)
    }

    /// Year, month (1..=12) and day of month (1..=31).
    pub fn ymd(&self) -> (r: (i32, u32, u32))
        ensures
            (r.0 as int, r.1 as int, r.2 as int) == spec_date_ymd(self@),
            spec_date_from_ymd(r.0 as int, r.1 as int, r.2 as int) == Some(self@),
            1 <= r.1 <= 12,
            1 <= r.2 <= 31,
    {
        chrono_ymd(self)
    }

    /// Weekday numbered from Sunday (0) to Saturday (6): day 1 (0001-01-01)
    /// is a Monday, so this is the day number modulo 7.
    pub fn weekday_from_sunday(&self) -> (r: u32)
        ensures
            r == weekday_from_sunday(self@),
            r < 7,
    {
        let days = self.days();
        let m = days % 7;
        if m < 0 {
            (m + 7) as u32
        } else {
            m as u32
        }
    }
}

pub open spec fn weekday_from_sunday(days: int) -> int {
    days % 7
}

pub open spec fn dt_lt(a: (int, int, int), b: (int, int, int)) -> bool {
    ||| a.0 < b.0
    ||| a.0 == b.0 && a.1 < b.1
    ||| a.0 == b.0 && a.1 == b.1 && a.2 < b.2
}

pub open spec fn dt_le(a: (int, int, int), b: (int, int, int)) -> bool {
    dt_lt(a, b) || a == b
}

/// A wall-clock datetime (no time zone), ordered like chrono's `NaiveDateTime`.
#[derive(Debug, Clone, Copy, PartialEq, Eq, PartialOrd, Ord, Hash, Structural)]
pub struct DateTime {
    date: Date,
    secs: u32,
    frac: u32,
}

impl DateTime {
    #[verifier::type_invariant]
    spec fn inv(self) -> bool {
        valid_time(self.secs as int, self.frac as int)
    }
}

impl View for DateTime {
    type V = (int, int, int);

    closed spec fn view(&self) -> (int, int, int) {
        (self.date@, self.secs as int, self.frac as int)
    }
}

/// Two datetimes are the same value exactly when their views agree.
pub broadcast proof fn lemma_datetime_view_eq(a: DateTime, b: DateTime)
    ensures
        #[trigger] a.view() == #[trigger] b.view() <==> a == b,
{
    lemma_date_view_eq(a.date, b.date);
}

impl DateTime {
    /// The calendar date (chrono's `.date()`).
    pub fn date(&self) -> (r: Date)
        ensures
            r@ == self@.0,
    {
        self.date
    }

    /// Seconds since midnight.
    pub fn secs(&self) -> (r: u32)
        ensures
            r == self@.1,
            valid_time(self@.1, self@.2),
    {
        proof {
            use_type_invariant(self);
        }
        self.secs
    }

    /// Nanoseconds past the second (at least one second on a leap second).
    pub fn frac(&self) -> (r: u32)
        ensures
            r == self@.2,
            valid_time(self@.1, self@.2),
    {
        proof {
            use_type_invariant(self);
        }
        self.frac
    }

    /// The datetime with the given parts, when they form a valid time of day.
    pub fn from_parts(date: Date, secs: u32, frac: u32) -> (r: Option<DateTime>)
        ensures
            r is Some <==> valid_time(secs as int, frac as int),
            r matches Some(dt) ==> dt@ == (date@, secs as int, frac as int),
    {
        if secs < SECS_PER_DAY && frac < FRAC_LIMIT && (frac < LEAP_FRAC || secs % 60 == 59) {
            Some(DateTime { date, secs, frac })
        } else {
            None
        }
    }

    /// Midnight at the start of `date` (chrono's `and_time(NaiveTime::MIN)`).
    pub fn midnight(date: Date) -> (r: DateTime)
        ensures
            r@ == (date@, 0int, 0int),
    {
        DateTime { date, secs: 0, frac: 0 }
    }

    pub fn is_before(&self, other: &DateTime) -> (r: bool)
        ensures
            r == dt_lt(self@, other@),
    {
        let (a, b) = (self.date().days(), other.date().days());
        a < b || (a == b && (self.secs() < other.secs() || (self.secs() == other.secs()
            && self.frac() < other.frac())))
    }

    pub fn is_same(&self, other: &DateTime) -> (r: bool)
        ensures
            r == (self@ == other@),
            r == (*self == *other),
    {
        proof {
            lemma_datetime_view_eq(*self, *other);
        }
        self.date().days() == other.date().days() && self.secs() == other.secs() && self.frac()
            == other.frac()
    }
}


/// A leap year of the proleptic Gregorian calendar (year 0 is one).
pub open spec fn is_leap_year(year: int) -> bool {
    (year % 4 == 0 && year % 100 != 0) || year % 400 == 0
}

/// The number of days of `month` in `year`.
pub open spec fn days_in_month(year: int, month: int) -> int {
    if month == 2 {
        if is_leap_year(year) {
            29
        } else {
            28
        }
    } else if month == 4 || month == 6 || month == 9 || month == 11 {
        30
    } else {
        31
    }
}

/// The day number of `year-month-day` (day 1 is 0001-01-01): the days
/// before the date's 400-year era, plus the days of the era before it,
/// counting years from March so that the leap day comes last.
pub open spec fn civil_day_number(year: int, month: int, day: int) -> int {
    let y = if month <= 2 {
        year - 1
    } else {
        year
    };
    let era = y / 400;
    let yoe = y % 400;
    let mp = if month > 2 {
        month - 3
    } else {
        month + 9
    };
    let doy = (153 * mp + 2) / 5 + day - 1;
    let doe = yoe * 365 + yoe / 4 - yoe / 100 + doy;
    era * 146097 + doe - 305
}

/// The day number chrono gives `year-month-day` (`NaiveDate::from_ymd_opt`
/// then `num_days_from_ce`): the proleptic Gregorian day number of a real
/// calendar date in chrono's years -262143 to 262142, `None` otherwise.
#[verifier::opaque]
pub open spec fn spec_date_from_ymd(year: int, month: int, day: int) -> Option<int> {
    if -262143 <= year <= 262142 && 1 <= month <= 12 && 1 <= day <= days_in_month(year, month) {
        Some(civil_day_number(year, month, day))
    } else {
        None
    }
}

/// Year, month (1..=12) and day of month of a day number (chrono's
/// `year()`, `month()`, `day()`): the inverse of [`civil_day_number`].
#[verifier::opaque]
pub open spec fn spec_date_ymd(days: int) -> (int, int, int) {
    let z = days + 305;
    let era = z / 146097;
    let doe = z % 146097;
    let yoe = (doe - doe / 1460 + doe / 36524 - doe / 146096) / 365;
    let doy = doe - (365 * yoe + yoe / 4 - yoe / 100);
    let mp = (5 * doy + 2) / 153;
    let day = doy - (153 * mp + 2) / 5 + 1;
    let month = if mp < 10 {
        mp + 3
    } else {
        mp - 9
    };
    let year = yoe + era * 400 + if month <= 2 {
        1int
    } else {
        0int
    };
    (year, month, day)
}

/// What chrono's `NaiveDate::parse_from_str(text, pattern)` gives.
pub uninterp spec fn spec_parse_date(text: Seq<char>, pattern: Seq<char>) -> Option<int>;

/// What chrono's `NaiveDateTime::parse_from_str(text, pattern)` gives.
pub uninterp spec fn spec_parse_datetime(text: Seq<char>, pattern: Seq<char>) -> Option<
    (int, int, int),
>;

/// The text chrono's `NaiveDate::format(pattern)` renders.
pub uninterp spec fn spec_format_date(days: int, pattern: Seq<char>) -> Seq<char>;

/// The text chrono's `NaiveDateTime::format(pattern)` renders.
pub uninterp spec fn spec_format_datetime(dt: (int, int, int), pattern: Seq<char>) -> Seq<char>;

/// The text of chrono's `Display` for `NaiveDateTime` (`YYYY-MM-DD HH:MM:SS`).
pub uninterp spec fn spec_display_datetime(dt: (int, int, int)) -> Seq<char>;

/// The most whole seconds a chrono `TimeDelta` holds either way.
pub const MAX_DELTA_SECS: i64 = 9223372036854775;

/// chrono's `checked_add_signed` by `secs` whole seconds: the time moves
/// by exactly that many seconds (a leap second first counts as the second
/// it follows, or precedes when going back, and is left); `None` when the
/// duration or the resulting date is out of chrono's range.
#[verifier::opaque]
pub open spec fn spec_add_seconds(dt: (int, int, int), secs: int) -> Option<(int, int, int)> {
    let leap = dt.2 >= LEAP_FRAC;
    let t = dt.0 * 86400 + dt.1 + secs + if leap && secs < 0 {
        1int
    } else {
        0int
    };
    let frac = if leap && secs != 0 {
        dt.2 - LEAP_FRAC
    } else {
        dt.2
    };
    if -MAX_DELTA_SECS <= secs <= MAX_DELTA_SECS && valid_day(t / 86400) {
        Some((t / 86400, t % 86400, frac))
    } else {
        None
    }
}

/// chrono's `checked_add_months`: the same time of day on the same day of
/// the month `months` months later, the day lowered to that month's last day
/// where the month is shorter; `None` when that date is out of chrono's range.
#[verifier::opaque]
pub open spec fn spec_add_months(dt: (int, int, int), months: int) -> Option<(int, int, int)> {
    if months == 0 {
        Some(dt)
    } else if months < 0 || months > i32::MAX {
        None
    } else {
        let (y, m, d) = spec_date_ymd(dt.0);
        let t = y * 12 + m - 1 + months;
        if t > i32::MAX {
            None
        } else {
            let ny = t / 12;
            let nm = t % 12 + 1;
            let nd = if d > days_in_month(ny, nm) {
                days_in_month(ny, nm)
            } else {
                d
            };
            match spec_date_from_ymd(ny, nm, nd) {
                Some(x) => Some((x, dt.1, dt.2)),
                None => None,
            }
        }
    }
}

/// Nanoseconds from day 0 of a datetime with no leap second.
pub open spec fn dt_nanos(dt: (int, int, int)) -> int {
    (dt.0 * 86400 + dt.1) * 1_000_000_000 + dt.2
}

/// chrono's `end.checked_add_signed(start - base)` when one of the three
/// is a leap second.
pub uninterp spec fn spec_shift_leap(end: (int, int, int), start: (int, int, int), base: (int, int, int)) -> Option<
    (int, int, int),
>;

/// chrono's `end.checked_add_signed(start - base)`: `end` moved by the
/// duration from `base` to `start`. With no leap second among them, the
/// nanoseconds add up exactly; `None` when the result's date is out of
/// chrono's range.
#[verifier::opaque]
pub open spec fn spec_shift(end: (int, int, int), start: (int, int, int), base: (int, int, int)) -> Option<
    (int, int, int),
> {
    if end.2 < LEAP_FRAC && start.2 < LEAP_FRAC && base.2 < LEAP_FRAC {
        let n = dt_nanos(end) + dt_nanos(start) - dt_nanos(base);
        let day = n / 86_400_000_000_000;
        if valid_day(day) {
            Some((day, n % 86_400_000_000_000 / 1_000_000_000, n % 1_000_000_000))
        } else {
            None
        }
    } else {
        spec_shift_leap(end, start, base)
    }
}

/// The patterns the library formats datetimes with.
pub open spec fn is_datetime_pattern(p: Seq<char>) -> bool {
    ||| p == "%Y%m%dT%H%M%S"@
    ||| p == "%Y%m%d"@
    ||| p == "%Y-%m-%dT%H:%M:%S"@
    ||| p == "%H:%M "@
    ||| p == "%H:%M:%S"@
    ||| p == "%H:%M"@
    ||| p == "%Y-%m-%d"@
    ||| p == "%Y-%m-%d %H:%M"@
    ||| p == "%m-%d %H:%M"@
}

/// The patterns the library formats dates with.
pub open spec fn is_date_pattern(p: Seq<char>) -> bool {
    ||| p == "%Y-%m-%d"@
    ||| p == "%m-%d"@
    ||| p == "%Y-%m"@
    ||| p == "%a %Y-%m-%d"@
    ||| p == "%B %Y"@
}

/// chrono's `NaiveDate::from_ymd_opt`: the date `year-month-day`, if valid.
#[verifier::external_body]
pub(crate) fn chrono_from_ymd(year: i32, month: u32, day: u32) -> (r: Option<Date>)
    ensures
        r matches Some(d) ==> spec_date_from_ymd(year as int, month as int, day as int) == Some(
            d@,
        ),
        r is None ==> spec_date_from_ymd(year as int, month as int, day as int) is None,
{
    NaiveDate::from_ymd_opt(year, month, day).map(|d| Date { days: d.num_days_from_ce() })
}

/// chrono's `year()`, `month()` and `day()`: the calendar fields of a date;
/// rebuilding the date from them gives the same date back.
#[verifier::external_body]
pub(crate) fn chrono_ymd(d: &Date) -> (r: (i32, u32, u32))
    ensures
        (r.0 as int, r.1 as int, r.2 as int) == spec_date_ymd(d@),
        spec_date_from_ymd(r.0 as int, r.1 as int, r.2 as int) == Some(d@),
        1 <= r.1 <= 12,
        1 <= r.2 <= 31,
{
    let n = NaiveDate::from_num_days_from_ce_opt(d.days).unwrap();
    (n.year(), n.month(), n.day())
}

/// chrono's `NaiveDate::parse_from_str`.
#[verifier::external_body]
pub(crate) fn chrono_parse_date(text: &str, pattern: &str) -> (r: Option<Date>)
    ensures
        r matches Some(d) ==> spec_parse_date(text@, pattern@) == Some(d@),
        r is None ==> spec_parse_date(text@, pattern@) is None,
{
    NaiveDate::parse_from_str(text, pattern).ok().map(|d| Date { days: d.num_days_from_ce() })
}

/// chrono's `NaiveDateTime::parse_from_str`.
#[verifier::external_body]
pub(crate) fn chrono_parse_datetime(text: &str, pattern: &str) -> (r: Option<DateTime>)
    ensures
        r matches Some(dt) ==> spec_parse_datetime(text@, pattern@) == Some(dt@),
        r is None ==> spec_parse_datetime(text@, pattern@) is None,
{
    NaiveDateTime::parse_from_str(text, pattern).ok().map(
        |n| DateTime {
            date: Date { days: n.date().num_days_from_ce() },
            secs: n.time().num_seconds_from_midnight(),
            frac: n.time().nanosecond(),
        },
    )
}

/// chrono's `NaiveDate::format(pattern).to_string()`.
#[verifier::external_body]
pub(crate) fn chrono_format_date(d: &Date, pattern: &str) -> (r: String)
    requires
        is_date_pattern(pattern@),
    ensures
        r@ == spec_format_date(d@, pattern@),
{
    NaiveDate::from_num_days_from_ce_opt(d.days).unwrap().format(pattern).to_string()
}

/// A compact stamp as chrono writes `%Y%m%dT%H%M%S` for a year from 0 to
/// 9999: eight digits, `T`, six digits.
pub open spec fn is_stamp(s: Seq<char>) -> bool {
    &&& s.len() == 15
    &&& s[8] == 'T'
    &&& forall|i: int| 0 <= i < 15 && i != 8 ==> '0' <= #[trigger] s[i] <= '9'
}

/// A compact date as chrono writes `%Y%m%d` for a year from 0 to 9999:
/// eight digits.
pub open spec fn is_date_stamp(s: Seq<char>) -> bool {
    &&& s.len() == 8
    &&& forall|i: int| 0 <= i < 8 ==> '0' <= #[trigger] s[i] <= '9'
}

/// The year of a day number is one chrono writes with four digits.
pub open spec fn four_digit_year(days: int) -> bool {
    0 <= spec_date_ymd(days).0 <= 9999
}

/// chrono's `NaiveDateTime::format(pattern).to_string()`. For a year from 0
/// to 9999, `%Y` writes four digits and `%m %d %H %M %S` two each, so the
/// compact stamps have the shapes above; chrono's parser reads `%Y` as four
/// digits when no sign is given, so parsing a stamp with its own pattern
/// gives the value back (whole seconds only: `%S` drops the fraction), and
/// an eight-digit date fails the patterns that need a `T`, `-` or space.
#[verifier::external_body]
pub(crate) fn chrono_format_datetime(dt: &DateTime, pattern: &str) -> (r: String)
    requires
        is_datetime_pattern(pattern@),
    ensures
        r@ == spec_format_datetime(dt@, pattern@),
        pattern@ == "%Y%m%dT%H%M%S"@ && four_digit_year(dt@.0) && dt@.2 == 0 ==> is_stamp(r@)
            && spec_parse_datetime(r@, "%Y%m%dT%H%M%S"@) == Some(dt@),
        pattern@ == "%Y%m%d"@ && four_digit_year(dt@.0) ==> {
            &&& is_date_stamp(r@)
            &&& spec_parse_date(r@, "%Y%m%d"@) == Some(dt@.0)
            &&& spec_parse_datetime(r@, "%Y%m%dT%H%M%S"@) is None
            &&& spec_parse_datetime(r@, "%Y%m%dT%H%M"@) is None
            &&& spec_parse_datetime(r@, "%Y-%m-%dT%H:%M:%S"@) is None
            &&& spec_parse_datetime(r@, "%Y-%m-%dT%H:%M"@) is None
            &&& spec_parse_datetime(r@, "%Y-%m-%d %H:%M"@) is None
        },
{
    let time = NaiveTime::from_num_seconds_from_midnight_opt(dt.secs, dt.frac).unwrap();
    let date = NaiveDate::from_num_days_from_ce_opt(dt.date.days).unwrap();
    date.and_time(time).format(pattern).to_string()
}

/// chrono's `to_string()` of a `NaiveDateTime`.
#[verifier::external_body]
pub(crate) fn chrono_display_datetime(dt: &DateTime) -> (r: String)
    ensures
        r@ == spec_display_datetime(dt@),
{
    let time = NaiveTime::from_num_seconds_from_midnight_opt(dt.secs, dt.frac).unwrap();
    NaiveDate::from_num_days_from_ce_opt(dt.date.days).unwrap().and_time(time).to_string()
}

/// chrono's `checked_add_signed(TimeDelta::try_seconds(secs)?)`; `None` when
/// the duration or the result is out of chrono's range.
#[verifier::external_body]
pub(crate) fn chrono_add_seconds(dt: &DateTime, secs: i64) -> (r: Option<DateTime>)
    ensures
        r matches Some(x) ==> spec_add_seconds(dt@, secs as int) == Some(x@),
        r is None ==> spec_add_seconds(dt@, secs as int) is None,
{
    let time = NaiveTime::from_num_seconds_from_midnight_opt(dt.secs, dt.frac).unwrap();
    let n = NaiveDate::from_num_days_from_ce_opt(dt.date.days).unwrap().and_time(time);
    let n = n.checked_add_signed(TimeDelta::try_seconds(secs)?)?;
    let date = Date { days: n.date().num_days_from_ce() };
    Some(DateTime { date, secs: n.time().num_seconds_from_midnight(), frac: n.time().nanosecond() })
}

/// chrono's `checked_add_months(Months::new(months))`.
#[verifier::external_body]
pub(crate) fn chrono_add_months(dt: &DateTime, months: u32) -> (r: Option<DateTime>)
    ensures
        r matches Some(x) ==> spec_add_months(dt@, months as int) == Some(x@),
        r is None ==> spec_add_months(dt@, months as int) is None,
{
    let time = NaiveTime::from_num_seconds_from_midnight_opt(dt.secs, dt.frac).unwrap();
    let n = NaiveDate::from_num_days_from_ce_opt(dt.date.days).unwrap().and_time(time);
    let n = n.checked_add_months(Months::new(months))?;
    let date = Date { days: n.date().num_days_from_ce() };
    Some(DateTime { date, secs: n.time().num_seconds_from_midnight(), frac: n.time().nanosecond() })
}

/// chrono's `end.checked_add_signed(start - base)`.
#[verifier::external_body]
pub(crate) fn chrono_shift(end: &DateTime, start: &DateTime, base: &DateTime) -> (r: Option<
    DateTime,
>)
    ensures
        r matches Some(x) ==> spec_shift(end@, start@, base@) == Some(x@),
        r is None ==> spec_shift(end@, start@, base@) is None,
        !(end@.2 < LEAP_FRAC && start@.2 < LEAP_FRAC && base@.2 < LEAP_FRAC) ==> spec_shift_leap(
            end@,
            start@,
            base@,
        ) == match r {
            Some(x) => Some(x@),
            None => None,
        },
{
    let t = NaiveTime::from_num_seconds_from_midnight_opt(end.secs, end.frac).unwrap();
    let e = NaiveDate::from_num_days_from_ce_opt(end.date.days).unwrap().and_time(t);
    let t = NaiveTime::from_num_seconds_from_midnight_opt(start.secs, start.frac).unwrap();
    let s = NaiveDate::from_num_days_from_ce_opt(start.date.days).unwrap().and_time(t);
    let t = NaiveTime::from_num_seconds_from_midnight_opt(base.secs, base.frac).unwrap();
    let b = NaiveDate::from_num_days_from_ce_opt(base.date.days).unwrap().and_time(t);
    let n = e.checked_add_signed(s - b)?;
    let date = Date { days: n.date().num_days_from_ce() };
    Some(DateTime { date, secs: n.time().num_seconds_from_midnight(), frac: n.time().nanosecond() })
}

/// Today's date in local time (chrono's `Local::now().date_naive()`); it
/// depends on the clock, so nothing is stated of it.
#[verifier::external_body]
pub fn today() -> (r: Date) {
    Date { days: chrono::Local::now().date_naive().num_days_from_ce() }
}

} // verus!
