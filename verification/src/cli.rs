//! The decisions behind the `oca` commands: argument parsing, validation,
//! which event an id names, what an edit changes, and the text of the lines
//! the commands print. Reading the store, printing and spawning processes are
//! the caller's part.
use vstd::prelude::*;
use crate::date::{
    Date, DateTime, DATE_MAX_DAYS, dt_lt, dt_le, spec_format_datetime, spec_format_date, spec_parse_date,
    chrono_format_datetime, chrono_format_date, chrono_parse_date,
};
use crate::ics::{Event, EventView, events_view, opt_dt, parse_dt, parse_dt_spec, is_date_only, is_date_only_spec, generated_uid, uid_text};
use crate::notify::{key_spec, notification_key};
use crate::query::{DayItem, DayItemView, item_date};
use crate::store::{CalStore, EventEdit, Settings, first_with_uid, has_uid, without_uid, position_of};
use crate::tasks::TaskView;
use crate::text::{
    chars_of, string_of, push_str, push_all, trim, lower, trimmed, lower_exec, same_text, parse_unsigned,
    parse_decimal, decimal, decimal_exec, pad_left, pad_left_exec, contains_seq, contains_seq_exec,
};
use crate::week::WeekStart;

verus! {

/// The characters of `raw` with surrounding whitespace removed.
fn trimmed_chars(raw: &str) -> (r: Vec<char>)
    ensures
        r@ == trim(raw@),
{
    let v = chars_of(raw);
    proof {
        assert(v@.subrange(0, v@.len() as int) =~= v@);
    }
    trimmed(&v, 0, v.len())
}

/// `raw` trimmed and ASCII-lowercased.
fn folded(raw: &str) -> (r: Vec<char>)
    ensures
        r@ == lower(trim(raw@)),
{
    lower_exec(&trimmed_chars(raw))
}

fn is_word(v: &Vec<char>, word: &str) -> (r: bool)
    ensures
        r == (v@ == word@),
{
    same_text(v, &chars_of(word))
}

/// The boolean a settings word stands for.
pub open spec fn bool_word(w: Seq<char>) -> Option<bool> {
    if w == "true"@ || w == "1"@ || w == "yes"@ || w == "on"@ {
        Some(true)
    } else if w == "false"@ || w == "0"@ || w == "no"@ || w == "off"@ {
        Some(false)
    } else {
        None
    }
}

/// `'raw'` between a prefix and a suffix.
pub open spec fn quoted(prefix: Seq<char>, raw: Seq<char>, suffix: Seq<char>) -> Seq<char> {
    prefix + "'"@ + raw + "'"@ + suffix
}

fn quoted_exec(prefix: &str, raw: &str, suffix: &str) -> (r: String)
    ensures
        r@ == quoted(prefix@, raw@, suffix@),
{
    let mut out = chars_of(prefix);
    out.push('\'');
    push_str(&mut out, raw);
    out.push('\'');
    push_str(&mut out, suffix);
    proof {
        reveal_strlit("'");
        assert(out@ =~= quoted(prefix@, raw@, suffix@));
    }
    string_of(out.as_slice())
}

/// A boolean setting: `true`/`1`/`yes`/`on` or `false`/`0`/`no`/`off`,
/// ignoring case and surrounding whitespace.
pub fn parse_bool(raw: &str) -> (r: Result<bool, String>)
    ensures
        match r {
            Ok(b) => bool_word(lower(trim(raw@))) == Some(b),
            Err(m) => bool_word(lower(trim(raw@))) is None && m@ == quoted(
                "invalid BOOL "@,
                raw@,
                ": use true or false"@,
            ),
        },
{
    let w = folded(raw);
    if is_word(&w, "true") || is_word(&w, "1") || is_word(&w, "yes") || is_word(&w, "on") {
        Ok(true)
    } else if is_word(&w, "false") || is_word(&w, "0") || is_word(&w, "no") || is_word(&w, "off") {
        Ok(false)
    } else {
        Err(quoted_exec("invalid BOOL ", raw, ": use true or false"))
    }
}

/// The week start a settings word stands for.
pub open spec fn week_start_word(w: Seq<char>) -> Option<WeekStart> {
    if w == "monday"@ || w == "mon"@ {
        Some(WeekStart::Monday)
    } else if w == "sunday"@ || w == "sun"@ {
        Some(WeekStart::Sunday)
    } else {
        None
    }
}

/// `monday`/`mon` or `sunday`/`sun`, ignoring case and surrounding whitespace.
pub fn parse_week_start(raw: &str) -> (r: Result<WeekStart, String>)
    ensures
        match r {
            Ok(ws) => week_start_word(lower(trim(raw@))) == Some(ws),
            Err(m) => week_start_word(lower(trim(raw@))) is None && m@ == quoted(
                "invalid DAY "@,
                raw@,
                ": use monday or sunday"@,
            ),
        },
{
    let w = folded(raw);
    if is_word(&w, "monday") || is_word(&w, "mon") {
        Ok(WeekStart::Monday)
    } else if is_word(&w, "sunday") || is_word(&w, "sun") {
        Ok(WeekStart::Sunday)
    } else {
        Err(quoted_exec("invalid DAY ", raw, ": use monday or sunday"))
    }
}

/// The settings word of a week start.
pub open spec fn week_start_name_spec(value: WeekStart) -> Seq<char> {
    match value {
        WeekStart::Monday => "monday"@,
        WeekStart::Sunday => "sunday"@,
    }
}

pub fn week_start_name(value: WeekStart) -> (r: &'static str)
    ensures
        r@ == week_start_name_spec(value),
{
    match value {
        WeekStart::Monday => "monday",
        WeekStart::Sunday => "sunday",
    }
}

/// A positive number of minutes (as `str::parse::<u32>` reads it, after
/// trimming).
pub fn parse_minutes(raw: &str) -> (r: Result<u32, String>)
    ensures
        match r {
            Ok(n) => parse_unsigned(trim(raw@), u32::MAX as nat) == Some(n as nat) && n > 0,
            Err(m) => !(parse_unsigned(trim(raw@), u32::MAX as nat) matches Some(n) && n > 0)
                && m@ == quoted("invalid MIN "@, raw@, ": use a positive number of minutes"@),
        },
{
    let w = trimmed_chars(raw);
    match parse_decimal(&w, u32::MAX as u64) {
        Some(n) if n > 0 => Ok(n as u32),
        _ => Err(quoted_exec("invalid MIN ", raw, ": use a positive number of minutes")),
    }
}

/// The flags of `oca edit`.
#[derive(Debug, Clone, PartialEq, Eq)]
pub struct EditArgs {
    pub summary: Option<String>,
    pub at: Option<String>,
    pub end: Option<String>,
    pub description: Option<String>,
    pub clear_end: bool,
    pub clear_description: bool,
}

impl EditArgs {
    /// No flag was given.
    pub fn is_empty(&self) -> (r: bool)
        ensures
            r == (self.summary is None && self.at is None && self.end is None
                && self.description is None && !self.clear_end && !self.clear_description),
    {
        self.summary.is_none() && self.at.is_none() && self.end.is_none()
            && self.description.is_none() && !self.clear_end && !self.clear_description
    }
}

/// What an id names: a 1-based index into the listed events, or else a UID.
pub open spec fn resolve_id_spec(es: Seq<EventView>, id: Seq<char>) -> Result<Seq<char>, Seq<char>> {
    match parse_unsigned(id, usize::MAX as nat) {
        Some(n) => if n == 0 {
            Err("list index is 1-based, not 0"@)
        } else if n <= es.len() {
            Ok(es[n - 1].uid)
        } else {
            Err("no event at index "@ + decimal(n) + " (have "@ + decimal(es.len()) + ")"@)
        },
        None => Ok(id),
    }
}

/// Resolve an event id: a 1-based index into the (sorted) store, or a raw UID.
pub fn resolve_id(events: &Vec<Event>, id: &str) -> (r: Result<String, String>)
    ensures
        match r {
            Ok(uid) => resolve_id_spec(events_view(events@), id@) == Ok::<Seq<char>, Seq<char>>(uid@),
            Err(m) => resolve_id_spec(events_view(events@), id@) == Err::<Seq<char>, Seq<char>>(m@),
        },
{
    let v = chars_of(id);
    match parse_decimal(&v, usize::MAX as u64) {
        Some(n) => {
            if n == 0 {
                return Err(string_of(chars_of("list index is 1-based, not 0").as_slice()));
            }
            if n <= events.len() as u64 {
                let uid = &events[(n - 1) as usize].uid;
                return Ok(string_of(chars_of(uid.as_str()).as_slice()));
            }
            let mut out = chars_of("no event at index ");
            push_all(&mut out, &decimal_exec(n));
            push_str(&mut out, " (have ");
            push_all(&mut out, &decimal_exec(events.len() as u64));
            push_str(&mut out, ")");
            Err(string_of(out.as_slice()))
        },
        None => Ok(string_of(v.as_slice())),
    }
}

/// `""` for one, `"s"` otherwise.
pub open spec fn plural_spec(n: int) -> Seq<char> {
    if n == 1 {
        ""@
    } else {
        "s"@
    }
}

pub fn plural(n: usize) -> (r: &'static str)
    ensures
        r@ == plural_spec(n as int),
{
    if n == 1 {
        ""
    } else {
        "s"
    }
}

/// A datetime's time of day is midnight, as chrono renders it.
pub open spec fn is_midnight(value: (int, int, int)) -> bool {
    spec_format_datetime(value, "%H:%M:%S"@) == "00:00:00"@
}

fn midnight_exec(value: &DateTime) -> (r: bool)
    ensures
        r == is_midnight(value@),
{
    let s = chrono_format_datetime(value, "%H:%M:%S");
    same_text(&chars_of(s.as_str()), &chars_of("00:00:00"))
}

/// `YYYY-MM-DD HH:MM`, or just `YYYY-MM-DD` at midnight.
pub open spec fn fmt_dt_spec(value: (int, int, int)) -> Seq<char> {
    if is_midnight(value) {
        spec_format_datetime(value, "%Y-%m-%d"@)
    } else {
        spec_format_datetime(value, "%Y-%m-%d %H:%M"@)
    }
}

pub fn fmt_dt(value: &DateTime) -> (r: String)
    ensures
        r@ == fmt_dt_spec(value@),
{
    if midnight_exec(value) {
        chrono_format_datetime(value, "%Y-%m-%d")
    } else {
        chrono_format_datetime(value, "%Y-%m-%d %H:%M")
    }
}

/// `HH:MM`, or `all-day` when the time is midnight, like [`fmt_dt`].
pub open spec fn fmt_time_spec(value: (int, int, int)) -> Seq<char> {
    if is_midnight(value) {
        "all-day"@
    } else {
        spec_format_datetime(value, "%H:%M"@)
    }
}

pub fn fmt_time(value: &DateTime) -> (r: String)
    ensures
        r@ == fmt_time_spec(value@),
{
    if midnight_exec(value) {
        string_of(chars_of("all-day").as_slice())
    } else {
        chrono_format_datetime(value, "%H:%M")
    }
}

/// One `ls`/`search` line: `[index  ]date  summary[  [uid]]`, the index
/// right-aligned in three columns.
pub open spec fn event_line_spec(e: EventView, index: int, show_uid: bool, numbered: bool) -> Seq<char> {
    (if numbered {
        pad_left(decimal(index as nat), 3) + "  "@
    } else {
        ""@
    }) + fmt_dt_spec(e.start) + "  "@ + e.summary + if show_uid {
        "  ["@ + e.uid + "]"@
    } else {
        ""@
    }
}

pub fn event_line(event: &Event, index: usize, show_uid: bool, numbered: bool) -> (r: String)
    ensures
        r@ == event_line_spec(event@, index as int, show_uid, numbered),
{
    let mut out: Vec<char> = Vec::new();
    if numbered {
        push_all(&mut out, &pad_left_exec(&decimal_exec(index as u64), 3));
        push_str(&mut out, "  ");
    }
    push_str(&mut out, fmt_dt(&event.start).as_str());
    push_str(&mut out, "  ");
    push_str(&mut out, event.summary.as_str());
    if show_uid {
        push_str(&mut out, "  [");
        push_str(&mut out, event.uid.as_str());
        push_str(&mut out, "]");
    }
    proof {
        reveal_strlit("");
        assert(out@ =~= event_line_spec(event@, index as int, show_uid, numbered));
    }
    string_of(out.as_slice())
}

/// One line inside a day group: `HH:MM  summary`, `all-day  summary`, or
/// `[ ] task`.
pub open spec fn day_item_line_spec(item: DayItemView) -> Seq<char> {
    match item {
        DayItemView::Event(e) => fmt_time_spec(e.start) + "  "@ + e.summary,
        DayItemView::Task(t) => "[ ] "@ + t.text,
    }
}

pub fn day_item_line(item: &DayItem) -> (r: String)
    ensures
        r@ == day_item_line_spec(item@),
{
    let mut out: Vec<char> = Vec::new();
    match item {
        DayItem::Event(event) => {
            push_str(&mut out, fmt_time(&event.start).as_str());
            push_str(&mut out, "  ");
            push_str(&mut out, event.summary.as_str());
        },
        DayItem::Task(task) => {
            push_str(&mut out, "[ ] ");
            push_str(&mut out, task.text.as_str());
        },
    }
    proof {
        assert(out@ =~= day_item_line_spec(item@));
    }
    string_of(out.as_slice())
}

/// What Unicode lower-casing (`str::to_lowercase`) gives.
pub uninterp spec fn spec_lowercase(s: Seq<char>) -> Seq<char>;

/// std's `str::to_lowercase`: full Unicode lower-casing.
#[verifier::external_body]
fn unicode_lowercase(s: &str) -> (r: String)
    ensures
        r@ == spec_lowercase(s@),
{
    s.to_lowercase()
}

/// `needle` (already lower-cased) occurs in the lower-cased summary or
/// description.
pub open spec fn event_matches_spec(e: EventView, needle: Seq<char>) -> bool {
    contains_seq(spec_lowercase(e.summary), needle) || contains_seq(spec_lowercase(e.description), needle)
}

/// True when `needle` (already lowercased) occurs in the summary or description.
pub fn event_matches(event: &Event, needle: &str) -> (r: bool)
    ensures
        r == event_matches_spec(event@, needle@),
{
    let n = chars_of(needle);
    contains_seq_exec(&chars_of(unicode_lowercase(event.summary.as_str()).as_str()), &n)
        || contains_seq_exec(&chars_of(unicode_lowercase(event.description.as_str()).as_str()), &n)
}

/// The events matching `needle`, in order.
pub open spec fn matching(es: Seq<EventView>, needle: Seq<char>) -> Seq<EventView>
    decreases es.len(),
{
    if es.len() == 0 {
        seq![]
    } else {
        matching(es.drop_last(), needle) + if event_matches_spec(es.last(), needle) {
            seq![es.last()]
        } else {
            seq![]
        }
    }
}

/// The events whose summary or description contains `needle`, compared
/// case-insensitively; `needle` is lower-cased here.
pub fn filter_matching(events: &Vec<Event>, needle: &str) -> (r: Vec<Event>)
    ensures
        events_view(r@) == matching(events_view(events@), needle@),
{
    let ghost ev = events_view(events@);
    let mut hits: Vec<Event> = Vec::new();
    let mut i: usize = 0;
    while i < events.len()
        invariant
            i <= events.len(),
            ev == events_view(events@),
            events_view(hits@) == matching(ev.take(i as int), needle@),
        decreases events.len() - i,
    {
        proof {
            assert(ev.take(i + 1).drop_last() =~= ev.take(i as int));
            assert(ev.take(i + 1).last() == events@[i as int]@);
        }
        if event_matches(&events[i], needle) {
            let ghost before = hits@;
            let copy = events[i].duplicate();
            hits.push(copy);
            proof {
                assert(events_view(hits@) =~= events_view(before).push(copy@));
            }
        }
        i += 1;
    }
    proof {
        assert(ev.take(events.len() as int) =~= ev);
    }
    hits
}

/// The text `search` looks for: the query trimmed and lower-cased; an empty
/// one is refused.
pub fn search_needle(query: &str) -> (r: Result<String, String>)
    ensures
        spec_lowercase(trim(query@)).len() == 0 ==> (r matches Err(m) && m@
            == "search query cannot be empty"@),
        spec_lowercase(trim(query@)).len() > 0 ==> (r matches Ok(n) && n@ == spec_lowercase(trim(query@))),
{
    let t = string_of(trimmed_chars(query).as_slice());
    let needle = unicode_lowercase(t.as_str());
    if chars_of(needle.as_str()).len() == 0 {
        return Err(string_of(chars_of("search query cannot be empty").as_slice()));
    }
    Ok(needle)
}

/// Case-insensitive (Unicode) search over summary and description: the query
/// is trimmed and lower-cased; an empty query is refused.
pub fn search_events(events: &Vec<Event>, query: &str) -> (r: Result<Vec<Event>, String>)
    ensures
        spec_lowercase(trim(query@)).len() == 0 ==> (r matches Err(m) && m@
            == "search query cannot be empty"@),
        spec_lowercase(trim(query@)).len() > 0 ==> (r matches Ok(hits) && events_view(hits@)
            == matching(events_view(events@), spec_lowercase(trim(query@)))),
{
    match search_needle(query) {
        Ok(needle) => Ok(filter_matching(events, needle.as_str())),
        Err(m) => Err(m),
    }
}


/// An optional text argument as plain characters.
pub open spec fn opt_str(o: Option<&str>) -> Option<Seq<char>> {
    match o {
        Some(s) => Some(s@),
        None => None,
    }
}

/// The message for a value that is no accepted date or datetime.
pub open spec fn invalid_date(raw: Seq<char>) -> Seq<char> {
    quoted("invalid date "@, raw, ": use YYYY-MM-DD or YYYY-MM-DDTHH:MM"@)
}

/// A command-line datetime (`YYYY-MM-DD[THH:MM]`, also `YYYY-MM-DD HH:MM`).
pub fn parse_cli_dt(raw: &str) -> (r: Result<DateTime, String>)
    ensures
        match r {
            Ok(dt) => parse_dt_spec(raw@) == Some(dt@),
            Err(m) => parse_dt_spec(raw@) is None && m@ == invalid_date(raw@),
        },
{
    match parse_dt(raw) {
        Ok(dt) => Ok(dt),
        Err(_) => Err(quoted_exec("invalid date ", raw, ": use YYYY-MM-DD or YYYY-MM-DDTHH:MM")),
    }
}

/// The day a `today`/`week` argument names: `YYYY-MM-DD` (trimmed), or
/// `today` when absent.
pub fn parse_cli_day(raw: Option<&str>, today: Date) -> (r: Result<Date, String>)
    ensures
        raw is None ==> r == Ok::<Date, String>(today),
        raw matches Some(t) ==> match r {
            Ok(d) => spec_parse_date(trim(t@), "%Y-%m-%d"@) == Some(d@),
            Err(m) => spec_parse_date(trim(t@), "%Y-%m-%d"@) is None && m@ == quoted(
                "invalid date "@,
                t@,
                ": use YYYY-MM-DD"@,
            ),
        },
{
    match raw {
        None => Ok(today),
        Some(t) => {
            let v = string_of(trimmed_chars(t).as_slice());
            match chrono_parse_date(v.as_str(), "%Y-%m-%d") {
                Some(d) => Ok(d),
                None => Err(quoted_exec("invalid date ", t, ": use YYYY-MM-DD")),
            }
        },
    }
}

/// The day a `month` argument names: `YYYY-MM-DD`, or `YYYY-MM` read as its
/// first day (trimmed), or `today` when absent.
pub fn parse_cli_month(raw: Option<&str>, today: Date) -> (r: Result<Date, String>)
    ensures
        raw is None ==> r == Ok::<Date, String>(today),
        raw matches Some(t) ==> match r {
            Ok(d) => match spec_parse_date(trim(t@), "%Y-%m-%d"@) {
                Some(x) => x == d@,
                None => spec_parse_date(trim(t@) + "-01"@, "%Y-%m-%d"@) == Some(d@),
            },
            Err(m) => spec_parse_date(trim(t@), "%Y-%m-%d"@) is None && spec_parse_date(
                trim(t@) + "-01"@,
                "%Y-%m-%d"@,
            ) is None && m@ == quoted("invalid month "@, t@, ": use YYYY-MM or YYYY-MM-DD"@),
        },
{
    match raw {
        None => Ok(today),
        Some(t) => {
            let mut v = trimmed_chars(t);
            let whole = string_of(v.as_slice());
            if let Some(d) = chrono_parse_date(whole.as_str(), "%Y-%m-%d") {
                return Ok(d);
            }
            push_str(&mut v, "-01");
            let first = string_of(v.as_slice());
            match chrono_parse_date(first.as_str(), "%Y-%m-%d") {
                Some(d) => Ok(d),
                None => Err(quoted_exec("invalid month ", t, ": use YYYY-MM or YYYY-MM-DD")),
            }
        },
    }
}

/// The message for an end before its start.
pub open spec fn end_before_start(end: (int, int, int), start: (int, int, int)) -> Seq<char> {
    "end ("@ + fmt_dt_spec(end) + ") is before start ("@ + fmt_dt_spec(start) + ")"@
}

fn end_before_start_exec(end: &DateTime, start: &DateTime) -> (r: String)
    ensures
        r@ == end_before_start(end@, start@),
{
    let mut out = chars_of("end (");
    push_str(&mut out, fmt_dt(end).as_str());
    push_str(&mut out, ") is before start (");
    push_str(&mut out, fmt_dt(start).as_str());
    push_str(&mut out, ")");
    string_of(out.as_slice())
}

/// The validated times of `oca add`.
#[derive(Debug, Clone, PartialEq, Eq)]
pub struct AddPlan {
    pub start: DateTime,
    pub end: Option<DateTime>,
    /// Both `at` and `end` (when given) are date-only.
    pub all_day: bool,
}

/// What `oca add` accepts: a non-blank summary, a start, an optional end not
/// before the start; errors in that order.
pub open spec fn add_plan_spec(summary: Seq<char>, at: Seq<char>, end: Option<Seq<char>>) -> Result<
    ((int, int, int), Option<(int, int, int)>, bool),
    Seq<char>,
> {
    let all_day = is_date_only_spec(at) && match end {
        Some(e) => is_date_only_spec(e),
        None => true,
    };
    if trim(summary).len() == 0 {
        Err("summary cannot be empty"@)
    } else {
        match parse_dt_spec(at) {
            None => Err(invalid_date(at)),
            Some(s) => match end {
                None => Ok((s, None, all_day)),
                Some(e) => match parse_dt_spec(e) {
                    None => Err(invalid_date(e)),
                    Some(x) => if dt_lt(x, s) {
                        Err(end_before_start(x, s))
                    } else {
                        Ok((s, Some(x), all_day))
                    },
                },
            },
        }
    }
}

/// Validate the arguments of `oca add`.
pub fn check_add(summary: &str, at: &str, end: Option<&str>) -> (r: Result<AddPlan, String>)
    ensures
        match r {
            Ok(p) => add_plan_spec(summary@, at@, opt_str(end)) == Ok::<_, Seq<char>>(
                (p.start@, opt_dt(p.end), p.all_day),
            ),
            Err(m) => add_plan_spec(summary@, at@, opt_str(end)) == Err::<
                ((int, int, int), Option<(int, int, int)>, bool),
                Seq<char>,
            >(m@),
        },
{
    if trimmed_chars(summary).len() == 0 {
        return Err(string_of(chars_of("summary cannot be empty").as_slice()));
    }
    let start = match parse_cli_dt(at) {
        Ok(s) => s,
        Err(m) => return Err(m),
    };
    let all_day = is_date_only(at) && match end {
        Some(e) => is_date_only(e),
        None => true,
    };
    match end {
        None => Ok(AddPlan { start, end: None, all_day }),
        Some(e) => {
            let x = match parse_cli_dt(e) {
                Ok(x) => x,
                Err(m) => return Err(m),
            };
            if x.is_before(&start) {
                Err(end_before_start_exec(&x, &start))
            } else {
                Ok(AddPlan { start, end: Some(x), all_day })
            }
        },
    }
}

/// The event `oca add` stores for a validated plan: all-day events run
/// through the end's date (stored as the exclusive next midnight); the
/// summary and description are trimmed.
pub fn build_added_event(summary: &str, description: Option<&str>, plan: &AddPlan) -> (r: Event)
    requires
        plan.all_day && plan.end is Some ==> plan.end.unwrap()@.0 < DATE_MAX_DAYS,
    ensures
        r@.summary == trim(summary@),
        r@.description == match description {
            Some(d) => trim(d@),
            None => Seq::<char>::empty(),
        },
        r@.all_day == plan.all_day,
        plan.all_day ==> r@.start == (plan.start@.0, 0int, 0int) && r@.end == match plan.end {
            Some(e) => Some((e@.0 + 1, 0int, 0int)),
            None => None,
        },
        !plan.all_day ==> r@.start == plan.start@ && r@.end == opt_dt(plan.end),
        exists|nanos: u32| nanos < 1_000_000_000 && r@.uid == generated_uid(
            uid_text(trim(summary@), r@.start, r@.end),
            nanos,
        ),
        r@.rrule is None,
        r@.extra.len() == 0,
        r@.start_raw is None,
        r@.end_raw is None,
{
    let title = string_of(trimmed_chars(summary).as_slice());
    let mut event = if plan.all_day {
        let last = match plan.end {
            Some(e) => Some(e.date()),
            None => None,
        };
        Event::new_all_day(title.as_str(), plan.start.date(), last)
    } else {
        Event::new(title.as_str(), plan.start, plan.end)
    };
    let ghost e0 = event@;
    let ghost n = choose|n: u32|
        n < 1_000_000_000 && e0.uid == generated_uid(uid_text(title@, e0.start, e0.end), n);
    if let Some(d) = description {
        event.description = string_of(trimmed_chars(d).as_slice());
    }
    assert(event@.uid == generated_uid(uid_text(trim(summary@), event@.start, event@.end), n));
    event
}


/// What an optional text argument parses to: nothing, a datetime, or the
/// message for an unparseable value.
pub open spec fn parse_opt(o: Option<Seq<char>>) -> Result<Option<(int, int, int)>, Seq<char>> {
    match o {
        None => Ok(None),
        Some(t) => match parse_dt_spec(t) {
            Some(x) => Ok(Some(x)),
            None => Err(invalid_date(t)),
        },
    }
}

pub open spec fn opt_string(o: Option<String>) -> Option<Seq<char>> {
    match o {
        Some(s) => Some(s@),
        None => None,
    }
}

pub open spec fn nothing_to_change() -> Seq<char> {
    "nothing to change: pass at least one of --summary/--at/--end/--description/--clear-end/--clear-description"@
}

/// The message for an id that names no event.
pub open spec fn no_event_with_id(id: Seq<char>) -> Seq<char> {
    quoted("no event with id "@, id, ""@)
}

/// What `oca edit` decides: the UID of the edited event, its new start and
/// its new end; or the message of the first failed check, in the order
/// flags, summary, start, end, id, range.
pub open spec fn edit_plan_spec(es: Seq<EventView>, id: Seq<char>, args: EditArgs) -> Result<
    (Seq<char>, (int, int, int), Option<(int, int, int)>),
    Seq<char>,
> {
    if args.summary is None && args.at is None && args.end is None && args.description is None
        && !args.clear_end && !args.clear_description {
        Err(nothing_to_change())
    } else if args.summary matches Some(s) && trim(s@).len() == 0 {
        Err("summary cannot be empty"@)
    } else {
        match parse_opt(opt_string(args.at)) {
            Err(m) => Err(m),
            Ok(start) => match parse_opt(opt_string(args.end)) {
                Err(m) => Err(m),
                Ok(end) => match resolve_id_spec(es, id) {
                    Err(m) => Err(m),
                    Ok(uid) => match first_with_uid(es, uid) {
                        None => Err(no_event_with_id(id)),
                        Some(i) => {
                            let new_start = match start {
                                Some(x) => x,
                                None => es[i].start,
                            };
                            let new_end = if args.clear_end {
                                None
                            } else {
                                match end {
                                    Some(x) => Some(x),
                                    None => es[i].end,
                                }
                            };
                            match new_end {
                                Some(x) => if dt_lt(x, new_start) {
                                    Err(end_before_start(x, new_start))
                                } else {
                                    Ok((uid, new_start, new_end))
                                },
                                None => Ok((uid, new_start, new_end)),
                            }
                        },
                    },
                },
            },
        }
    }
}

/// The fields of `edit` other than start and end follow the flags: trimmed
/// summary and description, date-only flag from the new start's text.
pub open spec fn edit_follows_args(edit: EventEdit, args: EditArgs) -> bool {
    &&& match args.summary {
        Some(s) => edit.summary matches Some(t) && t@ == trim(s@),
        None => edit.summary is None,
    }
    &&& match args.at {
        Some(a) => edit.all_day == Some(is_date_only_spec(a@)),
        None => edit.all_day is None,
    }
    &&& edit.clear_description == args.clear_description
    &&& match args.description {
        Some(d) => edit.description matches Some(t) && t@ == trim(d@),
        None => edit.description is None,
    }
}

fn parse_opt_exec(o: &Option<String>) -> (r: Result<Option<DateTime>, String>)
    ensures
        match r {
            Ok(x) => parse_opt(opt_string(*o)) == Ok::<_, Seq<char>>(opt_dt(x)),
            Err(m) => parse_opt(opt_string(*o)) == Err::<Option<(int, int, int)>, _>(m@),
        },
{
    match o {
        None => Ok(None),
        Some(t) => match parse_cli_dt(t.as_str()) {
            Ok(x) => Ok(Some(x)),
            Err(m) => Err(m),
        },
    }
}

fn trimmed_string(s: &String) -> (r: String)
    ensures
        r@ == trim(s@),
{
    string_of(trimmed_chars(s.as_str()).as_slice())
}

/// Decide an edit of the event `id` names (a UID or a 1-based index) in the
/// listed `events`; the UID never changes.
pub fn plan_edit(events: &Vec<Event>, id: &str, args: &EditArgs) -> (r: Result<(String, EventEdit), String>)
    ensures
        match r {
            Ok((uid, edit)) => edit_plan_spec(events_view(events@), id@, *args) == Ok::<_, Seq<char>>(
                (uid@, edit.start@, opt_dt(edit.end)),
            ) && edit_follows_args(edit, *args),
            Err(m) => edit_plan_spec(events_view(events@), id@, *args) == Err::<
                (Seq<char>, (int, int, int), Option<(int, int, int)>),
                _,
            >(m@),
        },
{
    if args.is_empty() {
        return Err(string_of(chars_of(
            "nothing to change: pass at least one of --summary/--at/--end/--description/--clear-end/--clear-description",
        ).as_slice()));
    }
    if let Some(s) = &args.summary {
        if trimmed_chars(s.as_str()).len() == 0 {
            return Err(string_of(chars_of("summary cannot be empty").as_slice()));
        }
    }
    let start = match parse_opt_exec(&args.at) {
        Ok(x) => x,
        Err(m) => return Err(m),
    };
    let end = match parse_opt_exec(&args.end) {
        Ok(x) => x,
        Err(m) => return Err(m),
    };
    let uid = match resolve_id(events, id) {
        Ok(u) => u,
        Err(m) => return Err(m),
    };
    let i = match position_of(events, uid.as_str()) {
        Some(i) => i,
        None => {
            proof {
                reveal_strlit("");
            }
            return Err(quoted_exec("no event with id ", id, ""));
        },
    };
    proof {
        crate::store::lemma_first_with_uid(events_view(events@), uid@);
    }
    let current = &events[i];
    let new_start = match start {
        Some(x) => x,
        None => current.start,
    };
    let new_end = if args.clear_end {
        None
    } else {
        match end {
            Some(x) => Some(x),
            None => current.end,
        }
    };
    if let Some(x) = new_end {
        if x.is_before(&new_start) {
            return Err(end_before_start_exec(&x, &new_start));
        }
    }
    let summary = match &args.summary {
        Some(s) => Some(trimmed_string(s)),
        None => None,
    };
    let all_day = match &args.at {
        Some(a) => Some(is_date_only(a.as_str())),
        None => None,
    };
    let description = match &args.description {
        Some(d) => Some(trimmed_string(d)),
        None => None,
    };
    let edit = EventEdit {
        summary,
        all_day,
        start: new_start,
        end: new_end,
        clear_description: args.clear_description,
        description,
    };
    Ok((uid, edit))
}

/// Remove the event `id` names (a UID or a 1-based index). Returns its UID;
/// an id that resolves to no stored event is an error.
pub fn remove_by_id(store: &mut CalStore, id: &str) -> (r: Result<String, String>)
    ensures
        final(store).path == old(store).path,
        match resolve_id_spec(events_view(old(store).events@), id@) {
            Err(m) => r matches Err(x) && x@ == m,
            Ok(uid) => events_view(final(store).events@) == without_uid(events_view(old(store).events@), uid)
                && if has_uid(events_view(old(store).events@), uid) {
                r matches Ok(u) && u@ == uid
            } else {
                r matches Err(m) && m@ == no_event_with_id(id@)
            },
        },
        resolve_id_spec(events_view(old(store).events@), id@) is Err ==> final(store).events@ == old(
            store,
        ).events@,
        r matches Err(m) ==> !(resolve_id_spec(events_view(old(store).events@), id@) matches Ok(u)
            && has_uid(events_view(old(store).events@), u)),
{
    let uid = match resolve_id(&store.events, id) {
        Ok(u) => u,
        Err(m) => return Err(m),
    };
    if store.remove(uid.as_str()) {
        Ok(uid)
    } else {
        proof {
            reveal_strlit("");
        }
        Err(quoted_exec("no event with id ", id, ""))
    }
}

/// `i` is the first of the events starting after `now` with the earliest start.
pub open spec fn is_next(es: Seq<EventView>, now: (int, int, int), i: int) -> bool {
    &&& 0 <= i < es.len()
    &&& dt_lt(now, es[i].start)
    &&& forall|j: int| 0 <= j < es.len() && dt_lt(now, es[j].start) ==> dt_le(es[i].start, #[trigger] es[j].start)
    &&& forall|j: int| 0 <= j < i && dt_lt(now, es[j].start) ==> dt_lt(es[i].start, #[trigger] es[j].start)
}

/// The next event strictly after `now`: the earliest start, the first listed
/// among ties.
pub fn next_event(events: &Vec<Event>, now: DateTime) -> (r: Option<usize>)
    ensures
        match r {
            Some(i) => is_next(events_view(events@), now@, i as int),
            None => forall|j: int| 0 <= j < events@.len() ==> !dt_lt(now@, #[trigger] events@[j]@.start),
        },
{
    let ghost ev = events_view(events@);
    let mut best: Option<usize> = None;
    let mut i: usize = 0;
    while i < events.len()
        invariant
            i <= events.len(),
            ev == events_view(events@),
            match best {
                Some(b) => b < i && dt_lt(now@, ev[b as int].start) && (forall|j: int|
                    0 <= j < i && dt_lt(now@, ev[j].start) ==> dt_le(ev[b as int].start, #[trigger] ev[j].start))
                    && (forall|j: int|
                    0 <= j < b && dt_lt(now@, ev[j].start) ==> dt_lt(ev[b as int].start, #[trigger] ev[j].start)),
                None => forall|j: int| 0 <= j < i ==> !dt_lt(now@, #[trigger] ev[j].start),
            },
        decreases events.len() - i,
    {
        let s = events[i].start;
        assert(ev[i as int].start == s@);
        if now.is_before(&s) {
            match best {
                None => {
                    best = Some(i);
                },
                Some(b) => {
                    if s.is_before(&events[b].start) {
                        best = Some(i);
                    }
                },
            }
        }
        i += 1;
    }
    proof {
        if best is None {
            assert forall|j: int| 0 <= j < events@.len() implies !dt_lt(now@, #[trigger] events@[j]@.start) by {
                assert(ev[j].start == events@[j]@.start);
            }
        }
    }
    best
}

/// How far away a day is: `today`, `tomorrow`, or `in N days`.
pub open spec fn when_label_spec(days: int) -> Seq<char> {
    if days == 0 {
        "today"@
    } else if days == 1 {
        "tomorrow"@
    } else if days < 0 {
        "in -"@ + decimal((-days) as nat) + " days"@
    } else {
        "in "@ + decimal(days as nat) + " days"@
    }
}

pub fn when_label(days: i64) -> (r: String)
    ensures
        r@ == when_label_spec(days as int),
{
    if days == 0 {
        return string_of(chars_of("today").as_slice());
    }
    if days == 1 {
        return string_of(chars_of("tomorrow").as_slice());
    }
    let mut out = chars_of("in ");
    if days < 0 {
        out.push('-');
        let magnitude: u64 = ((-(days + 1)) as u64) + 1;
        push_all(&mut out, &decimal_exec(magnitude));
        proof {
            reveal_strlit("in ");
            reveal_strlit("in -");
        }
    } else {
        push_all(&mut out, &decimal_exec(days as u64));
    }
    push_str(&mut out, " days");
    string_of(out.as_slice())
}

/// The reminder window of `oca notify`: the flag, else the setting; zero is
/// refused.
pub fn notify_minutes(window: Option<u32>, default: u32) -> (r: Result<u32, String>)
    ensures
        ({
            let m = match window {
                Some(w) => w,
                None => default,
            };
            if m == 0 {
                r matches Err(e) && e@ == "invalid MIN '0': use a positive number of minutes"@
            } else {
                r == Ok::<u32, String>(m)
            }
        }),
{
    let m = match window {
        Some(w) => w,
        None => default,
    };
    if m == 0 {
        Err(string_of(chars_of("invalid MIN '0': use a positive number of minutes").as_slice()))
    } else {
        Ok(m)
    }
}

/// The indices of `due` still to notify, in order: those whose key was not
/// sent before nor chosen earlier in this run.
pub open spec fn unsent(due: Seq<EventView>, sent: Seq<Seq<char>>) -> Seq<int>
    decreases due.len(),
{
    if due.len() == 0 {
        seq![]
    } else {
        let prev = unsent(due.drop_last(), sent);
        let k = key_spec(due.last());
        if sent.contains(k) || (exists|j: int| 0 <= j < prev.len() && #[trigger] key_spec(due[prev[j]]) == k) {
            prev
        } else {
            prev.push(due.len() - 1)
        }
    }
}

proof fn lemma_unsent_bounds(due: Seq<EventView>, sent: Seq<Seq<char>>)
    ensures
        forall|j: int| 0 <= j < unsent(due, sent).len() ==> 0 <= #[trigger] unsent(due, sent)[j] < due.len(),
    decreases due.len(),
{
    if due.len() > 0 {
        lemma_unsent_bounds(due.drop_last(), sent);
        let prev = unsent(due.drop_last(), sent);
        assert forall|j: int| 0 <= j < unsent(due, sent).len() implies 0 <= #[trigger] unsent(due, sent)[j] < due.len() by {
            if j < prev.len() {
                assert(prev[j] < due.drop_last().len());
            }
        }
    }
}

proof fn lemma_unsent_prefix(due: Seq<EventView>, sent: Seq<Seq<char>>, i: int)
    requires
        0 <= i < due.len(),
    ensures
        unsent(due.take(i + 1), sent) == ({
            let prev = unsent(due.take(i), sent);
            let k = key_spec(due[i]);
            if sent.contains(k) || (exists|j: int| 0 <= j < prev.len() && #[trigger] key_spec(due[prev[j]]) == k) {
                prev
            } else {
                prev.push(i)
            }
        }),
{
    let t = due.take(i + 1);
    assert(t.drop_last() =~= due.take(i));
    assert(t.last() == due[i]);
    lemma_unsent_bounds(due.take(i), sent);
    let prev = unsent(due.take(i), sent);
    assert forall|j: int| 0 <= j < prev.len() implies #[trigger] t[prev[j]] == due[prev[j]] by {}
    if (exists|j: int| 0 <= j < prev.len() && #[trigger] key_spec(t[prev[j]]) == key_spec(due[i])) {
        let j = choose|j: int| 0 <= j < prev.len() && #[trigger] key_spec(t[prev[j]]) == key_spec(due[i]);
        assert(key_spec(due[prev[j]]) == key_spec(due[i]));
    }
    if (exists|j: int| 0 <= j < prev.len() && #[trigger] key_spec(due[prev[j]]) == key_spec(due[i])) {
        let j = choose|j: int| 0 <= j < prev.len() && #[trigger] key_spec(due[prev[j]]) == key_spec(due[i]);
        assert(key_spec(t[prev[j]]) == key_spec(due[i]));
    }
}

fn contains_text(list: &Vec<Vec<char>>, k: &Vec<char>) -> (r: bool)
    ensures
        r == crate::text::views(list@).contains(k@),
{
    let mut i: usize = 0;
    while i < list.len()
        invariant
            i <= list.len(),
            forall|j: int| 0 <= j < i ==> list@[j]@ != k@,
        decreases list.len() - i,
    {
        if same_text(&list[i], k) {
            proof {
                assert(crate::text::views(list@)[i as int] == k@);
            }
            return true;
        }
        i += 1;
    }
    proof {
        if crate::text::views(list@).contains(k@) {
            let j = choose|j: int| 0 <= j < crate::text::views(list@).len() && crate::text::views(list@)[j] == k@;
            assert(list@[j]@ == k@);
        }
    }
    false
}

/// Which due occurrences `oca notify --send` fires: each key at most once,
/// none already in `sent`.
pub fn to_send(due: &Vec<Event>, sent: &Vec<String>) -> (r: Vec<usize>)
    ensures
        r@.map_values(|i: usize| i as int) == unsent(events_view(due@), crate::notify::strings_view(sent@)),
{
    let ghost dv = events_view(due@);
    let ghost sv = crate::notify::strings_view(sent@);
    let mut old_keys: Vec<Vec<char>> = Vec::new();
    let mut k: usize = 0;
    while k < sent.len()
        invariant
            k <= sent.len(),
            sv == crate::notify::strings_view(sent@),
            crate::text::views(old_keys@) == sv.take(k as int),
        decreases sent.len() - k,
    {
        let ghost before = old_keys@;
        old_keys.push(chars_of(sent[k].as_str()));
        proof {
            assert(crate::text::views(old_keys@) =~= crate::text::views(before).push(sent@[k as int]@));
            assert(sv.take(k + 1) =~= sv.take(k as int).push(sent@[k as int]@));
        }
        k += 1;
    }
    proof {
        assert(sv.take(sent.len() as int) =~= sv);
    }
    let mut chosen_keys: Vec<Vec<char>> = Vec::new();
    let mut out: Vec<usize> = Vec::new();
    let mut i: usize = 0;
    while i < due.len()
        invariant
            i <= due.len(),
            dv == events_view(due@),
            crate::text::views(old_keys@) == sv,
            out@.map_values(|x: usize| x as int) == unsent(dv.take(i as int), sv),
            chosen_keys@.len() == out@.len(),
            forall|j: int| 0 <= j < out@.len() ==> (#[trigger] chosen_keys@[j])@ == key_spec(dv[out@[j] as int]),
            forall|j: int| 0 <= j < out@.len() ==> #[trigger] out@[j] < i,
        decreases due.len() - i,
    {
        proof {
            lemma_unsent_prefix(dv, sv, i as int);
            lemma_unsent_bounds(dv.take(i as int), sv);
        }
        let key = chars_of(notification_key(&due[i]).as_str());
        assert(key@ == key_spec(dv[i as int]));
        let seen = contains_text(&old_keys, &key);
        let again = contains_text(&chosen_keys, &key);
        let ghost prev = unsent(dv.take(i as int), sv);
        proof {
            assert forall|j: int| 0 <= j < prev.len() implies prev[j] == out@[j] as int by {
                assert(out@.map_values(|x: usize| x as int)[j] == out@[j] as int);
            }
            if again {
                let j = choose|j: int| 0 <= j < crate::text::views(chosen_keys@).len() && crate::text::views(chosen_keys@)[j] == key@;
                assert(key_spec(dv[prev[j]]) == key_spec(dv[i as int]));
            }
            if (exists|j: int| 0 <= j < prev.len() && #[trigger] key_spec(dv[prev[j]]) == key_spec(dv[i as int])) {
                let j = choose|j: int| 0 <= j < prev.len() && #[trigger] key_spec(dv[prev[j]]) == key_spec(dv[i as int]);
                assert(crate::text::views(chosen_keys@)[j] == key@);
            }
        }
        if !seen && !again {
            let ghost before = out@;
            out.push(i);
            chosen_keys.push(key);
            proof {
                assert(out@.map_values(|x: usize| x as int) =~= before.map_values(|x: usize| x as int).push(i as int));
            }
        }
        i += 1;
    }
    proof {
        assert(dv.take(due.len() as int) =~= dv);
    }
    out
}

/// The body of a reminder: the start, then the description when there is one.
pub open spec fn notification_body_spec(e: EventView) -> Seq<char> {
    if e.description.len() == 0 {
        fmt_dt_spec(e.start)
    } else {
        fmt_dt_spec(e.start) + "  "@ + e.description
    }
}

pub fn notification_body(event: &Event) -> (r: String)
    ensures
        r@ == notification_body_spec(event@),
{
    let mut out = chars_of(fmt_dt(&event.start).as_str());
    let d = chars_of(event.description.as_str());
    if d.len() > 0 {
        push_str(&mut out, "  ");
        push_all(&mut out, &d);
    }
    string_of(out.as_slice())
}


/// The number of events among `items`.
pub open spec fn event_count(items: Seq<DayItemView>) -> nat
    decreases items.len(),
{
    if items.len() == 0 {
        0
    } else {
        event_count(items.drop_last()) + if items.last() is Event {
            1nat
        } else {
            0nat
        }
    }
}

proof fn lemma_event_count_le(items: Seq<DayItemView>)
    ensures
        event_count(items) <= items.len(),
    decreases items.len(),
{
    if items.len() > 0 {
        lemma_event_count_le(items.drop_last());
    }
}

pub open spec fn items_view(items: Seq<DayItem>) -> Seq<DayItemView> {
    crate::query::items_view(items)
}

/// How many of `items` are events.
pub fn count_events(items: &Vec<DayItem>) -> (r: usize)
    ensures
        r == event_count(items_view(items@)),
        r <= items@.len(),
{
    let ghost iv = items_view(items@);
    let mut n: usize = 0;
    let mut i: usize = 0;
    while i < items.len()
        invariant
            i <= items.len(),
            iv == items_view(items@),
            n == event_count(iv.take(i as int)),
            n <= i,
        decreases items.len() - i,
    {
        proof {
            assert(iv.take(i + 1).drop_last() =~= iv.take(i as int));
            assert(iv.take(i + 1).last() == items@[i as int]@);
        }
        match &items[i] {
            DayItem::Event(_) => {
                n += 1;
            },
            DayItem::Task(_) => {},
        }
        i += 1;
    }
    proof {
        assert(iv.take(items.len() as int) =~= iv);
    }
    n
}

/// The header of `oca month` after the mark: `YYYY-MM · N event(s)`, then
/// `, M task(s)` when there are tasks.
pub open spec fn month_header_spec(first: int, items: Seq<DayItemView>) -> Seq<char> {
    let events = event_count(items);
    let tasks = items.len() - events;
    spec_format_date(first, "%Y-%m"@) + " · "@ + decimal(events) + " event"@ + plural_spec(events as int)
        + if tasks > 0 {
        ", "@ + decimal(tasks as nat) + " task"@ + plural_spec(tasks)
    } else {
        ""@
    }
}

pub fn month_header(first: Date, items: &Vec<DayItem>) -> (r: String)
    ensures
        r@ == month_header_spec(first@, items_view(items@)),
{
    let events = count_events(items);
    let tasks = items.len() - events;
    let mut out = chars_of(chrono_format_date(&first, "%Y-%m").as_str());
    push_str(&mut out, " · ");
    push_all(&mut out, &decimal_exec(events as u64));
    push_str(&mut out, " event");
    push_str(&mut out, plural(events));
    if tasks > 0 {
        push_str(&mut out, ", ");
        push_all(&mut out, &decimal_exec(tasks as u64));
        push_str(&mut out, " task");
        push_str(&mut out, plural(tasks));
    }
    proof {
        reveal_strlit("");
        assert(out@ =~= month_header_spec(first@, items_view(items@)));
    }
    string_of(out.as_slice())
}

/// The day heading of a group: `  Www YYYY-MM-DD`.
pub open spec fn day_heading(day: int) -> Seq<char> {
    "  "@ + spec_format_date(day, "%a %Y-%m-%d"@)
}

/// Lines of a day-grouped listing: a heading whenever the day changes, then
/// each item indented.
pub open spec fn grouped(items: Seq<DayItemView>) -> Seq<Seq<char>>
    decreases items.len(),
{
    if items.len() == 0 {
        seq![]
    } else {
        let last = items.last();
        let starts_day = items.len() == 1 || item_date(items[items.len() - 2]) != item_date(last);
        grouped(items.drop_last()) + (if starts_day {
            seq![day_heading(item_date(last))]
        } else {
            seq![]
        }) + seq!["    "@ + day_item_line_spec(last)]
    }
}

/// [`grouped`], or `  (empty)` for no items.
pub open spec fn grouped_lines_spec(items: Seq<DayItemView>) -> Seq<Seq<char>> {
    if items.len() == 0 {
        seq!["  (empty)"@]
    } else {
        grouped(items)
    }
}

/// The lines of `week`/`month`: items grouped under their day.
pub fn grouped_lines(items: &Vec<DayItem>) -> (r: Vec<String>)
    ensures
        crate::notify::strings_view(r@) == grouped_lines_spec(items_view(items@)),
{
    let ghost iv = items_view(items@);
    let mut out: Vec<String> = Vec::new();
    let mut current: Option<Date> = None;
    let mut i: usize = 0;
    while i < items.len()
        invariant
            i <= items.len(),
            iv == items_view(items@),
            crate::notify::strings_view(out@) == grouped(iv.take(i as int)),
            i == 0 ==> current is None,
            i > 0 ==> (current matches Some(d) && d@ == item_date(iv[i - 1])),
        decreases items.len() - i,
    {
        let ghost prefix = iv.take(i + 1);
        proof {
            assert(prefix.drop_last() =~= iv.take(i as int));
            assert(prefix.last() == items@[i as int]@);
            if i > 0 {
                assert(prefix[prefix.len() - 2] == iv[i - 1]);
            }
        }
        let day = items[i].date();
        let starts = match current {
            None => true,
            Some(d) => !d.is_same(&day),
        };
        if starts {
            let mut h = chars_of("  ");
            push_str(&mut h, chrono_format_date(&day, "%a %Y-%m-%d").as_str());
            let ghost before = out@;
            let hs = string_of(h.as_slice());
            out.push(hs);
            proof {
                assert(crate::notify::strings_view(out@) =~= crate::notify::strings_view(before).push(hs@));
            }
        }
        let mut l = chars_of("    ");
        push_str(&mut l, day_item_line(&items[i]).as_str());
        let ghost before = out@;
        let ls = string_of(l.as_slice());
        out.push(ls);
        proof {
            assert(crate::notify::strings_view(out@) =~= crate::notify::strings_view(before).push(ls@));
            assert(grouped(prefix) =~= crate::notify::strings_view(out@));
        }
        current = Some(day);
        i += 1;
    }
    proof {
        assert(iv.take(items.len() as int) =~= iv);
    }
    if items.len() == 0 {
        out.push(string_of(chars_of("  (empty)").as_slice()));
        proof {
            assert(crate::notify::strings_view(out@) =~= seq!["  (empty)"@]);
        }
    }
    out
}

/// One line of `oca today`: `  START  summary`, or
/// `  [ ] text  (due YYYY-MM-DD, source)`.
pub open spec fn today_line_spec(item: DayItemView) -> Seq<char> {
    match item {
        DayItemView::Event(e) => "  "@ + fmt_dt_spec(e.start) + "  "@ + e.summary,
        DayItemView::Task(t) => "  [ ] "@ + t.text + "  (due "@ + spec_format_date(t.due, "%Y-%m-%d"@)
            + ", "@ + t.source + ")"@,
    }
}

pub fn today_line(item: &DayItem) -> (r: String)
    ensures
        r@ == today_line_spec(item@),
{
    let mut out: Vec<char> = Vec::new();
    match item {
        DayItem::Event(event) => {
            push_str(&mut out, "  ");
            push_str(&mut out, fmt_dt(&event.start).as_str());
            push_str(&mut out, "  ");
            push_str(&mut out, event.summary.as_str());
        },
        DayItem::Task(task) => {
            push_str(&mut out, "  [ ] ");
            push_str(&mut out, task.text.as_str());
            push_str(&mut out, "  (due ");
            push_str(&mut out, chrono_format_date(&task.due, "%Y-%m-%d").as_str());
            push_str(&mut out, ", ");
            push_str(&mut out, task.source.as_str());
            push_str(&mut out, ")");
        },
    }
    proof {
        assert(out@ =~= today_line_spec(item@));
    }
    string_of(out.as_slice())
}

/// The minutes a flag gives, when it is a positive `u32`.
pub open spec fn minutes_word(t: Seq<char>) -> Option<u32> {
    match parse_unsigned(trim(t), u32::MAX as nat) {
        Some(n) => if n > 0 {
            Some(n as u32)
        } else {
            None
        },
        None => None,
    }
}

/// What `oca config` does with its flags: `None` when no flag is given (the
/// settings are shown), else the new launch flag, week start and window with
/// each given flag applied; the message of the first unparseable flag, in the
/// order launch, week start, minutes, is the error.
pub open spec fn config_spec(
    settings: Settings,
    launch: Option<Seq<char>>,
    week_start: Option<Seq<char>>,
    minutes: Option<Seq<char>>,
) -> Result<Option<(bool, WeekStart, u32)>, Seq<char>> {
    let l = match launch {
        Some(t) => bool_word(lower(trim(t))),
        None => Some(settings.launch_tui_on_no_args),
    };
    let w = match week_start {
        Some(t) => week_start_word(lower(trim(t))),
        None => Some(settings.week_start),
    };
    let m = match minutes {
        Some(t) => minutes_word(t),
        None => Some(settings.notify_window_minutes),
    };
    if l is None {
        Err(quoted("invalid BOOL "@, launch.unwrap(), ": use true or false"@))
    } else if w is None {
        Err(quoted("invalid DAY "@, week_start.unwrap(), ": use monday or sunday"@))
    } else if m is None {
        Err(quoted("invalid MIN "@, minutes.unwrap(), ": use a positive number of minutes"@))
    } else if launch is None && week_start is None && minutes is None {
        Ok(None)
    } else {
        Ok(Some((l.unwrap(), w.unwrap(), m.unwrap())))
    }
}

/// Apply the flags of `oca config` to `settings`.
pub fn apply_config(
    settings: &Settings,
    launch: Option<&str>,
    week_start: Option<&str>,
    minutes: Option<&str>,
) -> (r: Result<Option<Settings>, String>)
    ensures
        match r {
            Ok(None) => config_spec(*settings, opt_str(launch), opt_str(week_start), opt_str(minutes))
                == Ok::<Option<(bool, WeekStart, u32)>, Seq<char>>(None),
            Ok(Some(s)) => config_spec(*settings, opt_str(launch), opt_str(week_start), opt_str(minutes))
                == Ok::<_, Seq<char>>(Some((s.launch_tui_on_no_args, s.week_start, s.notify_window_minutes)))
                && s.ics_path@ == settings.ics_path@,
            Err(m) => config_spec(*settings, opt_str(launch), opt_str(week_start), opt_str(minutes))
                == Err::<Option<(bool, WeekStart, u32)>, Seq<char>>(m@),
        },
{
    let mut next = Settings {
        ics_path: string_of(chars_of(settings.ics_path.as_str()).as_slice()),
        launch_tui_on_no_args: settings.launch_tui_on_no_args,
        week_start: settings.week_start,
        notify_window_minutes: settings.notify_window_minutes,
    };
    let mut changed = false;
    if let Some(t) = launch {
        match parse_bool(t) {
            Ok(b) => {
                next.launch_tui_on_no_args = b;
                changed = true;
            },
            Err(m) => return Err(m),
        }
    }
    if let Some(t) = week_start {
        match parse_week_start(t) {
            Ok(w) => {
                next.week_start = w;
                changed = true;
            },
            Err(m) => return Err(m),
        }
    }
    if let Some(t) = minutes {
        match parse_minutes(t) {
            Ok(n) => {
                next.notify_window_minutes = n;
                changed = true;
            },
            Err(m) => return Err(m),
        }
    }
    if changed {
        Ok(Some(next))
    } else {
        Ok(None)
    }
}

/// `oca add` never stores an end before the start.
pub proof fn law_add_end_not_before_start(summary: Seq<char>, at: Seq<char>, end: Option<Seq<char>>)
    ensures
        add_plan_spec(summary, at, end) matches Ok((s, e, _)) ==> (e matches Some(x) ==> dt_le(s, x)),
{
}

/// `oca edit` never leaves an end before the start.
pub proof fn law_edit_end_not_before_start(es: Seq<EventView>, id: Seq<char>, args: EditArgs)
    ensures
        edit_plan_spec(es, id, args) matches Ok((_, s, e)) ==> (e matches Some(x) ==> dt_le(s, x)),
{
}

/// A week start's settings word parses back to it.
pub proof fn law_week_start_name_parses(ws: WeekStart)
    ensures
        week_start_word(lower(trim(week_start_name_spec(ws)))) == Some(ws),
{
    reveal_strlit("monday");
    reveal_strlit("sunday");
    reveal_strlit("mon");
    let w = week_start_name_spec(ws);
    assert(w.len() == 6);
    assert(!crate::text::is_ws(w[0]) && !crate::text::is_ws(w.last()));
    assert(crate::text::trim_start(w) == w);
    assert(crate::text::trim_end(w) == w);
    assert(lower(w) =~= w);
    assert(trim(w) == w);
    assert(lower(trim(w)) == w);
    match ws {
        WeekStart::Monday => {
            assert(w == "monday"@);
            assert(week_start_word(w) == Some(WeekStart::Monday));
        },
        WeekStart::Sunday => {
            assert(w == "sunday"@);
            assert(w != "monday"@) by {
                assert(w[0] != "monday"@[0]);
            }
            assert(w != "mon"@) by {
                assert(w.len() != "mon"@.len());
            }
            assert(week_start_word(w) == Some(WeekStart::Sunday));
        },
    }
}

/// `oca notify --send` fires each key at most once per run and never a key
/// sent before.
pub proof fn law_to_send_fresh(due: Seq<EventView>, sent: Seq<Seq<char>>)
    ensures
        forall|j: int| 0 <= j < unsent(due, sent).len() ==> !sent.contains(key_spec(due[#[trigger] unsent(due, sent)[j]])),
        forall|j: int, k: int|
            #![trigger unsent(due, sent)[j], unsent(due, sent)[k]]
            0 <= j < k < unsent(due, sent).len() ==> key_spec(due[unsent(due, sent)[j]]) != key_spec(due[unsent(due, sent)[k]]),
    decreases due.len(),
{
    if due.len() > 0 {
        let t = due.drop_last();
        law_to_send_fresh(t, sent);
        lemma_unsent_bounds(t, sent);
        let prev = unsent(t, sent);
        let u = unsent(due, sent);
        assert forall|j: int| 0 <= j < prev.len() implies due[#[trigger] prev[j]] == t[prev[j]] by {}
        assert forall|j: int| 0 <= j < u.len() implies !sent.contains(key_spec(due[#[trigger] u[j]])) by {
            if j < prev.len() {
                assert(u[j] == prev[j]);
            } else {
                assert(u[j] == due.len() - 1);
            }
        }
        assert forall|j: int, k: int|
            #![trigger u[j], u[k]]
            0 <= j < k < u.len() implies key_spec(due[u[j]]) != key_spec(due[u[k]]) by {
            if k < prev.len() {
                assert(u[j] == prev[j] && u[k] == prev[k]);
            } else {
                assert(u[k] == due.len() - 1);
                assert(u[j] == prev[j]);
                assert(due[due.len() - 1] == due.last());
                if key_spec(due[prev[j]]) == key_spec(due.last()) {
                    assert(key_spec(due[prev[j]]) == key_spec(due.last()));
                }
            }
        }
    }
}


/// The keys `oca notify --send` fires, in order.
pub open spec fn fired_keys(due: Seq<EventView>, sent: Seq<Seq<char>>) -> Seq<Seq<char>> {
    unsent(due, sent).map_values(|i: int| key_spec(due[i]))
}

/// Every due key was sent before or is fired in this run.
proof fn lemma_due_covered(due: Seq<EventView>, sent: Seq<Seq<char>>)
    ensures
        forall|i: int|
            0 <= i < due.len() ==> sent.contains(key_spec(#[trigger] due[i])) || fired_keys(due, sent).contains(
                key_spec(due[i]),
            ),
    decreases due.len(),
{
    if due.len() > 0 {
        let t = due.drop_last();
        lemma_due_covered(t, sent);
        lemma_unsent_bounds(t, sent);
        lemma_unsent_bounds(due, sent);
        let prev = unsent(t, sent);
        let u = unsent(due, sent);
        let f = fired_keys(due, sent);
        let ft = fired_keys(t, sent);
        assert forall|j: int| 0 <= j < prev.len() implies u[j] == prev[j] && f[j] == ft[j] by {
            assert(due[prev[j]] == t[prev[j]]);
        }
        assert forall|i: int| 0 <= i < due.len() implies sent.contains(key_spec(#[trigger] due[i])) || f.contains(
            key_spec(due[i]),
        ) by {
            let k = key_spec(due[i]);
            if i < t.len() {
                assert(due[i] == t[i]);
                if ft.contains(k) {
                    let j = choose|j: int| 0 <= j < ft.len() && ft[j] == k;
                    assert(f[j] == k);
                }
            } else {
                assert(due[i] == due.last());
                if !sent.contains(k) {
                    if exists|j: int| 0 <= j < prev.len() && #[trigger] key_spec(due[prev[j]]) == k {
                        let j = choose|j: int| 0 <= j < prev.len() && #[trigger] key_spec(due[prev[j]]) == k;
                        assert(f[j] == k);
                    } else {
                        assert(u == prev.push(due.len() - 1));
                        assert(f[prev.len() as int] == k);
                    }
                }
            }
        }
    }
}

/// Nothing is left to send when every due key was sent.
proof fn lemma_all_sent(due: Seq<EventView>, sent: Seq<Seq<char>>)
    requires
        forall|i: int| 0 <= i < due.len() ==> sent.contains(key_spec(#[trigger] due[i])),
    ensures
        unsent(due, sent) == Seq::<int>::empty(),
    decreases due.len(),
{
    if due.len() > 0 {
        let t = due.drop_last();
        assert forall|i: int| 0 <= i < t.len() implies sent.contains(key_spec(#[trigger] t[i])) by {
            assert(t[i] == due[i]);
        }
        lemma_all_sent(t, sent);
        assert(sent.contains(key_spec(due[due.len() - 1])));
    }
}

/// A second `oca notify --send` over the same due occurrences, reading the
/// state file the first run wrote, sends nothing: the first run saves the
/// keys it read plus the keys it fired (`all`), and every due key reads
/// back, provided the keys are single lines without surrounding blanks and
/// every due key survives pruning at the cutoff.
pub proof fn law_second_send_sends_nothing(
    due: Seq<EventView>,
    sent: Seq<String>,
    all: Seq<String>,
    cutoff: (int, int, int),
)
    requires
        crate::notify::strings_view(all) == crate::notify::strings_view(sent) + fired_keys(
            due,
            crate::notify::strings_view(sent),
        ),
        forall|i: int| 0 <= i < all.len() ==> crate::notify::line_key(#[trigger] all[i]@),
        forall|i: int| 0 <= i < due.len() ==> crate::notify::keeps_key(key_spec(#[trigger] due[i]), cutoff),
    ensures
        unsent(
            due,
            crate::notify::kept_lines(crate::text::lines(crate::notify::notified_text_spec(all, cutoff))),
        ) == Seq::<int>::empty(),
{
    let sv = crate::notify::strings_view(sent);
    let av = crate::notify::strings_view(all);
    let back = crate::notify::kept_lines(crate::text::lines(crate::notify::notified_text_spec(all, cutoff)));
    crate::notify::law_notified_roundtrip(all, cutoff);
    lemma_due_covered(due, sv);
    let f = fired_keys(due, sv);
    assert forall|i: int| 0 <= i < due.len() implies back.contains(key_spec(#[trigger] due[i])) by {
        let k = key_spec(due[i]);
        if sv.contains(k) {
            let j = choose|j: int| 0 <= j < sv.len() && sv[j] == k;
            assert(av[j] == k);
        } else {
            assert(f.contains(k));
            let j = choose|j: int| 0 <= j < f.len() && f[j] == k;
            assert(av[sv.len() + j] == k);
        }
        assert(av.contains(k));
        assert(crate::notify::keeps_key(k, cutoff));
    }
    lemma_all_sent(due, back);
}


/// `oca config` changes all or nothing: it fails exactly when some given
/// flag does not parse, and otherwise applies every given flag and keeps
/// each setting whose flag is absent.
pub proof fn law_config_all_or_nothing(
    settings: Settings,
    launch: Option<Seq<char>>,
    week_start: Option<Seq<char>>,
    minutes: Option<Seq<char>>,
)
    ensures
        config_spec(settings, launch, week_start, minutes) is Err <==> ((launch matches Some(t) && bool_word(
            lower(trim(t)),
        ) is None) || (week_start matches Some(t) && week_start_word(lower(trim(t))) is None) || (
        minutes matches Some(t) && minutes_word(t) is None)),
        config_spec(settings, launch, week_start, minutes) matches Ok(Some(c)) ==> {
            &&& (launch matches Some(t) ==> bool_word(lower(trim(t))) == Some(c.0))
            &&& (launch is None ==> c.0 == settings.launch_tui_on_no_args)
            &&& (week_start matches Some(t) ==> week_start_word(lower(trim(t))) == Some(c.1))
            &&& (week_start is None ==> c.1 == settings.week_start)
            &&& (minutes matches Some(t) ==> minutes_word(t) == Some(c.2))
            &&& (minutes is None ==> c.2 == settings.notify_window_minutes)
        },
{
}
} // verus!
