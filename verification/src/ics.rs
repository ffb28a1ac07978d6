//! Minimal ICS (RFC 5545 subset): VEVENT with UID/DTSTART/DTEND/SUMMARY/DESCRIPTION/RRULE.
//!
//! Only the properties the calendar interprets are parsed into typed fields;
//! every other line inside a VEVENT (including nested components such as
//! VALARM) is kept verbatim in [`Event::extra`] and written back by [`to_ics`],
//! so files from other calendars survive a load/save cycle.
use vstd::prelude::*;
use crate::date::{
    Date, DateTime, chrono_parse_date, chrono_parse_datetime, chrono_format_datetime,
    spec_parse_date, spec_parse_datetime, spec_format_datetime, is_stamp, is_date_stamp, four_digit_year,
};
use crate::error::Error;
use crate::text::{
    trim_end_char, trim, trimmed, upper, upper_exec, split_char, split_char_exec, eq_ignore_case,
    eq_ignore_case_exec, find_char, find_char_exec, before_char, replace, replace_exec,
    chars_of, string_of, slice, same_text, contains_char, views,
};

verus! {

/// A property line as `(name-with-params, value)`.
pub type Prop = (Seq<char>, Seq<char>);

/// An event as plain values.
#[verifier::ext_equal]
pub struct EventView {
    pub uid: Seq<char>,
    pub summary: Seq<char>,
    pub description: Seq<char>,
    pub start: (int, int, int),
    pub end: Option<(int, int, int)>,
    pub all_day: bool,
    pub rrule: Option<Seq<char>>,
    pub extra: Seq<Prop>,
    pub start_raw: Option<Prop>,
    pub end_raw: Option<Prop>,
}

/// One calendar event.
#[derive(Debug, Clone, PartialEq, Eq)]
pub struct Event {
    pub uid: String,
    pub summary: String,
    pub description: String,
    pub start: DateTime,
    /// End of the event. For `all_day` events this follows ICS semantics and is
    /// **exclusive** (the day after the last day); see [`Event::end_or_start`].
    pub end: Option<DateTime>,
    /// Date-only event (`DTSTART;VALUE=DATE`).
    pub all_day: bool,
    /// Raw `RRULE` value (e.g. `FREQ=WEEKLY;COUNT=4`), expanded by `query`.
    pub rrule: Option<String>,
    /// Uninterpreted VEVENT lines as `(name-with-params, value)`, in file order.
    /// Nested components are kept line by line (`("BEGIN", "VALARM")` … `("END", "VALARM")`).
    pub extra: Vec<(String, String)>,
    /// Original `DTSTART` line as `(name-with-params, raw value)`, re-emitted
    /// verbatim while it still matches `start`.
    pub start_raw: Option<(String, String)>,
    /// Original `DTEND` line, same rules as `start_raw`.
    pub end_raw: Option<(String, String)>,
}

pub open spec fn pair_view(p: (String, String)) -> Prop {
    (p.0@, p.1@)
}

pub open spec fn opt_text(o: Option<String>) -> Option<Seq<char>> {
    match o {
        Some(s) => Some(s@),
        None => None,
    }
}

pub open spec fn opt_pair(o: Option<(String, String)>) -> Option<Prop> {
    match o {
        Some(p) => Some(pair_view(p)),
        None => None,
    }
}

pub open spec fn opt_dt(o: Option<DateTime>) -> Option<(int, int, int)> {
    match o {
        Some(d) => Some(d@),
        None => None,
    }
}

impl View for Event {
    type V = EventView;

    open spec fn view(&self) -> EventView {
        EventView {
            uid: self.uid@,
            summary: self.summary@,
            description: self.description@,
            start: self.start@,
            end: opt_dt(self.end),
            all_day: self.all_day,
            rrule: opt_text(self.rrule),
            extra: self.extra@.map_values(|p: (String, String)| pair_view(p)),
            start_raw: opt_pair(self.start_raw),
            end_raw: opt_pair(self.end_raw),
        }
    }
}

pub open spec fn events_view(es: Seq<Event>) -> Seq<EventView> {
    es.map_values(|e: Event| e@)
}

pub open spec fn or_else<T>(a: Option<T>, b: Option<T>) -> Option<T> {
    match a {
        Some(x) => Some(x),
        None => b,
    }
}

/// `s` without one trailing `Z` (the UTC designator).
pub open spec fn strip_z(s: Seq<char>) -> Seq<char> {
    if s.len() > 0 && s.last() == 'Z' {
        s.drop_last()
    } else {
        s
    }
}

/// The text a datetime value is parsed from: trimmed, one trailing `Z` dropped.
pub open spec fn dt_value(raw: Seq<char>) -> Seq<char> {
    strip_z(trim(raw))
}

/// A date-only pattern: the date at midnight, else what the datetime parser gives.
pub open spec fn try_date(v: Seq<char>, pattern: Seq<char>) -> Option<(int, int, int)> {
    match spec_parse_date(v, pattern) {
        Some(d) => Some((d, 0int, 0int)),
        None => spec_parse_datetime(v, pattern),
    }
}

/// [`parse_dt`]: the first of the accepted shapes that parses.
pub open spec fn parse_dt_spec(raw: Seq<char>) -> Option<(int, int, int)> {
    let v = dt_value(raw);
    or_else(
        spec_parse_datetime(v, "%Y%m%dT%H%M%S"@),
        or_else(
            spec_parse_datetime(v, "%Y%m%dT%H%M"@),
            or_else(
                spec_parse_datetime(v, "%Y-%m-%dT%H:%M:%S"@),
                or_else(
                    spec_parse_datetime(v, "%Y-%m-%dT%H:%M"@),
                    or_else(
                        spec_parse_datetime(v, "%Y-%m-%d %H:%M"@),
                        or_else(try_date(v, "%Y%m%d"@), try_date(v, "%Y-%m-%d"@)),
                    ),
                ),
            ),
        ),
    )
}

/// [`is_date_only`]: no `T`, space or `:` in the trimmed value.
pub open spec fn is_date_only_spec(raw: Seq<char>) -> bool {
    let v = dt_value(raw);
    !v.contains('T') && !v.contains(' ') && !v.contains(':')
}

/// The character an ICS escape `\c` stands for: a newline for `n` or `N`,
/// the character itself for `,`, `;` and `\`; `None` for any other `c`.
pub open spec fn escaped_char(c: char) -> Option<char> {
    if c == 'n' || c == 'N' {
        Some('\n')
    } else if c == ',' || c == ';' || c == '\\' {
        Some(c)
    } else {
        None
    }
}

/// ICS text escapes decoded in one left-to-right pass, so an escaped
/// backslash is read before what follows it; any other backslash stays.
pub open spec fn unescape(s: Seq<char>) -> Seq<char>
    decreases s.len(),
{
    if s.len() == 0 {
        seq![]
    } else if s.len() >= 2 && s[0] == '\\' && escaped_char(s[1]) is Some {
        seq![escaped_char(s[1])->0] + unescape(s.skip(2))
    } else {
        seq![s[0]] + unescape(s.skip(1))
    }
}

/// ICS text escapes applied, in this order: `\`, newline, `,`, `;`.
pub open spec fn escape(s: Seq<char>) -> Seq<char> {
    replace(
        replace(
            replace(replace(s, seq!['\\'], seq!['\\', '\\']), seq!['\n'], seq!['\\', 'n']),
            seq![','],
            seq!['\\', ','],
        ),
        seq![';'],
        seq!['\\', ';'],
    )
}

/// `KEY;PARAM=X:value` split at the first `:` into (trimmed `KEY;PARAM=X`, `value`).
pub open spec fn split_prop_spec(line: Seq<char>) -> Option<Prop> {
    match find_char(line, ':') {
        None => None,
        Some(i) => Some((trim(line.take(i)), line.skip(i + 1))),
    }
}

/// Property name (before any `;PARAM`), trimmed and upper-cased.
pub open spec fn prop_name(left: Seq<char>) -> Seq<char> {
    upper(trim(before_char(left, ';')))
}

/// Some `;`-separated parameter after the name equals `param`, ignoring ASCII case.
pub open spec fn has_param(left: Seq<char>, param: Seq<char>) -> bool {
    let pieces = split_char(left, ';');
    exists|i: int| 1 <= i < pieces.len() && eq_ignore_case(trim(#[trigger] pieces[i]), param)
}

pub open spec fn depth_after(depth: nat, name: Seq<char>) -> nat {
    if name == "BEGIN"@ {
        depth + 1
    } else if name == "END"@ {
        if depth > 0 {
            (depth - 1) as nat
        } else {
            0
        }
    } else {
        depth
    }
}

/// First top-level property named `name`, nested components skipped, with
/// `depth` components open before `props`.
pub open spec fn find_prop_from(props: Seq<Prop>, name: Seq<char>, depth: nat) -> Option<Prop>
    decreases props.len(),
{
    if props.len() == 0 {
        None
    } else {
        let cur = prop_name(props[0].0);
        if cur == "BEGIN"@ || cur == "END"@ {
            find_prop_from(props.drop_first(), name, depth_after(depth, cur))
        } else if depth == 0 && cur == name {
            Some(props[0])
        } else {
            find_prop_from(props.drop_first(), name, depth)
        }
    }
}

pub open spec fn find_prop(props: Seq<Prop>, name: Seq<char>) -> Option<Prop> {
    find_prop_from(props, name, 0)
}

pub open spec fn prop_value(props: Seq<Prop>, name: Seq<char>) -> Option<Seq<char>> {
    match find_prop(props, name) {
        Some(p) => Some(p.1),
        None => None,
    }
}

/// The property names the calendar interprets.
pub open spec fn known(name: Seq<char>) -> bool {
    ||| name == "UID"@
    ||| name == "DTSTART"@
    ||| name == "DTEND"@
    ||| name == "SUMMARY"@
    ||| name == "DESCRIPTION"@
    ||| name == "RRULE"@
}

/// The lines kept verbatim: those inside nested components, an unparsed
/// `DTEND` (when `end_none`), and every property not interpreted.
pub open spec fn extra_from(props: Seq<Prop>, depth: nat, end_none: bool) -> Seq<Prop>
    decreases props.len(),
{
    if props.len() == 0 {
        seq![]
    } else {
        let name = prop_name(props[0].0);
        let keep = depth > 0 || (name == "DTEND"@ && end_none) || !known(name);
        let rest = extra_from(props.drop_first(), depth_after(depth, name), end_none);
        if keep {
            seq![props[0]] + rest
        } else {
            rest
        }
    }
}

/// The event a VEVENT's property lines describe, or `None` without a
/// parseable top-level `DTSTART`.
pub open spec fn build_event_spec(props: Seq<Prop>) -> Option<EventView> {
    match find_prop(props, "DTSTART"@) {
        None => None,
        Some(start_line) => match parse_dt_spec(start_line.1) {
            None => None,
            Some(start) => {
                let end_line = find_prop(props, "DTEND"@);
                let end = match end_line {
                    Some(l) => parse_dt_spec(l.1),
                    None => None,
                };
                Some(
                    EventView {
                        uid: match prop_value(props, "UID"@) {
                            Some(v) => v,
                            None => seq![],
                        },
                        summary: match prop_value(props, "SUMMARY"@) {
                            Some(v) => unescape(v),
                            None => seq![],
                        },
                        description: match prop_value(props, "DESCRIPTION"@) {
                            Some(v) => unescape(v),
                            None => seq![],
                        },
                        start,
                        end,
                        all_day: has_param(start_line.0, "VALUE=DATE"@) || is_date_only_spec(
                            start_line.1,
                        ),
                        rrule: prop_value(props, "RRULE"@),
                        extra: extra_from(props, 0, end is None),
                        start_raw: Some(start_line),
                        end_raw: if end is Some {
                            end_line
                        } else {
                            None
                        },
                    },
                )
            },
        },
    }
}


/// `value` parsed in the first accepted shape, for a value already trimmed
/// and without its `Z`.
fn parse_value(value: &str) -> (r: Option<DateTime>)
    ensures
        opt_dt(r) == or_else(
            spec_parse_datetime(value@, "%Y%m%dT%H%M%S"@),
            or_else(
                spec_parse_datetime(value@, "%Y%m%dT%H%M"@),
                or_else(
                    spec_parse_datetime(value@, "%Y-%m-%dT%H:%M:%S"@),
                    or_else(
                        spec_parse_datetime(value@, "%Y-%m-%dT%H:%M"@),
                        or_else(
                            spec_parse_datetime(value@, "%Y-%m-%d %H:%M"@),
                            or_else(try_date(value@, "%Y%m%d"@), try_date(value@, "%Y-%m-%d"@)),
                        ),
                    ),
                ),
            ),
        ),
{
    if let Some(x) = chrono_parse_datetime(value, "%Y%m%dT%H%M%S") {
        return Some(x);
    }
    if let Some(x) = chrono_parse_datetime(value, "%Y%m%dT%H%M") {
        return Some(x);
    }
    if let Some(x) = chrono_parse_datetime(value, "%Y-%m-%dT%H:%M:%S") {
        return Some(x);
    }
    if let Some(x) = chrono_parse_datetime(value, "%Y-%m-%dT%H:%M") {
        return Some(x);
    }
    if let Some(x) = chrono_parse_datetime(value, "%Y-%m-%d %H:%M") {
        return Some(x);
    }
    if let Some(d) = chrono_parse_date(value, "%Y%m%d") {
        return Some(DateTime::midnight(d));
    }
    if let Some(x) = chrono_parse_datetime(value, "%Y%m%d") {
        return Some(x);
    }
    if let Some(d) = chrono_parse_date(value, "%Y-%m-%d") {
        return Some(DateTime::midnight(d));
    }
    chrono_parse_datetime(value, "%Y-%m-%d")
}

/// Bounds of `dt_value(v)` inside `v`.
fn value_bounds(v: &Vec<char>) -> (r: (usize, usize))
    ensures
        r.0 <= r.1 <= v.len(),
        v@.subrange(r.0 as int, r.1 as int) == dt_value(v@),
{
    let (a, b) = crate::text::trim_bounds(v, 0, v.len());
    proof {
        assert(v@.subrange(0, v.len() as int) == v@);
    }
    let ghost t = v@.subrange(a as int, b as int);
    if b > a && v[b - 1] == 'Z' {
        proof {
            assert(t.drop_last() == v@.subrange(a as int, b - 1));
        }
        (a, b - 1)
    } else {
        (a, b)
    }
}

/// [`parse_dt`] over characters.
pub fn parse_dt_chars(v: &Vec<char>) -> (r: Option<DateTime>)
    ensures
        opt_dt(r) == parse_dt_spec(v@),
{
    let (a, b) = value_bounds(v);
    let value = string_of(slice(v, a, b).as_slice());
    parse_value(value.as_str())
}

/// Parse a datetime in any accepted shape:
/// `YYYYMMDDTHHMMSS`, `YYYYMMDDTHHMM`, `YYYY-MM-DDTHH:MM:SS`, `YYYY-MM-DDTHH:MM`,
/// `YYYY-MM-DD HH:MM`, `YYYYMMDD`, `YYYY-MM-DD` (midnight); surrounding
/// whitespace and one trailing `Z` are ignored.
pub fn parse_dt(raw: &str) -> (r: Result<DateTime, Error>)
    ensures
        match r {
            Ok(dt) => parse_dt_spec(raw@) == Some(dt@),
            Err(e) => parse_dt_spec(raw@) is None && (e matches Error::InvalidDate(m) && m@ == raw@),
        },
{
    let v = chars_of(raw);
    match parse_dt_chars(&v) {
        Some(dt) => Ok(dt),
        None => Err(Error::InvalidDate(string_of(v.as_slice()))),
    }
}

/// [`is_date_only`] over characters.
pub fn is_date_only_chars(v: &Vec<char>) -> (r: bool)
    ensures
        r == is_date_only_spec(v@),
{
    let (a, b) = value_bounds(v);
    let value = slice(v, a, b);
    !contains_char(&value, 'T') && !contains_char(&value, ' ') && !contains_char(&value, ':')
}

/// True when `raw` is a date-only value (`YYYYMMDD` / `YYYY-MM-DD`).
pub fn is_date_only(raw: &str) -> (r: bool)
    ensures
        r == is_date_only_spec(raw@),
{
    let v = chars_of(raw);
    is_date_only_chars(&v)
}

/// Serialize back to compact ICS local time: `YYYYMMDDTHHMMSS`. For a year
/// from 0 to 9999 and whole seconds, the text parses back to `value`.
pub fn format_dt(value: &DateTime) -> (r: String)
    ensures
        r@ == spec_format_datetime(value@, "%Y%m%dT%H%M%S"@),
        four_digit_year(value@.0) && value@.2 == 0 ==> is_stamp(r@) && spec_parse_datetime(
            r@,
            "%Y%m%dT%H%M%S"@,
        ) == Some(value@),
{
    chrono_format_datetime(value, "%Y%m%dT%H%M%S")
}

/// Serialize as an ICS date: `YYYYMMDD`. For a year from 0 to 9999 the text
/// reads back as that date through [`parse_dt`].
pub fn format_date(value: &DateTime) -> (r: String)
    ensures
        r@ == spec_format_datetime(value@, "%Y%m%d"@),
        four_digit_year(value@.0) ==> date_stamp_reads_back(r@, value@.0),
{
    chrono_format_datetime(value, "%Y%m%d")
}

/// ICS text escapes decoded.
pub fn unescape_chars(v: &Vec<char>) -> (r: Vec<char>)
    ensures
        r@ == unescape(v@),
{
    let mut out: Vec<char> = Vec::new();
    let mut i: usize = 0;
    assert(v@.skip(0) =~= v@);
    while i < v.len()
        invariant
            i <= v.len(),
            unescape(v@) == out@ + unescape(v@.skip(i as int)),
        decreases v.len() - i,
    {
        let ghost s = v@.skip(i as int);
        let c = v[i];
        let next = if i + 1 < v.len() {
            Some(v[i + 1])
        } else {
            None
        };
        let decoded = match next {
            Some('n') | Some('N') => Some('\n'),
            Some(',') => Some(','),
            Some(';') => Some(';'),
            Some('\\') => Some('\\'),
            _ => None,
        };
        match decoded {
            Some(d) if c == '\\' => {
                proof {
                    assert(s[0] == c && s[1] == v@[i + 1]);
                    assert(s.skip(2) =~= v@.skip(i + 2));
                    assert(out@.push(d) + unescape(v@.skip(i + 2)) =~= out@ + (seq![d] + unescape(
                        v@.skip(i + 2),
                    )));
                }
                out.push(d);
                i += 2;
            },
            _ => {
                proof {
                    assert(s[0] == c);
                    assert(s.skip(1) =~= v@.skip(i + 1));
                    assert(out@.push(c) + unescape(v@.skip(i + 1)) =~= out@ + (seq![c] + unescape(
                        v@.skip(i + 1),
                    )));
                }
                out.push(c);
                i += 1;
            },
        }
    }
    assert(v@.skip(i as int) =~= Seq::<char>::empty());
    assert(out@ + Seq::<char>::empty() =~= out@);
    out
}

/// ICS text escapes applied.
pub fn escape_chars(v: &Vec<char>) -> (r: Vec<char>)
    ensures
        r@ == escape(v@),
{
    let (p1, r1) = (vec!['\\'], vec!['\\', '\\']);
    let (p2, r2) = (vec!['\n'], vec!['\\', 'n']);
    let (p3, r3) = (vec![','], vec!['\\', ',']);
    let (p4, r4) = (vec![';'], vec!['\\', ';']);
    assert(p1@ == seq!['\\'] && r1@ == seq!['\\', '\\']);
    assert(p2@ == seq!['\n'] && r2@ == seq!['\\', 'n']);
    assert(p3@ == seq![','] && r3@ == seq!['\\', ',']);
    assert(p4@ == seq![';'] && r4@ == seq!['\\', ';']);
    let a = replace_exec(v, &p1, &r1);
    let b = replace_exec(&a, &p2, &r2);
    let c = replace_exec(&b, &p3, &r3);
    replace_exec(&c, &p4, &r4)
}

/// Split `KEY;PARAM=X:value` into (`KEY;PARAM=X`, `value`).
pub fn split_prop(line: &Vec<char>) -> (r: Option<(Vec<char>, Vec<char>)>)
    ensures
        match r {
            Some(p) => split_prop_spec(line@) == Some((p.0@, p.1@)),
            None => split_prop_spec(line@) is None,
        },
{
    match find_char_exec(line, ':') {
        None => None,
        Some(colon) => {
            proof {
                crate::text::lemma_find_char(line@, ':');
                assert(find_char(line@, ':') == Some(colon as int));
                assert(colon < line.len());
            }
            let left = trimmed(line, 0, colon);
            let value = slice(line, colon + 1, line.len());
            proof {
                assert(line@.subrange(0, colon as int) == line@.take(colon as int));
                assert(line@.subrange(colon + 1, line.len() as int) == line@.skip(colon + 1));
            }
            Some((left, value))
        },
    }
}

/// Property name (before any `;PARAM`), upper-cased.
pub fn prop_name_exec(left: &Vec<char>) -> (r: Vec<char>)
    ensures
        r@ == prop_name(left@),
{
    let end = match find_char_exec(left, ';') {
        Some(i) => {
            proof {
                crate::text::lemma_find_char(left@, ';');
                assert(left@.subrange(0, i as int) == left@.take(i as int));
            }
            i
        },
        None => {
            proof {
                assert(left@.subrange(0, left.len() as int) == left@);
            }
            left.len()
        },
    };
    let name = trimmed(left, 0, end);
    upper_exec(&name)
}

/// Some parameter after the name equals `param`, ignoring ASCII case.
pub fn has_param_exec(left: &Vec<char>, param: &Vec<char>) -> (r: bool)
    ensures
        r == has_param(left@, param@),
{
    let pieces = split_char_exec(left, ';');
    let ghost ps = split_char(left@, ';');
    let mut i: usize = 1;
    while i < pieces.len()
        invariant
            views(pieces@) == ps,
            ps == split_char(left@, ';'),
            1 <= i,
            forall|j: int| 1 <= j < i && j < ps.len() ==> !eq_ignore_case(trim(#[trigger] ps[j]), param@),
        decreases pieces.len() - i,
    {
        proof {
            assert(ps[i as int] == pieces@[i as int]@);
        }
        let t = trimmed(&pieces[i], 0, pieces[i].len());
        proof {
            assert(pieces@[i as int]@.subrange(0, pieces@[i as int]@.len() as int) == pieces@[i as int]@);
        }
        if eq_ignore_case_exec(&t, param) {
            return true;
        }
        i += 1;
    }
    false
}


/// Property lines as plain values.
pub open spec fn props_view(ps: Seq<(Vec<char>, Vec<char>)>) -> Seq<Prop> {
    ps.map_values(|p: (Vec<char>, Vec<char>)| (p.0@, p.1@))
}

/// Index of the first top-level property named `name`.
pub fn find_prop_exec(props: &Vec<(Vec<char>, Vec<char>)>, name: &Vec<char>) -> (r: Option<usize>)
    ensures
        match r {
            Some(i) => i < props.len() && find_prop(props_view(props@), name@) == Some(
                props_view(props@)[i as int],
            ),
            None => find_prop(props_view(props@), name@) is None,
        },
{
    let ghost pv = props_view(props@);
    let begin = chars_of("BEGIN");
    let end = chars_of("END");
    let mut depth: usize = 0;
    let mut i: usize = 0;
    proof {
        assert(pv.skip(0) == pv);
    }
    while i < props.len()
        invariant
            pv == props_view(props@),
            begin@ == "BEGIN"@,
            end@ == "END"@,
            i <= props.len(),
            depth <= i,
            find_prop(pv, name@) == find_prop_from(pv.skip(i as int), name@, depth as nat),
        decreases props.len() - i,
    {
        proof {
            assert(pv.skip(i as int)[0] == pv[i as int]);
            assert(pv.skip(i as int).drop_first() == pv.skip(i + 1));
        }
        let cur = prop_name_exec(&props[i].0);
        if same_text(&cur, &begin) {
            depth += 1;
        } else if same_text(&cur, &end) {
            if depth > 0 {
                depth -= 1;
            }
        } else if depth == 0 && same_text(&cur, name) {
            return Some(i);
        }
        i += 1;
    }
    None
}

/// The value of the first top-level property named `name`.
pub fn prop_exec(props: &Vec<(Vec<char>, Vec<char>)>, name: &Vec<char>) -> (r: Option<Vec<char>>)
    ensures
        match r {
            Some(v) => prop_value(props_view(props@), name@) == Some(v@),
            None => prop_value(props_view(props@), name@) is None,
        },
{
    match find_prop_exec(props, name) {
        Some(i) => Some(slice(&props[i].1, 0, props[i].1.len())),
        None => None,
    }
}

/// A name the calendar interprets.
fn is_known(name: &Vec<char>) -> (r: bool)
    ensures
        r == known(name@),
{
    same_text(name, &chars_of("UID")) || same_text(name, &chars_of("DTSTART")) || same_text(
        name,
        &chars_of("DTEND"),
    ) || same_text(name, &chars_of("SUMMARY")) || same_text(name, &chars_of("DESCRIPTION"))
        || same_text(name, &chars_of("RRULE"))
}

pub open spec fn pairs_view(ps: Seq<(String, String)>) -> Seq<Prop> {
    ps.map_values(|p: (String, String)| pair_view(p))
}

/// The lines kept verbatim (see [`extra_from`]).
fn extra_exec(props: &Vec<(Vec<char>, Vec<char>)>, end_none: bool) -> (r: Vec<(String, String)>)
    ensures
        pairs_view(r@) == extra_from(props_view(props@), 0, end_none),
{
    let ghost pv = props_view(props@);
    let begin = chars_of("BEGIN");
    let end = chars_of("END");
    let dtend = chars_of("DTEND");
    let mut out: Vec<(String, String)> = Vec::new();
    let mut depth: usize = 0;
    let mut i: usize = 0;
    proof {
        assert(pv.skip(0) == pv);
    }
    while i < props.len()
        invariant
            pv == props_view(props@),
            begin@ == "BEGIN"@,
            end@ == "END"@,
            dtend@ == "DTEND"@,
            i <= props.len(),
            depth <= i,
            extra_from(pv, 0, end_none) == pairs_view(out@) + extra_from(
                pv.skip(i as int),
                depth as nat,
                end_none,
            ),
        decreases props.len() - i,
    {
        proof {
            assert(pv.skip(i as int)[0] == pv[i as int]);
            assert(pv.skip(i as int).drop_first() == pv.skip(i + 1));
        }
        let name = prop_name_exec(&props[i].0);
        let keep = depth > 0 || (same_text(&name, &dtend) && end_none) || !is_known(&name);
        if keep {
            let pair = (string_of(props[i].0.as_slice()), string_of(props[i].1.as_slice()));
            out.push(pair);
            proof {
                assert(pairs_view(out@) == pairs_view(out@.drop_last()) + seq![pair_view(pair)]);
            }
        }
        if same_text(&name, &begin) {
            depth += 1;
        } else if same_text(&name, &end) {
            if depth > 0 {
                depth -= 1;
            }
        }
        i += 1;
    }
    proof {
        assert(pv.skip(props.len() as int) == Seq::<Prop>::empty());
        assert(pairs_view(out@) + Seq::<Prop>::empty() == pairs_view(out@));
    }
    out
}

/// The event a VEVENT's property lines describe (see [`build_event_spec`]).
pub fn build_event(props: &Vec<(Vec<char>, Vec<char>)>) -> (r: Option<Event>)
    ensures
        match r {
            Some(e) => build_event_spec(props_view(props@)) == Some(e@),
            None => build_event_spec(props_view(props@)) is None,
        },
{
    let ghost pv = props_view(props@);
    let si = find_prop_exec(props, &chars_of("DTSTART"))?;
    let start_line = &props[si];
    let start = parse_dt_chars(&start_line.1)?;
    let all_day = has_param_exec(&start_line.0, &chars_of("VALUE=DATE")) || is_date_only_chars(
        &start_line.1,
    );
    let end_index = find_prop_exec(props, &chars_of("DTEND"));
    let end = match end_index {
        Some(k) => parse_dt_chars(&props[k].1),
        None => None,
    };
    let end_raw = match end {
        Some(_) => match end_index {
            Some(k) => Some((string_of(props[k].0.as_slice()), string_of(props[k].1.as_slice()))),
            None => None,
        },
        None => None,
    };
    let uid = match prop_exec(props, &chars_of("UID")) {
        Some(v) => string_of(v.as_slice()),
        None => string_of(Vec::<char>::new().as_slice()),
    };
    let summary = match prop_exec(props, &chars_of("SUMMARY")) {
        Some(v) => string_of(unescape_chars(&v).as_slice()),
        None => string_of(Vec::<char>::new().as_slice()),
    };
    let description = match prop_exec(props, &chars_of("DESCRIPTION")) {
        Some(v) => string_of(unescape_chars(&v).as_slice()),
        None => string_of(Vec::<char>::new().as_slice()),
    };
    let rrule = match prop_exec(props, &chars_of("RRULE")) {
        Some(v) => Some(string_of(v.as_slice())),
        None => None,
    };
    let extra = extra_exec(props, end.is_none());
    let start_raw = Some((string_of(start_line.0.as_slice()), string_of(start_line.1.as_slice())));
    let e = Event {
        uid,
        summary,
        description,
        start,
        end,
        all_day,
        rrule,
        extra,
        start_raw,
        end_raw,
    };
    proof {
        assert(e@ =~= build_event_spec(pv)->0);
    }
    Some(e)
}


/// Logical lines: each raw line without trailing `\r`s; a line starting with
/// a space or tab continues the previous logical line (its first character
/// dropped).
pub open spec fn unfold(ls: Seq<Seq<char>>) -> Seq<Seq<char>>
    decreases ls.len(),
{
    if ls.len() == 0 {
        seq![]
    } else {
        let acc = unfold(ls.drop_last());
        let l = trim_end_char(ls.last(), '\r');
        if l.len() > 0 && (l[0] == ' ' || l[0] == '\t') && acc.len() > 0 {
            acc.update(acc.len() - 1, acc.last() + l.drop_first())
        } else {
            acc.push(l)
        }
    }
}

/// The state of the VEVENT scanner: events found, the property lines of the
/// open VEVENT, and the depth of nested components open inside it.
pub struct ParseState {
    pub events: Seq<EventView>,
    pub current: Option<Seq<Prop>>,
    pub depth: nat,
}

/// One logical line through the scanner.
pub open spec fn step(st: ParseState, line: Seq<char>) -> ParseState {
    if line == "BEGIN:VEVENT"@ && st.current is None {
        ParseState { current: Some(seq![]), ..st }
    } else if line == "END:VEVENT"@ && st.depth == 0 {
        match st.current {
            Some(props) => match build_event_spec(props) {
                Some(e) => ParseState { events: st.events.push(e), current: None, depth: st.depth },
                None => ParseState { current: None, ..st },
            },
            None => st,
        }
    } else {
        match st.current {
            Some(props) => match split_prop_spec(line) {
                Some(p) => ParseState {
                    events: st.events,
                    current: Some(props.push(p)),
                    depth: depth_after(st.depth, upper(p.0)),
                },
                None => st,
            },
            None => st,
        }
    }
}

/// The scanner after all of `ls`, from an empty state.
pub open spec fn run(ls: Seq<Seq<char>>) -> ParseState
    decreases ls.len(),
{
    if ls.len() == 0 {
        ParseState { events: seq![], current: None, depth: 0 }
    } else {
        step(run(ls.drop_last()), ls.last())
    }
}

/// [`parse_ics`]: the events of all complete VEVENT blocks, in file order.
pub open spec fn parse_ics_spec(text: Seq<char>) -> Seq<EventView> {
    run(unfold(crate::text::lines(text))).events
}

fn unfold_exec(raw: &Vec<Vec<char>>) -> (r: Vec<Vec<char>>)
    ensures
        views(r@) == unfold(views(raw@)),
{
    let ghost rv = views(raw@);
    let mut acc: Vec<Vec<char>> = Vec::new();
    let mut i: usize = 0;
    while i < raw.len()
        invariant
            rv == views(raw@),
            i <= raw.len(),
            views(acc@) == unfold(rv.take(i as int)),
        decreases raw.len() - i,
    {
        proof {
            assert(rv.take(i + 1).drop_last() == rv.take(i as int));
            assert(rv.take(i + 1).last() == raw@[i as int]@);
        }
        let l = crate::text::trim_end_char_exec(&raw[i], '\r');
        if l.len() > 0 && (l[0] == ' ' || l[0] == '\t') && acc.len() > 0 {
            let mut last = acc.pop().unwrap();
            let tail = slice(&l, 1, l.len());
            proof {
                assert(tail@ == l@.drop_first());
            }
            let ghost before = views(acc@);
            crate::text::push_all(&mut last, &tail);
            acc.push(last);
            proof {
                assert(views(acc@) == before.push(last@));
            }
        } else {
            acc.push(l);
            proof {
                assert(views(acc@) == views(acc@.drop_last()).push(l@));
            }
        }
        i += 1;
    }
    proof {
        assert(rv.take(raw.len() as int) == rv);
    }
    acc
}

/// Parse all VEVENT blocks in an ICS document. Malformed events are skipped.
pub fn parse_ics(text: &str) -> (r: Vec<Event>)
    ensures
        events_view(r@) == parse_ics_spec(text@),
{
    let chars = chars_of(text);
    let raw = crate::text::lines_exec(&chars);
    let logical = unfold_exec(&raw);
    let ghost lv = views(logical@);
    let begin_vevent = chars_of("BEGIN:VEVENT");
    let end_vevent = chars_of("END:VEVENT");
    let begin = chars_of("BEGIN");
    let end = chars_of("END");
    let mut events: Vec<Event> = Vec::new();
    let mut current: Option<Vec<(Vec<char>, Vec<char>)>> = None;
    let mut depth: usize = 0;
    let mut i: usize = 0;
    while i < logical.len()
        invariant
            lv == views(logical@),
            lv == unfold(crate::text::lines(text@)),
            begin_vevent@ == "BEGIN:VEVENT"@,
            end_vevent@ == "END:VEVENT"@,
            begin@ == "BEGIN"@,
            end@ == "END"@,
            i <= logical.len(),
            depth <= i,
            events_view(events@) == run(lv.take(i as int)).events,
            match current {
                Some(ps) => run(lv.take(i as int)).current == Some(props_view(ps@)),
                None => run(lv.take(i as int)).current is None,
            },
            depth == run(lv.take(i as int)).depth,
        decreases logical.len() - i,
    {
        proof {
            assert(lv.take(i + 1).drop_last() == lv.take(i as int));
            assert(lv.take(i + 1).last() == logical@[i as int]@);
        }
        let line = &logical[i];
        if same_text(line, &begin_vevent) && current.is_none() {
            current = Some(Vec::new());
            proof {
                assert(props_view(Seq::<(Vec<char>, Vec<char>)>::empty()) == Seq::<Prop>::empty());
            }
        } else if same_text(line, &end_vevent) && depth == 0 {
            match current.take() {
                Some(props) => {
                    if let Some(e) = build_event(&props) {
                        events.push(e);
                        proof {
                            assert(events_view(events@) == events_view(events@.drop_last()).push(e@));
                        }
                    }
                },
                None => {},
            }
        } else {
            match current.take() {
                Some(mut props) => {
                    match split_prop(line) {
                        Some((left, value)) => {
                            let u = upper_exec(&left);
                            if same_text(&u, &begin) {
                                depth += 1;
                            } else if same_text(&u, &end) {
                                if depth > 0 {
                                    depth -= 1;
                                }
                            }
                            let ghost pair = (left@, value@);
                            props.push((left, value));
                            proof {
                                assert(props_view(props@) == props_view(props@.drop_last()).push(pair));
                            }
                        },
                        None => {},
                    }
                    current = Some(props);
                },
                None => {},
            }
        }
        i += 1;
    }
    proof {
        assert(lv.take(logical.len() as int) == lv);
    }
    events
}


pub open spec fn line_text(left: Seq<char>, value: Seq<char>) -> Seq<char> {
    left + seq![':'] + value + "\r\n"@
}

/// The writer's test for reusing a kept date line: it still parses to
/// `value`, and says all-day exactly when the event is.
pub open spec fn line_matches(raw: Option<Prop>, value: (int, int, int), all_day: bool) -> bool {
    &&& raw is Some
    &&& parse_dt_spec(raw.unwrap().1) == Some(value)
    &&& (has_param(raw.unwrap().0, "VALUE=DATE"@) || is_date_only_spec(raw.unwrap().1)) == all_day
}

/// A value the writer's stamp holds exactly: a year from 0 to 9999, whole
/// seconds, and midnight when all-day (the stamp is then a date).
pub open spec fn stampable(value: (int, int, int), all_day: bool) -> bool {
    &&& four_digit_year(value.0)
    &&& value.2 == 0
    &&& (all_day ==> value.1 == 0)
}

/// An eight-digit date stamp that [`parse_dt`]'s patterns read as `day`:
/// the datetime patterns all fail on it and the compact date pattern gives
/// `day`.
pub open spec fn date_stamp_reads_back(s: Seq<char>, day: int) -> bool {
    &&& is_date_stamp(s)
    &&& spec_parse_date(s, "%Y%m%d"@) == Some(day)
    &&& spec_parse_datetime(s, "%Y%m%dT%H%M%S"@) is None
    &&& spec_parse_datetime(s, "%Y%m%dT%H%M"@) is None
    &&& spec_parse_datetime(s, "%Y-%m-%dT%H:%M:%S"@) is None
    &&& spec_parse_datetime(s, "%Y-%m-%dT%H:%M"@) is None
    &&& spec_parse_datetime(s, "%Y-%m-%d %H:%M"@) is None
}

/// The stamp written for `value` (a date when all-day) has its shape and
/// reads back as `value`.
pub open spec fn stamp_reads_back(value: (int, int, int), all_day: bool) -> bool {
    if all_day {
        date_stamp_reads_back(spec_format_datetime(value, "%Y%m%d"@), value.0)
    } else {
        let s = spec_format_datetime(value, "%Y%m%dT%H%M%S"@);
        is_stamp(s) && spec_parse_datetime(s, "%Y%m%dT%H%M%S"@) == Some(value)
    }
}

/// Every date of `e` that the writer stamps anew (no kept line matches it)
/// and that a stamp can hold reads back from its stamp.
pub open spec fn stamps_read_back(e: EventView) -> bool {
    &&& (!line_matches(e.start_raw, e.start, e.all_day) && stampable(e.start, e.all_day)
        ==> stamp_reads_back(e.start, e.all_day))
    &&& match e.end {
        Some(x) => !line_matches(e.end_raw, x, e.all_day) && stampable(x, e.all_day) ==> stamp_reads_back(
            x,
            e.all_day,
        ),
        None => true,
    }
}

/// A DTSTART/DTEND line: the original line when it still parses to `value`
/// with the same all-day reading, else a fresh line.
pub open spec fn push_dt_spec(name: Seq<char>, value: (int, int, int), raw: Option<Prop>, all_day: bool) -> Seq<
    char,
> {
    let p = raw.unwrap();
    if raw is Some && parse_dt_spec(p.1) == Some(value) && (has_param(p.0, "VALUE=DATE"@)
        || is_date_only_spec(p.1)) == all_day {
        line_text(p.0, p.1)
    } else if all_day {
        name + ";VALUE=DATE:"@ + spec_format_datetime(value, "%Y%m%d"@) + "\r\n"@
    } else {
        name + ":"@ + spec_format_datetime(value, "%Y%m%dT%H%M%S"@) + "\r\n"@
    }
}

pub open spec fn extra_text(x: Seq<Prop>) -> Seq<char>
    decreases x.len(),
{
    if x.len() == 0 {
        seq![]
    } else {
        extra_text(x.drop_last()) + line_text(x.last().0, x.last().1)
    }
}

pub open spec fn head_text(e: EventView) -> Seq<char> {
    "BEGIN:VEVENT\r\n"@ + "UID:"@ + e.uid + "\r\n"@ + push_dt_spec("DTSTART"@, e.start, e.start_raw, e.all_day)
}

pub open spec fn end_text(e: EventView) -> Seq<char> {
    if e.end is Some {
        push_dt_spec("DTEND"@, e.end->0, e.end_raw, e.all_day)
    } else {
        seq![]
    }
}

pub open spec fn summary_text(e: EventView) -> Seq<char> {
    "SUMMARY:"@ + escape(e.summary) + "\r\n"@
}

pub open spec fn description_text(e: EventView) -> Seq<char> {
    if e.description.len() > 0 {
        "DESCRIPTION:"@ + escape(e.description) + "\r\n"@
    } else {
        seq![]
    }
}

pub open spec fn rrule_text(e: EventView) -> Seq<char> {
    if e.rrule is Some {
        "RRULE:"@ + e.rrule->0 + "\r\n"@
    } else {
        seq![]
    }
}

/// The VEVENT block [`to_ics`] writes for one event: BEGIN, UID, DTSTART,
/// DTEND (when set), SUMMARY, DESCRIPTION (when not empty), RRULE (when
/// set), the verbatim lines, END.
pub open spec fn event_text(e: EventView) -> Seq<char> {
    head_text(e) + end_text(e) + summary_text(e) + description_text(e) + rrule_text(e) + extra_text(
        e.extra,
    ) + "END:VEVENT\r\n"@
}

pub open spec fn events_text(es: Seq<EventView>) -> Seq<char>
    decreases es.len(),
{
    if es.len() == 0 {
        seq![]
    } else {
        events_text(es.drop_last()) + event_text(es.last())
    }
}

/// [`to_ics`]: the calendar header, each event's block, the footer.
pub open spec fn to_ics_spec(es: Seq<EventView>) -> Seq<char> {
    "BEGIN:VCALENDAR\r\nVERSION:2.0\r\nPRODID:-//optionCalendar//optionCalendar//EN\r\n"@
        + events_text(es) + "END:VCALENDAR\r\n"@
}

/// Emit a DTSTART/DTEND line, reusing the original params+value when unchanged.
fn push_dt(
    out: &mut Vec<char>,
    name: &str,
    value: &DateTime,
    raw: &Option<(String, String)>,
    all_day: bool,
)
    ensures
        final(out)@ == old(out)@ + push_dt_spec(name@, value@, opt_pair(*raw), all_day),
        !line_matches(opt_pair(*raw), value@, all_day) && stampable(value@, all_day) ==> stamp_reads_back(
            value@,
            all_day,
        ),
{
    if let Some((left, raw_value)) = raw {
        let rv = chars_of(raw_value.as_str());
        let same = match parse_dt_chars(&rv) {
            Some(parsed) => parsed.is_same(value),
            None => false,
        };
        if same && (has_param_exec(&chars_of(left.as_str()), &chars_of("VALUE=DATE"))
            || is_date_only_chars(&rv)) == all_day {
            let ghost before = out@;
            crate::text::push_str(out, left.as_str());
            out.push(':');
            crate::text::push_str(out, raw_value.as_str());
            crate::text::push_str(out, "\r\n");
            proof {
                assert(out@ =~= before + line_text(left@, raw_value@));
            }
            return;
        }
    }
    let ghost before = out@;
    crate::text::push_str(out, name);
    if all_day {
        crate::text::push_str(out, ";VALUE=DATE:");
        crate::text::push_str(out, format_date(value).as_str());
    } else {
        crate::text::push_str(out, ":");
        crate::text::push_str(out, format_dt(value).as_str());
    }
    crate::text::push_str(out, "\r\n");
    proof {
        assert(out@ =~= before + push_dt_spec(name@, value@, opt_pair(*raw), all_day));
    }
}

fn push_extra(out: &mut Vec<char>, extra: &Vec<(String, String)>)
    ensures
        final(out)@ == old(out)@ + extra_text(pairs_view(extra@)),
{
    let ghost before = out@;
    let ghost xs = pairs_view(extra@);
    let mut i: usize = 0;
    while i < extra.len()
        invariant
            xs == pairs_view(extra@),
            i <= extra.len(),
            out@ == before + extra_text(xs.take(i as int)),
        decreases extra.len() - i,
    {
        proof {
            assert(xs.take(i + 1).drop_last() == xs.take(i as int));
            assert(xs.take(i + 1).last() == pair_view(extra@[i as int]));
        }
        let ghost mid = out@;
        crate::text::push_str(out, extra[i].0.as_str());
        out.push(':');
        crate::text::push_str(out, extra[i].1.as_str());
        crate::text::push_str(out, "\r\n");
        proof {
            assert(out@ =~= mid + line_text(extra@[i as int].0@, extra@[i as int].1@));
        }
        i += 1;
    }
    proof {
        assert(xs.take(extra.len() as int) == xs);
    }
}

fn push_head(out: &mut Vec<char>, event: &Event)
    ensures
        final(out)@ == old(out)@ + head_text(event@),
        !line_matches(event@.start_raw, event@.start, event@.all_day) && stampable(event@.start, event@.all_day)
            ==> stamp_reads_back(event@.start, event@.all_day),
{
    let ghost before = out@;
    crate::text::push_str(out, "BEGIN:VEVENT\r\n");
    crate::text::push_str(out, "UID:");
    crate::text::push_str(out, event.uid.as_str());
    crate::text::push_str(out, "\r\n");
    push_dt(out, "DTSTART", &event.start, &event.start_raw, event.all_day);
    assert(out@ =~= before + head_text(event@));
}

fn push_end(out: &mut Vec<char>, event: &Event)
    ensures
        final(out)@ == old(out)@ + end_text(event@),
        match event@.end {
            Some(x) => !line_matches(event@.end_raw, x, event@.all_day) && stampable(x, event@.all_day)
                ==> stamp_reads_back(x, event@.all_day),
            None => true,
        },
{
    let ghost before = out@;
    if let Some(end) = &event.end {
        push_dt(out, "DTEND", end, &event.end_raw, event.all_day);
    }
    assert(out@ =~= before + end_text(event@));
}

fn push_texts(out: &mut Vec<char>, event: &Event)
    ensures
        final(out)@ == old(out)@ + summary_text(event@) + description_text(event@) + rrule_text(
            event@,
        ),
{
    let ghost before = out@;
    crate::text::push_str(out, "SUMMARY:");
    let summary = escape_chars(&chars_of(event.summary.as_str()));
    crate::text::push_all(out, &summary);
    crate::text::push_str(out, "\r\n");
    assert(out@ =~= before + summary_text(event@));
    let ghost c = out@;
    if !event.description.as_str().is_empty() {
        crate::text::push_str(out, "DESCRIPTION:");
        let description = escape_chars(&chars_of(event.description.as_str()));
        crate::text::push_all(out, &description);
        crate::text::push_str(out, "\r\n");
    }
    assert(out@ =~= c + description_text(event@));
    let ghost d = out@;
    if let Some(rrule) = &event.rrule {
        crate::text::push_str(out, "RRULE:");
        crate::text::push_str(out, rrule.as_str());
        crate::text::push_str(out, "\r\n");
    }
    assert(out@ =~= d + rrule_text(event@));
}

fn push_event(out: &mut Vec<char>, event: &Event)
    ensures
        final(out)@ == old(out)@ + event_text(event@),
        stamps_read_back(event@),
{
    let ghost before = out@;
    push_head(out, event);
    push_end(out, event);
    push_texts(out, event);
    let ghost f = out@;
    push_extra(out, &event.extra);
    crate::text::push_str(out, "END:VEVENT\r\n");
    proof {
        let e = event@;
        assert(f =~= before + head_text(e) + end_text(e) + summary_text(e) + description_text(e)
            + rrule_text(e));
        assert(out@ =~= f + extra_text(e.extra) + "END:VEVENT\r\n"@);
        assert(out@ =~= before + event_text(e));
    }
}

/// Serialize events as a VCALENDAR document.
/// Every date the writer stamps anew reads back from its stamp (see
/// [`stamps_read_back`]).
pub fn to_ics(events: &Vec<Event>) -> (r: String)
    ensures
        r@ == to_ics_spec(events_view(events@)),
        forall|i: int| 0 <= i < events.len() ==> stamps_read_back(#[trigger] events_view(events@)[i]),
{
    let mut out: Vec<char> = Vec::new();
    crate::text::push_str(
        &mut out,
        "BEGIN:VCALENDAR\r\nVERSION:2.0\r\nPRODID:-//optionCalendar//optionCalendar//EN\r\n",
    );
    let ghost head = out@;
    let ghost ev = events_view(events@);
    let mut i: usize = 0;
    while i < events.len()
        invariant
            ev == events_view(events@),
            i <= events.len(),
            out@ == head + events_text(ev.take(i as int)),
            forall|j: int| 0 <= j < i ==> stamps_read_back(#[trigger] ev[j]),
        decreases events.len() - i,
    {
        proof {
            assert(ev.take(i + 1).drop_last() == ev.take(i as int));
            assert(ev.take(i + 1).last() == events@[i as int]@);
        }
        push_event(&mut out, &events[i]);
        i += 1;
    }
    crate::text::push_str(&mut out, "END:VCALENDAR\r\n");
    proof {
        assert(ev.take(events.len() as int) == ev);
    }
    string_of(out.as_slice())
}


pub const FNV_OFFSET: u64 = 0xcbf29ce484222325;

pub const FNV_PRIME: u64 = 0x100000001b3;

/// FNV-1a over `bytes`, continuing from `h`.
pub open spec fn fnv1a_from(h: u64, bytes: Seq<u8>) -> u64
    decreases bytes.len(),
{
    if bytes.len() == 0 {
        h
    } else {
        fnv1a_from(vstd::wrapping::u64_specs::wrapping_mul(h ^ (bytes[0] as u64), FNV_PRIME), bytes.drop_first())
    }
}

pub open spec fn rotl17(x: u64) -> u64 {
    (x << 17u64) | (x >> 47u64)
}

/// The text a generated UID is hashed from: `summary|start|end` (end empty when unset).
pub open spec fn uid_text(summary: Seq<char>, start: (int, int, int), end: Option<(int, int, int)>) -> Seq<char> {
    summary + seq!['|'] + crate::date::spec_display_datetime(start) + seq!['|'] + match end {
        Some(e) => crate::date::spec_display_datetime(e),
        None => seq![],
    }
}

/// A generated UID: the FNV-1a hash of the UTF-8 text mixed with the
/// clock's sub-second nanoseconds, in hex, then `@optioncalendar`.
pub open spec fn generated_uid(text: Seq<char>, nanos: u32) -> Seq<char> {
    crate::text::hex_lower(
        (fnv1a_from(FNV_OFFSET, vstd::utf8::encode_utf8(text)) ^ rotl17(nanos as u64)) as nat,
    ) + "@optioncalendar"@
}

/// Sub-second nanoseconds of the system clock (`UNIX_EPOCH.elapsed()`,
/// 0 when the clock reads before the epoch); below one billion.
#[verifier::external_body]
fn clock_subsec_nanos() -> (r: u32)
    ensures
        r < 1_000_000_000,
{
    match std::time::UNIX_EPOCH.elapsed() {
        Ok(d) => d.subsec_nanos(),
        Err(_) => 0,
    }
}

fn fnv1a(bytes: &[u8]) -> (r: u64)
    ensures
        r == fnv1a_from(FNV_OFFSET, bytes@),
{
    let mut hash: u64 = FNV_OFFSET;
    let mut i: usize = 0;
    proof {
        assert(bytes@.skip(0) == bytes@);
    }
    while i < bytes.len()
        invariant
            i <= bytes.len(),
            fnv1a_from(FNV_OFFSET, bytes@) == fnv1a_from(hash, bytes@.skip(i as int)),
        decreases bytes.len() - i,
    {
        proof {
            assert(bytes@.skip(i as int).drop_first() == bytes@.skip(i + 1));
        }
        hash = (hash ^ (bytes[i] as u64)).wrapping_mul(FNV_PRIME);
        i += 1;
    }
    hash
}

impl Event {
    /// Build a new timed event whose UID mixes in `nanos`, the clock's
    /// sub-second reading (see [`Event::new`]).
    pub fn new_with_nanos(summary: &str, start: DateTime, end: Option<DateTime>, nanos: u32) -> (r: Event)
        ensures
            r@.uid == generated_uid(uid_text(summary@, start@, opt_dt(end)), nanos),
            r@.summary == summary@,
            r@.description == Seq::<char>::empty(),
            r@.start == start@,
            r@.end == opt_dt(end),
            !r@.all_day,
            r@.rrule is None,
            r@.extra == Seq::<Prop>::empty(),
            r@.start_raw is None,
            r@.end_raw is None,
    {
        let mut text = chars_of(summary);
        text.push('|');
        crate::text::push_str(&mut text, crate::date::chrono_display_datetime(&start).as_str());
        text.push('|');
        if let Some(e) = &end {
            crate::text::push_str(&mut text, crate::date::chrono_display_datetime(e).as_str());
        }
        proof {
            assert(text@ =~= uid_text(summary@, start@, opt_dt(end)));
        }
        let text = string_of(text.as_slice());
        let hash = fnv1a(text.as_str().as_bytes());
        let n = nanos as u64;
        let mixed = hash ^ ((n << 17u64) | (n >> 47u64));
        let mut uid = crate::text::hex_exec(mixed);
        crate::text::push_str(&mut uid, "@optioncalendar");
        let r = Event {
            uid: string_of(uid.as_slice()),
            summary: string_of(chars_of(summary).as_slice()),
            description: string_of(Vec::<char>::new().as_slice()),
            start,
            end,
            all_day: false,
            rrule: None,
            extra: Vec::new(),
            start_raw: None,
            end_raw: None,
        };
        proof {
            assert(r@.extra =~= Seq::<Prop>::empty());
        }
        r
    }

    /// Build a new timed event (see [`Event::new_all_day`] for date-only
    /// ones). The UID hashes summary/start/end mixed with the clock's
    /// sub-second nanoseconds, so two identical adds don't collide.
    pub fn new(summary: &str, start: DateTime, end: Option<DateTime>) -> (r: Event)
        ensures
            exists|nanos: u32|
                nanos < 1_000_000_000 && r@.uid == generated_uid(
                    uid_text(summary@, start@, opt_dt(end)),
                    nanos,
                ),
            r@.summary == summary@,
            r@.description == Seq::<char>::empty(),
            r@.start == start@,
            r@.end == opt_dt(end),
            !r@.all_day,
            r@.rrule is None,
            r@.extra == Seq::<Prop>::empty(),
            r@.start_raw is None,
            r@.end_raw is None,
    {
        let nanos = clock_subsec_nanos();
        Event::new_with_nanos(summary, start, end, nanos)
    }

    /// All-day event from `start` through `last_day` (inclusive); the stored
    /// `end` is the exclusive ICS `DTEND`, midnight after `last_day`.
    pub fn new_all_day(summary: &str, start: Date, last_day: Option<Date>) -> (r: Event)
        requires
            last_day matches Some(d) ==> d@ < crate::date::DATE_MAX_DAYS,
        ensures
            exists|nanos: u32|
                nanos < 1_000_000_000 && r@.uid == generated_uid(
                    uid_text(summary@, (start@, 0int, 0int), r@.end),
                    nanos,
                ),
            r@.summary == summary@,
            r@.description == Seq::<char>::empty(),
            r@.start == (start@, 0int, 0int),
            r@.end == match last_day {
                Some(d) => Some((d@ + 1, 0int, 0int)),
                None => None,
            },
            r@.all_day,
            r@.rrule is None,
            r@.extra == Seq::<Prop>::empty(),
            r@.start_raw is None,
            r@.end_raw is None,
    {
        let end = match last_day {
            Some(d) => {
                let _ = d.days();
                Some(DateTime::midnight(d.checked_add_days(1).unwrap()))
            },
            None => None,
        };
        let nanos = clock_subsec_nanos();
        let mut event = Event::new_with_nanos(summary, DateTime::midnight(start), end, nanos);
        event.all_day = true;
        proof {
            assert(event@.uid == generated_uid(uid_text(summary@, (start@, 0int, 0int), event@.end), nanos));
        }
        event
    }

    /// The end as listed to users: for an all-day event its inclusive last
    /// day (the stored `DTEND` is the day after), otherwise the end itself;
    /// `None` without an end.
    pub fn listed_end(&self) -> (r: Option<DateTime>)
        ensures
            opt_dt(r) == listed_end_spec(self@),
    {
        match self.end {
            Some(end) => if self.all_day {
                Some(self.end_or_start())
            } else {
                Some(end)
            },
            None => None,
        }
    }

    /// Inclusive end (see [`end_or_start_spec`]).
    pub fn end_or_start(&self) -> (r: DateTime)
        ensures
            r@ == end_or_start_spec(self@),
    {
        match self.end {
            Some(end) => {
                if self.all_day {
                    match crate::date::chrono_add_seconds(&end, -86400) {
                        Some(last) => {
                            if last.is_before(&self.start) {
                                self.start
                            } else {
                                last
                            }
                        },
                        None => self.start,
                    }
                } else {
                    end
                }
            },
            None => self.start,
        }
    }

    /// A copy of this event.
    pub fn duplicate(&self) -> (r: Event)
        ensures
            r@ == self@,
    {
        let mut extra: Vec<(String, String)> = Vec::new();
        let mut i: usize = 0;
        while i < self.extra.len()
            invariant
                i <= self.extra.len(),
                pairs_view(extra@) == pairs_view(self.extra@).take(i as int),
            decreases self.extra.len() - i,
        {
            let p = (self.extra[i].0.clone(), self.extra[i].1.clone());
            proof {
                assert(pair_view(p) == pair_view(self.extra@[i as int]));
            }
            extra.push(p);
            proof {
                assert(pairs_view(extra@) == pairs_view(extra@.drop_last()).push(pair_view(p)));
                assert(pairs_view(self.extra@)[i as int] == pair_view(self.extra@[i as int]));
                assert(pairs_view(self.extra@).take(i + 1) =~= pairs_view(self.extra@).take(
                    i as int,
                ).push(pairs_view(self.extra@)[i as int]));
                assert(pairs_view(extra@) =~= pairs_view(self.extra@).take(i + 1));
            }
            i += 1;
        }
        let copy_pair = |o: &Option<(String, String)>| -> (r: Option<(String, String)>)
            ensures
                opt_pair(r) == opt_pair(*o),
            {
                match o {
                    Some(p) => Some((p.0.clone(), p.1.clone())),
                    None => None,
                }
            };
        let r = Event {
            uid: self.uid.clone(),
            summary: self.summary.clone(),
            description: self.description.clone(),
            start: self.start,
            end: self.end,
            all_day: self.all_day,
            rrule: match &self.rrule {
                Some(x) => Some(x.clone()),
                None => None,
            },
            extra,
            start_raw: copy_pair(&self.start_raw),
            end_raw: copy_pair(&self.end_raw),
        };
        proof {
            assert(pairs_view(self.extra@).take(self.extra.len() as int) == pairs_view(self.extra@));
            assert(r@.extra == self@.extra);
            assert(r@ =~= self@);
        }
        r
    }
}

/// Inclusive end: `end` if set (minus one day for all-day events, whose ICS
/// `DTEND` is exclusive, but never before `start`), otherwise `start`.
/// [`Event::listed_end`]: the inclusive last day of an all-day event with
/// an end, the end itself for a timed one, `None` without an end.
pub open spec fn listed_end_spec(e: EventView) -> Option<(int, int, int)> {
    match e.end {
        Some(end) => Some(if e.all_day { end_or_start_spec(e) } else { end }),
        None => None,
    }
}

pub open spec fn end_or_start_spec(e: EventView) -> (int, int, int) {
    match e.end {
        Some(end) => if e.all_day {
            match crate::date::spec_add_seconds(end, -86400) {
                Some(last) => if crate::date::dt_lt(last, e.start) {
                    e.start
                } else {
                    last
                },
                None => e.start,
            }
        } else {
            end
        },
        None => e.start,
    }
}

} // verus!
