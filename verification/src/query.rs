//! Day / week / month queries over events, recurrence expansion, plus the
//! merged "today" view.
use vstd::prelude::*;
use crate::date::{
    Date, DateTime, dt_lt, spec_add_seconds, spec_add_months, spec_shift, spec_date_ymd,
    spec_date_from_ymd, spec_format_datetime, chrono_add_seconds, chrono_add_months,
    chrono_shift, chrono_ymd, chrono_from_ymd, chrono_format_datetime,
};
use crate::ics::{
    Event, EventView, events_view, end_or_start_spec, parse_dt_spec, is_date_only_spec,
    parse_dt_chars, is_date_only_chars,
};
use crate::sort::{SortKey, SortKeyExec, sort_by_key, sorted};
use crate::tasks::{TaskDue, TaskView, tasks_view};
use crate::text::{
    trim, upper, split_char, find_char, parse_unsigned, text_lt, chars_of, views, trimmed,
    upper_exec, same_text, digit_char,
};

verus! {

/// Recurrence frequency.
#[derive(Debug, Clone, Copy, PartialEq, Eq, Structural)]
pub enum Freq {
    Daily,
    Weekly,
    Monthly,
    Yearly,
}

/// Simple recurrence rule: `FREQ=DAILY|WEEKLY|MONTHLY|YEARLY` with optional
/// `INTERVAL`, `COUNT` and `UNTIL`. Other parts (BYDAY…) are ignored.
#[derive(Debug, Clone, Copy, PartialEq, Eq)]
pub struct Rule {
    pub freq: Freq,
    pub interval: u32,
    pub count: Option<u32>,
    /// Inclusive end of the recurrence; `until_date_only` compares by date.
    pub until: Option<DateTime>,
    pub until_date_only: bool,
}

/// A rule as plain values.
pub struct RuleView {
    pub freq: Freq,
    pub interval: int,
    pub count: Option<int>,
    pub until: Option<(int, int, int)>,
    pub until_date_only: bool,
}

impl View for Rule {
    type V = RuleView;

    open spec fn view(&self) -> RuleView {
        RuleView {
            freq: self.freq,
            interval: self.interval as int,
            count: match self.count {
                Some(c) => Some(c as int),
                None => None,
            },
            until: match self.until {
                Some(u) => Some(u@),
                None => None,
            },
            until_date_only: self.until_date_only,
        }
    }
}

/// Hard cap on occurrences examined per query, so a bad rule can't spin.
pub const MAX_OCCURRENCES: u32 = 10_000;

/// A positive `u32`, as `value.parse().ok().filter(|i| *i > 0)`.
pub open spec fn positive_u32(value: Seq<char>) -> Option<int> {
    match parse_unsigned(value, u32::MAX as nat) {
        Some(n) => if n > 0 {
            Some(n as int)
        } else {
            None
        },
        None => None,
    }
}

/// One `KEY=VALUE` part applied to the rule read so far (`None`: rejected);
/// the flag records that `FREQ` was seen.
pub open spec fn rule_step(st: Option<(RuleView, bool)>, part: Seq<char>) -> Option<(RuleView, bool)> {
    match st {
        None => None,
        Some((rule, has_freq)) => match find_char(part, '=') {
            None => st,
            Some(k) => {
                let key = upper(trim(part.take(k)));
                let value = trim(part.skip(k + 1));
                if key == "FREQ"@ {
                    let f = upper(value);
                    if f == "DAILY"@ {
                        Some((RuleView { freq: Freq::Daily, ..rule }, true))
                    } else if f == "WEEKLY"@ {
                        Some((RuleView { freq: Freq::Weekly, ..rule }, true))
                    } else if f == "MONTHLY"@ {
                        Some((RuleView { freq: Freq::Monthly, ..rule }, true))
                    } else if f == "YEARLY"@ {
                        Some((RuleView { freq: Freq::Yearly, ..rule }, true))
                    } else {
                        None
                    }
                } else if key == "INTERVAL"@ {
                    match positive_u32(value) {
                        Some(i) => Some((RuleView { interval: i, ..rule }, has_freq)),
                        None => None,
                    }
                } else if key == "COUNT"@ {
                    match positive_u32(value) {
                        Some(c) => Some((RuleView { count: Some(c), ..rule }, has_freq)),
                        None => None,
                    }
                } else if key == "UNTIL"@ {
                    match parse_dt_spec(value) {
                        Some(u) => Some(
                            (
                                RuleView {
                                    until: Some(u),
                                    until_date_only: is_date_only_spec(value),
                                    ..rule
                                },
                                has_freq,
                            ),
                        ),
                        None => None,
                    }
                } else {
                    st
                }
            },
        },
    }
}

pub open spec fn rule_run(parts: Seq<Seq<char>>) -> Option<(RuleView, bool)>
    decreases parts.len(),
{
    if parts.len() == 0 {
        Some(
            (
                RuleView {
                    freq: Freq::Daily,
                    interval: 1,
                    count: None,
                    until: None,
                    until_date_only: false,
                },
                false,
            ),
        )
    } else {
        rule_step(rule_run(parts.drop_last()), parts.last())
    }
}

/// [`parse_rule`]: the `;`-separated parts in order; a rule needs `FREQ`.
pub open spec fn parse_rule_spec(raw: Seq<char>) -> Option<RuleView> {
    match rule_run(split_char(raw, ';')) {
        Some((rule, true)) => Some(rule),
        _ => None,
    }
}

fn positive_u32_exec(value: &Vec<char>) -> (r: Option<u32>)
    ensures
        match r {
            Some(n) => positive_u32(value@) == Some(n as int),
            None => positive_u32(value@) is None,
        },
{
    match crate::text::parse_decimal(value, u32::MAX as u64) {
        Some(n) => if n > 0 {
            Some(n as u32)
        } else {
            None
        },
        None => None,
    }
}

/// Parse an `RRULE` value.
pub fn parse_rule(raw: &Vec<char>) -> (r: Option<Rule>)
    ensures
        match r {
            Some(rule) => parse_rule_spec(raw@) == Some(rule@),
            None => parse_rule_spec(raw@) is None,
        },
{
    let parts = crate::text::split_char_exec(raw, ';');
    let ghost pv = views(parts@);
    let mut rule = Rule {
        freq: Freq::Daily,
        interval: 1,
        count: None,
        until: None,
        until_date_only: false,
    };
    let mut has_freq = false;
    let mut i: usize = 0;
    while i < parts.len()
        invariant
            pv == views(parts@),
            pv == split_char(raw@, ';'),
            i <= parts.len(),
            rule_run(pv.take(i as int)) == Some((rule@, has_freq)),
        decreases parts.len() - i,
    {
        proof {
            assert(pv.take(i + 1).drop_last() == pv.take(i as int));
            assert(pv.take(i + 1).last() == parts@[i as int]@);
        }
        let part = &parts[i];
        if let Some(k) = crate::text::find_char_exec(part, '=') {
            proof {
                crate::text::lemma_find_char(part@, '=');
                assert(part@.subrange(0, k as int) == part@.take(k as int));
                assert(part@.subrange(k + 1, part.len() as int) == part@.skip(k + 1));
            }
            let key = upper_exec(&trimmed(part, 0, k));
            let value = trimmed(part, k + 1, part.len());
            if same_text(&key, &chars_of("FREQ")) {
                let f = upper_exec(&value);
                if same_text(&f, &chars_of("DAILY")) {
                    rule.freq = Freq::Daily;
                } else if same_text(&f, &chars_of("WEEKLY")) {
                    rule.freq = Freq::Weekly;
                } else if same_text(&f, &chars_of("MONTHLY")) {
                    rule.freq = Freq::Monthly;
                } else if same_text(&f, &chars_of("YEARLY")) {
                    rule.freq = Freq::Yearly;
                } else {
                    proof {
                        lemma_rule_run_none(pv, i as int + 1);
                    }
                    return None;
                }
                has_freq = true;
            } else if same_text(&key, &chars_of("INTERVAL")) {
                match positive_u32_exec(&value) {
                    Some(n) => rule.interval = n,
                    None => {
                        proof {
                            lemma_rule_run_none(pv, i as int + 1);
                        }
                        return None;
                    },
                }
            } else if same_text(&key, &chars_of("COUNT")) {
                match positive_u32_exec(&value) {
                    Some(n) => rule.count = Some(n),
                    None => {
                        proof {
                            lemma_rule_run_none(pv, i as int + 1);
                        }
                        return None;
                    },
                }
            } else if same_text(&key, &chars_of("UNTIL")) {
                match parse_dt_chars(&value) {
                    Some(u) => {
                        rule.until = Some(u);
                        rule.until_date_only = is_date_only_chars(&value);
                    },
                    None => {
                        proof {
                            lemma_rule_run_none(pv, i as int + 1);
                        }
                        return None;
                    },
                }
            }
        }
        i += 1;
    }
    proof {
        assert(pv.take(parts.len() as int) == pv);
    }
    if has_freq {
        Some(rule)
    } else {
        None
    }
}

/// Once a part is rejected, the whole rule is.
proof fn lemma_rule_run_none(parts: Seq<Seq<char>>, i: int)
    requires
        0 <= i <= parts.len(),
        rule_run(parts.take(i)) is None,
    ensures
        rule_run(parts) is None,
    decreases parts.len() - i,
{
    if i < parts.len() {
        assert(parts.take(i + 1).drop_last() == parts.take(i));
        lemma_rule_run_none(parts, i + 1);
    } else {
        assert(parts.take(i) == parts);
    }
}


/// Index of the first occurrence that might still touch `from` (a lower
/// bound, so the scan can skip the bulk of an old series).
pub open spec fn first_candidate_spec(rule: RuleView, e: EventView, from: int) -> int {
    let span = end_or_start_spec(e).0 - e.start.0;
    let gap = from - e.start.0 - span;
    if gap <= 0 {
        0
    } else {
        let steps = match rule.freq {
            Freq::Daily => gap,
            Freq::Weekly => gap / 7,
            Freq::Monthly => gap / 31,
            Freq::Yearly => gap / 366,
        };
        let q = steps / rule.interval;
        if q <= u32::MAX {
            q
        } else {
            u32::MAX as int
        }
    }
}

/// Start of the `n`-th occurrence (0 = the event itself), or `None` on overflow.
pub open spec fn nth_start_spec(rule: RuleView, base: (int, int, int), n: int) -> Option<(int, int, int)> {
    let steps = n * rule.interval;
    if steps > u32::MAX {
        None
    } else {
        match rule.freq {
            Freq::Daily => spec_add_seconds(base, steps * 86400),
            Freq::Weekly => spec_add_seconds(base, steps * 604800),
            Freq::Monthly => spec_add_months(base, steps),
            Freq::Yearly => if steps * 12 > u32::MAX {
                None
            } else {
                spec_add_months(base, steps * 12)
            },
        }
    }
}

pub open spec fn within_until_spec(rule: RuleView, start: (int, int, int)) -> bool {
    match rule.until {
        None => true,
        Some(u) => if rule.until_date_only {
            start.0 <= u.0
        } else {
            !dt_lt(u, start)
        },
    }
}

/// The event's days (start through inclusive end) meet `[from, to]`.
pub open spec fn touches(e: EventView, from: int, to: int) -> bool {
    e.start.0 <= to && end_or_start_spec(e).0 >= from
}

/// The event moved to `start`, with `end`, and no original date lines.
pub open spec fn shifted(e: EventView, start: (int, int, int), end: Option<(int, int, int)>) -> EventView {
    EventView { start, end, start_raw: None, end_raw: None, ..e }
}

/// The `n`-th occurrence (`None` when its end cannot be represented).
pub open spec fn occurrence(e: EventView, start: (int, int, int), n: int) -> Option<EventView> {
    if n > 0 {
        match e.end {
            Some(end) => match spec_shift(end, start, e.start) {
                Some(ne) => Some(shifted(e, start, Some(ne))),
                None => None,
            },
            None => Some(shifted(e, start, None)),
        }
    } else {
        Some(e)
    }
}

/// Occurrences `n..limit` that touch `[from, to]`, stopping at the first
/// one past `to`, past `UNTIL`, or out of range.
pub open spec fn occ_loop(e: EventView, rule: RuleView, from: int, to: int, n: int, limit: int) -> Seq<
    EventView,
>
    decreases limit - n,
{
    if n >= limit {
        seq![]
    } else {
        match nth_start_spec(rule, e.start, n) {
            None => seq![],
            Some(start) => if !within_until_spec(rule, start) || start.0 > to {
                seq![]
            } else {
                match occurrence(e, start, n) {
                    None => seq![],
                    Some(o) => (if touches(o, from, to) {
                        seq![o]
                    } else {
                        seq![]
                    }) + occ_loop(e, rule, from, to, n + 1, limit),
                }
            },
        }
    }
}

pub open spec fn event_rule(e: EventView) -> Option<RuleView> {
    match e.rrule {
        Some(r) => parse_rule_spec(r),
        None => None,
    }
}

pub open spec fn min_int(a: int, b: int) -> int {
    if a <= b {
        a
    } else {
        b
    }
}

/// [`occurrences_between`]: a non-recurring event (or one with an
/// unsupported rule) is itself when it touches the window; a recurring one
/// is expanded from the first candidate, at most `COUNT` and at most
/// [`MAX_OCCURRENCES`] occurrences examined.
pub open spec fn occurrences_spec(e: EventView, from: int, to: int) -> Seq<EventView> {
    match event_rule(e) {
        None => if touches(e, from, to) {
            seq![e]
        } else {
            seq![]
        },
        Some(rule) => {
            let first = first_candidate_spec(rule, e, from);
            let cap = min_int(first + MAX_OCCURRENCES, u32::MAX as int);
            let limit = match rule.count {
                Some(c) => min_int(c, cap),
                None => min_int(u32::MAX as int, cap),
            };
            occ_loop(e, rule, from, to, first, limit)
        },
    }
}

fn first_candidate(rule: &Rule, event: &Event, from: Date) -> (r: u32)
    requires
        rule.interval > 0,
    ensures
        r == first_candidate_spec(rule@, event@, from@),
{
    let start = event.start.date();
    let span = event.end_or_start().date().days_since(&start);
    let gap = from.days_since(&start) - span;
    if gap <= 0 {
        return 0;
    }
    let steps = match rule.freq {
        Freq::Daily => gap,
        Freq::Weekly => gap / 7,
        Freq::Monthly => gap / 31,
        Freq::Yearly => gap / 366,
    };
    let q = steps / (rule.interval as i64);
    if q <= u32::MAX as i64 {
        q as u32
    } else {
        u32::MAX
    }
}

fn nth_start(rule: &Rule, base: &DateTime, n: u32) -> (r: Option<DateTime>)
    ensures
        match r {
            Some(x) => nth_start_spec(rule@, base@, n as int) == Some(x@),
            None => nth_start_spec(rule@, base@, n as int) is None,
        },
{
    let steps = n.checked_mul(rule.interval)?;
    match rule.freq {
        Freq::Daily => chrono_add_seconds(base, (steps as i64) * 86400),
        Freq::Weekly => chrono_add_seconds(base, (steps as i64) * 604800),
        Freq::Monthly => chrono_add_months(base, steps),
        Freq::Yearly => chrono_add_months(base, steps.checked_mul(12)?),
    }
}

fn within_until(rule: &Rule, start: &DateTime) -> (r: bool)
    ensures
        r == within_until_spec(rule@, start@),
{
    match rule.until {
        None => true,
        Some(until) => if rule.until_date_only {
            start.date().days() <= until.date().days()
        } else {
            !until.is_before(start)
        },
    }
}

fn touches_exec(event: &Event, from: Date, to: Date) -> (r: bool)
    ensures
        r == touches(event@, from@, to@),
{
    event.start.date().days() <= to.days() && event.end_or_start().date().days() >= from.days()
}

/// Occurrences of `event` whose days touch `[from, to]`, in order. A
/// non-recurring event (or one with an unsupported rule) yields itself only.
pub fn occurrences_between(event: &Event, from: Date, to: Date) -> (r: Vec<Event>)
    ensures
        events_view(r@) == occurrences_spec(event@, from@, to@),
{
    let rule = match &event.rrule {
        Some(raw) => parse_rule(&chars_of(raw.as_str())),
        None => None,
    };
    let rule = match rule {
        None => {
            if touches_exec(event, from, to) {
                let v = vec![event.duplicate()];
                proof {
                    assert(events_view(v@) =~= seq![event@]);
                }
                return v;
            } else {
                let v: Vec<Event> = Vec::new();
                proof {
                    assert(events_view(v@) =~= Seq::<EventView>::empty());
                }
                return v;
            }
        },
        Some(rule) => rule,
    };
    proof {
        assert(parse_rule_spec(event.rrule->0@) == Some(rule@));
        assert(rule@.interval > 0) by {
            lemma_rule_interval_positive(split_char(event.rrule->0@, ';'));
        }
    }
    let first = first_candidate(&rule, event, from);
    let cap = first.saturating_add(MAX_OCCURRENCES);
    let limit = match rule.count {
        Some(c) => if c <= cap {
            c
        } else {
            cap
        },
        None => cap,
    };
    let ghost e = event@;
    let mut hits: Vec<Event> = Vec::new();
    let mut n: u32 = first;
    while n < limit
        invariant
            e == event@,
            rule@.interval > 0,
            occurrences_spec(e, from@, to@) == events_view(hits@) + occ_loop(
                e,
                rule@,
                from@,
                to@,
                n as int,
                limit as int,
            ),
            event_rule(e) == Some(rule@),
            limit as int == (match rule@.count {
                Some(c) => min_int(c, min_int(first + MAX_OCCURRENCES, u32::MAX as int)),
                None => min_int(u32::MAX as int, min_int(first + MAX_OCCURRENCES, u32::MAX as int)),
            }),
        ensures
            events_view(hits@) == occurrences_spec(e, from@, to@),
        decreases limit - n,
    {
        let start = match nth_start(&rule, &event.start, n) {
            Some(s) => s,
            None => {
                proof {
                    assert(events_view(hits@) + Seq::<EventView>::empty() == events_view(hits@));
                }
                break;
            },
        };
        if !within_until(&rule, &start) || start.date().days() > to.days() {
            proof {
                assert(events_view(hits@) + Seq::<EventView>::empty() == events_view(hits@));
            }
            break;
        }
        let mut occ = event.duplicate();
        if n > 0 {
            let end = match event.end {
                Some(end) => match chrono_shift(&end, &start, &event.start) {
                    Some(ne) => Some(ne),
                    None => {
                        proof {
                            assert(events_view(hits@) + Seq::<EventView>::empty() == events_view(
                                hits@,
                            ));
                        }
                        break;
                    },
                },
                None => None,
            };
            occ.end = end;
            occ.start = start;
            occ.start_raw = None;
            occ.end_raw = None;
        }
        proof {
            assert(occ@ =~= occurrence(e, start@, n as int)->0);
        }
        if touches_exec(&occ, from, to) {
            hits.push(occ);
            proof {
                assert(events_view(hits@) =~= events_view(hits@.drop_last()).push(occ@));
            }
        }
        n += 1;
    }
    hits
}

/// An accepted rule has a positive interval.
proof fn lemma_rule_interval_positive(parts: Seq<Seq<char>>)
    ensures
        rule_run(parts) matches Some((r, _)) ==> r.interval > 0,
    decreases parts.len(),
{
    if parts.len() > 0 {
        lemma_rule_interval_positive(parts.drop_last());
    }
}

/// True when the event (or one of its occurrences) touches `date`.
pub fn occurs_on(event: &Event, date: Date) -> (r: bool)
    ensures
        r == (occurrences_spec(event@, date@, date@).len() > 0),
{
    occurrences_between(event, date, date).len() > 0
}


/// Events are listed by start, then summary.
pub open spec fn event_precedes(a: EventView, b: EventView) -> bool {
    dt_lt(a.start, b.start) || (a.start == b.start && text_lt(a.summary, b.summary))
}

impl SortKey for EventView {
    open spec fn precedes(&self, other: &Self) -> bool {
        event_precedes(*self, *other)
    }
}

impl SortKey for Event {
    open spec fn precedes(&self, other: &Self) -> bool {
        event_precedes(self@, other@)
    }
}

/// Listing order of events is a strict weak order (start, then summary).
pub proof fn lemma_event_order()
    ensures
        crate::sort::is_strict_weak_order::<EventView>(),
{
    assert forall|a: EventView, b: EventView| #[trigger] a.precedes(&b) implies !b.precedes(&a) by {
        crate::text::lemma_text_lt_asymmetric(a.summary, b.summary);
    }
    assert forall|a: EventView, b: EventView, c: EventView|
        #![trigger a.precedes(&b), b.precedes(&c)]
        !a.precedes(&b) && !b.precedes(&c) implies !a.precedes(&c) by {
        crate::text::lemma_text_lt_total(a.summary, b.summary);
        crate::text::lemma_text_lt_total(b.summary, c.summary);
        crate::text::lemma_text_lt_asymmetric(a.summary, c.summary);
        if text_lt(a.summary, c.summary) && a.start == b.start && b.start == c.start {
            if text_lt(b.summary, a.summary) {
                crate::text::lemma_text_lt_transitive(b.summary, a.summary, c.summary);
            }
            if text_lt(c.summary, b.summary) {
                crate::text::lemma_text_lt_transitive(a.summary, c.summary, b.summary);
            }
        }
    }
}

/// Occurrences in a window are listed by start: each starts no earlier than
/// the one before; and the listing holds every occurrence of every event,
/// each once.
pub proof fn law_events_between_ordered(es: Seq<EventView>, from: int, to: int)
    ensures
        forall|i: int, j: int|
            #![trigger events_between_spec(es, from, to)[i], events_between_spec(es, from, to)[j]]
            0 <= i < j < events_between_spec(es, from, to).len() ==> crate::date::dt_le(
                events_between_spec(es, from, to)[i].start,
                events_between_spec(es, from, to)[j].start,
            ),
        events_between_spec(es, from, to).to_multiset() == all_occurrences(es, from, to).to_multiset(),
{
    lemma_event_order();
    crate::sort::lemma_sorted_ordered(all_occurrences(es, from, to));
    crate::sort::lemma_sorted_permutation(all_occurrences(es, from, to));
    let r = events_between_spec(es, from, to);
    assert forall|i: int, j: int| #![trigger r[i], r[j]] 0 <= i < j < r.len() implies crate::date::dt_le(r[i].start, r[j].start) by {
        assert(!r[j].precedes(&r[i]));
    }
}

impl SortKeyExec for Event {
    fn precedes_exec(&self, other: &Self) -> (r: bool) {
        self.start.is_before(&other.start) || (self.start.is_same(&other.start)
            && crate::text::text_less(
            &chars_of(self.summary.as_str()),
            &chars_of(other.summary.as_str()),
        ))
    }
}

/// All occurrences of `es` touching `[from, to]`, event after event.
pub open spec fn all_occurrences(es: Seq<EventView>, from: int, to: int) -> Seq<EventView>
    decreases es.len(),
{
    if es.len() == 0 {
        seq![]
    } else {
        all_occurrences(es.drop_last(), from, to) + occurrences_spec(es.last(), from, to)
    }
}

/// [`events_between`]: all occurrences, sorted (stably) by start then summary.
pub open spec fn events_between_spec(es: Seq<EventView>, from: int, to: int) -> Seq<EventView> {
    sorted(all_occurrences(es, from, to))
}

/// Event occurrences touching any day in `[start, end]`, sorted by start time.
/// Recurring events are expanded; each occurrence is a copy with shifted
/// `start`/`end` and the original `uid`.
pub fn events_between(events: &Vec<Event>, start: Date, end: Date) -> (r: Vec<Event>)
    ensures
        events_view(r@) == events_between_spec(events_view(events@), start@, end@),
{
    let ghost ev = events_view(events@);
    let mut hits: Vec<Event> = Vec::new();
    let mut i: usize = 0;
    while i < events.len()
        invariant
            ev == events_view(events@),
            i <= events.len(),
            events_view(hits@) == all_occurrences(ev.take(i as int), start@, end@),
        decreases events.len() - i,
    {
        proof {
            assert(ev.take(i + 1).drop_last() == ev.take(i as int));
            assert(ev.take(i + 1).last() == events@[i as int]@);
        }
        let mut occ = occurrences_between(&events[i], start, end);
        let ghost a = events_view(hits@);
        let ghost b = events_view(occ@);
        hits.append(&mut occ);
        proof {
            assert(events_view(hits@) =~= a + b);
        }
        i += 1;
    }
    proof {
        assert(ev.take(events.len() as int) == ev);
    }
    let ghost unsorted = hits@;
    let r = sort_by_key(hits);
    proof {
        let f = |x: Event| x@;
        assert forall|a: Event, b: Event| #[trigger] a.precedes(&b) == f(a).precedes(&f(b)) by {}
        crate::sort::lemma_sorted_map(unsorted, f);
        assert(events_view(unsorted) == unsorted.map_values(f));
        assert(events_view(r@) == sorted(unsorted).map_values(f));
    }
    r
}

/// Event occurrences touching `date`, sorted by start time.
pub fn events_on(events: &Vec<Event>, date: Date) -> (r: Vec<Event>)
    ensures
        events_view(r@) == events_between_spec(events_view(events@), date@, date@),
{
    events_between(events, date, date)
}

/// First and last day of `date`'s month (see [`month_range_spec`]).
pub open spec fn month_range_spec(date: int) -> (int, int) {
    let (y, m, _) = spec_date_ymd(date);
    let first = match spec_date_from_ymd(y, m, 1) {
        Some(f) => f,
        None => date,
    };
    let last = if m == 12 {
        match spec_date_from_ymd(y, 12, 31) {
            Some(l) => l,
            None => date,
        }
    } else {
        match spec_date_from_ymd(y, m + 1, 1) {
            Some(next) => if crate::date::valid_day(next - 1) {
                next - 1
            } else {
                date
            },
            None => date,
        }
    };
    (first, last)
}

/// First and last day of `date`'s month: the 1st, and the day before the
/// next month's 1st (December 31st in December, also in chrono's last year).
pub fn month_range(date: Date) -> (r: (Date, Date))
    ensures
        (r.0@, r.1@) == month_range_spec(date@),
{
    let (y, m, _) = chrono_ymd(&date);
    let first = match chrono_from_ymd(y, m, 1) {
        Some(f) => f,
        None => date,
    };
    let last = if m == 12 {
        match chrono_from_ymd(y, 12, 31) {
            Some(l) => l,
            None => date,
        }
    } else {
        match chrono_from_ymd(y, m + 1, 1) {
            Some(next) => match next.checked_add_days(-1) {
                Some(l) => l,
                None => date,
            },
            None => date,
        }
    };
    (first, last)
}


/// One line of the merged day views: a calendar event or a due task.
#[derive(Debug, Clone, PartialEq, Eq)]
pub enum DayItem {
    Event(Event),
    Task(TaskDue),
}

/// A day item as plain values.
pub enum DayItemView {
    Event(EventView),
    Task(TaskView),
}

impl View for DayItem {
    type V = DayItemView;

    open spec fn view(&self) -> DayItemView {
        match self {
            DayItem::Event(e) => DayItemView::Event(e@),
            DayItem::Task(t) => DayItemView::Task(t@),
        }
    }
}

pub open spec fn items_view(items: Seq<DayItem>) -> Seq<DayItemView> {
    items.map_values(|i: DayItem| i@)
}

/// `HH:MM ` for a time of day given in seconds since midnight: the hour and
/// the minute, two digits each (what `%H:%M ` writes).
pub open spec fn hh_mm_text(secs: int) -> Seq<char> {
    let h = secs / 3600;
    let m = secs % 3600 / 60;
    seq![
        digit_char((h / 10) as nat),
        digit_char((h % 10) as nat),
        ':',
        digit_char((m / 10) as nat),
        digit_char((m % 10) as nat),
        ' ',
    ]
}

/// [`hh_mm_text`] for a time of day.
fn hh_mm_exec(secs: u32) -> (r: Vec<char>)
    requires
        secs < 86400,
    ensures
        r@ == hh_mm_text(secs as int),
{
    let h = secs / 3600;
    let m = secs % 3600 / 60;
    let c0 = ((h / 10) as u8 + 48u8) as char;
    let c1 = ((h % 10) as u8 + 48u8) as char;
    let c3 = ((m / 10) as u8 + 48u8) as char;
    let c4 = ((m % 10) as u8 + 48u8) as char;
    assert(c0 == digit_char((h / 10) as nat));
    assert(c1 == digit_char((h % 10) as nat));
    assert(c3 == digit_char((m / 10) as nat));
    assert(c4 == digit_char((m % 10) as nat));
    let r = vec![c0, c1, ':', c3, c4, ' '];
    assert(r@ =~= hh_mm_text(secs as int));
    r
}

/// Sort key: the day, then `HH:MM summary` for timed events and
/// `zz title` for all-day events and tasks (so timed entries come first by
/// time, then all-day items by title).
pub open spec fn item_key(item: DayItemView) -> (int, Seq<char>) {
    match item {
        DayItemView::Event(e) => (
            e.start.0,
            if e.all_day {
                "zz "@ + e.summary
            } else {
                hh_mm_text(e.start.1) + e.summary
            },
        ),
        DayItemView::Task(t) => (t.due, "zz "@ + t.text),
    }
}

/// The day an item is listed under: an event's start date, a task's due date.
pub open spec fn item_date(item: DayItemView) -> int {
    item_key(item).0
}

pub open spec fn item_precedes(a: DayItemView, b: DayItemView) -> bool {
    let (ka, kb) = (item_key(a), item_key(b));
    ka.0 < kb.0 || (ka.0 == kb.0 && text_lt(ka.1, kb.1))
}

impl SortKey for DayItemView {
    open spec fn precedes(&self, other: &Self) -> bool {
        item_precedes(*self, *other)
    }
}

impl SortKey for DayItem {
    open spec fn precedes(&self, other: &Self) -> bool {
        item_precedes(self@, other@)
    }
}

impl DayItem {
    /// The sort key (see [`item_key`]).
    fn sort_key(&self) -> (r: (Date, Vec<char>))
        ensures
            (r.0@, r.1@) == item_key(self@),
    {
        match self {
            DayItem::Event(event) => {
                let mut key = if event.all_day {
                    chars_of("zz ")
                } else {
                    hh_mm_exec(event.start.secs())
                };
                crate::text::push_str(&mut key, event.summary.as_str());
                (event.start.date(), key)
            },
            DayItem::Task(task) => {
                let mut key = chars_of("zz ");
                crate::text::push_str(&mut key, task.text.as_str());
                (task.due, key)
            },
        }
    }

    /// The day the item is listed under.
    pub fn date(&self) -> (r: Date)
        ensures
            r@ == item_date(self@),
    {
        match self {
            DayItem::Event(event) => event.start.date(),
            DayItem::Task(task) => task.due,
        }
    }
}

impl SortKeyExec for DayItem {
    fn precedes_exec(&self, other: &Self) -> (r: bool) {
        let (da, ka) = self.sort_key();
        let (db, kb) = other.sort_key();
        da.days() < db.days() || (da.days() == db.days() && crate::text::text_less(&ka, &kb))
    }
}

/// The tasks due in `[from, to]` (`from` absent: no lower bound), in order.
pub open spec fn tasks_due_in(ts: Seq<TaskView>, from: Option<int>, to: int) -> Seq<TaskView>
    decreases ts.len(),
{
    if ts.len() == 0 {
        seq![]
    } else {
        let t = ts.last();
        let keep = t.due <= to && match from {
            Some(f) => f <= t.due,
            None => true,
        };
        tasks_due_in(ts.drop_last(), from, to) + if keep {
            seq![t]
        } else {
            seq![]
        }
    }
}

pub open spec fn event_items(es: Seq<EventView>) -> Seq<DayItemView> {
    es.map_values(|e: EventView| DayItemView::Event(e))
}

pub open spec fn task_items(ts: Seq<TaskView>) -> Seq<DayItemView> {
    ts.map_values(|t: TaskView| DayItemView::Task(t))
}

/// Events in `[from, to]` and the tasks due then (`from` absent: any task due
/// by `to`), sorted by [`item_key`] (stable).
pub open spec fn merged_spec(es: Seq<EventView>, ts: Seq<TaskView>, from: int, task_from: Option<int>, to: int) -> Seq<
    DayItemView,
> {
    sorted(event_items(events_between_spec(es, from, to)) + task_items(tasks_due_in(ts, task_from, to)))
}

fn merged(events: &Vec<Event>, tasks: &Vec<TaskDue>, from: Date, task_from: Option<Date>, to: Date) -> (r: Vec<DayItem>)
    ensures
        items_view(r@) == merged_spec(
            events_view(events@),
            tasks_view(tasks@),
            from@,
            match task_from {
                Some(d) => Some(d@),
                None => None,
            },
            to@,
        ),
{
    let occ = events_between(events, from, to);
    let ghost tf = match task_from {
        Some(d) => Some(d@),
        None => None,
    };
    let mut items: Vec<DayItem> = Vec::new();
    let mut i: usize = 0;
    while i < occ.len()
        invariant
            i <= occ.len(),
            items_view(items@) == event_items(events_view(occ@).take(i as int)),
        decreases occ.len() - i,
    {
        let ghost before = items@;
        let item = DayItem::Event(occ[i].duplicate());
        items.push(item);
        proof {
            let prefix = events_view(occ@).take(i as int);
            assert(events_view(occ@).take(i + 1) =~= prefix.push(occ@[i as int]@));
            assert(items_view(items@) =~= items_view(before).push(item@));
            assert(event_items(prefix.push(occ@[i as int]@)) =~= event_items(prefix).push(
                DayItemView::Event(occ@[i as int]@),
            ));
        }
        i += 1;
    }
    proof {
        assert(events_view(occ@).take(occ.len() as int) == events_view(occ@));
    }
    let ghost head = items_view(items@);
    let ghost tv = tasks_view(tasks@);
    let mut k: usize = 0;
    let mut chosen: Vec<DayItem> = Vec::new();
    while k < tasks.len()
        invariant
            tv == tasks_view(tasks@),
            k <= tasks.len(),
            items_view(chosen@) == task_items(tasks_due_in(tv.take(k as int), tf, to@)),
            tf == match task_from {
                Some(d) => Some(d@),
                None => None::<int>,
            },
        decreases tasks.len() - k,
    {
        proof {
            assert(tv.take(k + 1).drop_last() == tv.take(k as int));
            assert(tv.take(k + 1).last() == tasks@[k as int]@);
        }
        let t = &tasks[k];
        let keep = t.due.days() <= to.days() && match task_from {
            Some(f) => f.days() <= t.due.days(),
            None => true,
        };
        if keep {
            let copy = TaskDue { text: t.text.clone(), due: t.due, source: t.source.clone() };
            assert(copy@ == tasks@[k as int]@);
            let ghost before = chosen@;
            let item = DayItem::Task(copy);
            chosen.push(item);
            proof {
                let prev = tasks_due_in(tv.take(k as int), tf, to@);
                assert(tasks_due_in(tv.take(k + 1), tf, to@) =~= prev + seq![tasks@[k as int]@]);
                assert(items_view(chosen@) =~= items_view(before).push(item@));
                assert(task_items(prev + seq![tasks@[k as int]@]) =~= task_items(prev).push(
                    DayItemView::Task(tasks@[k as int]@),
                ));
            }
        } else {
            proof {
                let prev = tasks_due_in(tv.take(k as int), tf, to@);
                assert(tasks_due_in(tv.take(k + 1), tf, to@) =~= prev);
            }
        }
        k += 1;
    }
    proof {
        assert(tv.take(tasks.len() as int) == tv);
    }
    let ghost tail = items_view(chosen@);
    items.append(&mut chosen);
    proof {
        assert(items_view(items@) =~= head + tail);
    }
    let ghost unsorted = items@;
    let r = sort_by_key(items);
    proof {
        let f = |x: DayItem| x@;
        assert forall|a: DayItem, b: DayItem| #[trigger] a.precedes(&b) == f(a).precedes(&f(b)) by {}
        crate::sort::lemma_sorted_map(unsorted, f);
        assert(items_view(unsorted) == unsorted.map_values(f));
    }
    r
}

/// Merged "today" view: the day's events plus tasks due that day or overdue.
/// Task failures are handled by the caller (a missing vault means no tasks).
pub fn today_merged(events: &Vec<Event>, tasks: &Vec<TaskDue>, date: Date) -> (r: Vec<DayItem>)
    ensures
        items_view(r@) == merged_spec(events_view(events@), tasks_view(tasks@), date@, None, date@),
{
    merged(events, tasks, date, None, date)
}

/// Merged window view (`week`/`month`): events touching `[start, end]` plus
/// the tasks due inside the window, each grouped on its own day.
pub fn merged_between(events: &Vec<Event>, tasks: &Vec<TaskDue>, start: Date, end: Date) -> (r: Vec<DayItem>)
    ensures
        items_view(r@) == merged_spec(events_view(events@), tasks_view(tasks@), start@, Some(start@), end@),
{
    merged(events, tasks, start, Some(start), end)
}


/// An occurrence of `e`: the same event with the same texts, rule and kept
/// lines, either `e` itself or one moved in time without original date
/// lines, its end moved by the same duration as its start.
pub open spec fn occurrence_of(o: EventView, e: EventView) -> bool {
    &&& o.uid == e.uid
    &&& o.summary == e.summary
    &&& o.description == e.description
    &&& o.all_day == e.all_day
    &&& o.rrule == e.rrule
    &&& o.extra == e.extra
    &&& (o == e || (o.start_raw is None && o.end_raw is None && o.end == match e.end {
        Some(x) => spec_shift(x, o.start, e.start),
        None => None,
    }))
}

proof fn lemma_occ_loop_of(e: EventView, rule: RuleView, from: int, to: int, n: int, limit: int)
    ensures
        forall|i: int|
            0 <= i < occ_loop(e, rule, from, to, n, limit).len() ==> touches(
                #[trigger] occ_loop(e, rule, from, to, n, limit)[i],
                from,
                to,
            ) && occurrence_of(occ_loop(e, rule, from, to, n, limit)[i], e),
    decreases limit - n,
{
    if n < limit {
        lemma_occ_loop_of(e, rule, from, to, n + 1, limit);
        let r = occ_loop(e, rule, from, to, n, limit);
        let rest = occ_loop(e, rule, from, to, n + 1, limit);
        if let Some(start) = nth_start_spec(rule, e.start, n) {
            if within_until_spec(rule, start) && start.0 <= to {
                if let Some(o) = occurrence(e, start, n) {
                    let head = if touches(o, from, to) {
                        seq![o]
                    } else {
                        seq![]
                    };
                    assert(r == head + rest);
                    assert forall|i: int| 0 <= i < r.len() implies touches(#[trigger] r[i], from, to)
                        && occurrence_of(r[i], e) by {
                        if i < head.len() {
                            assert(r[i] == o);
                        } else {
                            assert(r[i] == rest[i - head.len()]);
                        }
                    }
                }
            }
        }
    }
}

/// Every occurrence listed in a window touches the window and is an
/// occurrence of the event: same UID, texts, all-day flag, rule and kept
/// lines, and either the event itself or a moved copy with no original
/// date lines whose end is moved by the same duration as its start.
pub proof fn law_occurrences_of_event(e: EventView, from: int, to: int)
    ensures
        forall|i: int|
            0 <= i < occurrences_spec(e, from, to).len() ==> touches(
                #[trigger] occurrences_spec(e, from, to)[i],
                from,
                to,
            ) && occurrence_of(occurrences_spec(e, from, to)[i], e),
{
    match event_rule(e) {
        None => {},
        Some(rule) => {
            let first = first_candidate_spec(rule, e, from);
            let cap = min_int(first + MAX_OCCURRENCES, u32::MAX as int);
            let limit = match rule.count {
                Some(c) => min_int(c, cap),
                None => min_int(u32::MAX as int, cap),
            };
            lemma_occ_loop_of(e, rule, from, to, first, limit);
        },
    }
}


/// Texts that agree before index `k` and differ there are ordered by that
/// character.
proof fn lemma_text_lt_at(a: Seq<char>, b: Seq<char>, k: int)
    requires
        0 <= k < a.len(),
        k < b.len(),
        forall|i: int| 0 <= i < k ==> a[i] == b[i],
        a[k] < b[k],
    ensures
        text_lt(a, b),
    decreases k,
{
    if k > 0 {
        assert(a[0] == b[0]);
        lemma_text_lt_at(a.drop_first(), b.drop_first(), k - 1);
    }
}

/// Two digits order as their values.
proof fn lemma_two_digits(x: int, y: int)
    requires
        0 <= x < y < 100,
    ensures
        x / 10 < y / 10 || (x / 10 == y / 10 && x % 10 < y % 10),
{
}

/// A time in an earlier minute has a smaller `HH:MM ` key, whatever follows.
proof fn lemma_hh_mm_order(x: int, y: int, sx: Seq<char>, sy: Seq<char>)
    requires
        0 <= x < 86400,
        0 <= y < 86400,
        x / 60 < y / 60,
    ensures
        text_lt(hh_mm_text(x) + sx, hh_mm_text(y) + sy),
{
    let hx = x / 3600;
    let mx = x % 3600 / 60;
    let hy = y / 3600;
    let my = y % 3600 / 60;
    assert(x / 60 == hx * 60 + mx && y / 60 == hy * 60 + my && 0 <= mx < 60 && 0 <= my < 60 && 0 <= hx < 24
        && 0 <= hy < 24) by (nonlinear_arith)
        requires
            0 <= x < 86400,
            0 <= y < 86400,
            hx == x / 3600,
            mx == x % 3600 / 60,
            hy == y / 3600,
            my == y % 3600 / 60,
    ;
    let a = hh_mm_text(x) + sx;
    let b = hh_mm_text(y) + sy;
    assert(a[2] == ':' && b[2] == ':');
    if hx < hy {
        lemma_two_digits(hx, hy);
        if hx / 10 < hy / 10 {
            lemma_text_lt_at(a, b, 0);
        } else {
            assert(a[0] == b[0]);
            lemma_text_lt_at(a, b, 1);
        }
    } else {
        assert(hx == hy);
        assert(mx < my);
        lemma_two_digits(mx, my);
        assert(a[0] == b[0] && a[1] == b[1]);
        if mx / 10 < my / 10 {
            lemma_text_lt_at(a, b, 3);
        } else {
            assert(a[3] == b[3]);
            lemma_text_lt_at(a, b, 4);
        }
    }
}

/// Listing order of day items (day, then key text) is a strict weak order.
proof fn lemma_item_order()
    ensures
        crate::sort::is_strict_weak_order::<DayItemView>(),
{
    assert forall|a: DayItemView, b: DayItemView| #[trigger] a.precedes(&b) implies !b.precedes(&a) by {
        crate::text::lemma_text_lt_asymmetric(item_key(a).1, item_key(b).1);
    }
    assert forall|a: DayItemView, b: DayItemView, c: DayItemView|
        #![trigger a.precedes(&b), b.precedes(&c)]
        !a.precedes(&b) && !b.precedes(&c) implies !a.precedes(&c) by {
        let (ka, kb, kc) = (item_key(a).1, item_key(b).1, item_key(c).1);
        crate::text::lemma_text_lt_total(ka, kb);
        crate::text::lemma_text_lt_total(kb, kc);
        crate::text::lemma_text_lt_asymmetric(ka, kc);
        if item_key(a).0 == item_key(c).0 && text_lt(ka, kc) && item_key(a).0 == item_key(b).0 {
            if text_lt(kb, ka) {
                crate::text::lemma_text_lt_transitive(kb, ka, kc);
            }
            if text_lt(kc, kb) {
                crate::text::lemma_text_lt_transitive(ka, kc, kb);
            }
        }
    }
}

/// `x` and `y` are timed events on the same day, `x` starting in an
/// earlier minute than `y`.
pub open spec fn timed_earlier(x: DayItemView, y: DayItemView) -> bool {
    match (x, y) {
        (DayItemView::Event(a), DayItemView::Event(b)) => {
            &&& !a.all_day
            &&& !b.all_day
            &&& a.start.0 == b.start.0
            &&& 0 <= a.start.1 < 86400
            &&& 0 <= b.start.1 < 86400
            &&& a.start.1 / 60 < b.start.1 / 60
        },
        _ => false,
    }
}

/// `y` is an all-day item: an all-day event or a task.
pub open spec fn all_day_item(y: DayItemView) -> bool {
    match y {
        DayItemView::Event(b) => b.all_day,
        DayItemView::Task(_) => true,
    }
}

/// `x` is a timed event (its time of day valid).
pub open spec fn timed_item(x: DayItemView) -> bool {
    match x {
        DayItemView::Event(a) => !a.all_day && 0 <= a.start.1 < 86400,
        DayItemView::Task(_) => false,
    }
}

/// The day of an item: an event's start date, a task's due date.
pub open spec fn day_of(x: DayItemView) -> int {
    match x {
        DayItemView::Event(a) => a.start.0,
        DayItemView::Task(t) => t.due,
    }
}

/// The order the merged views promise: earlier days first; within a day,
/// timed events by start time, then all-day events and tasks.
pub open spec fn listed_before(x: DayItemView, y: DayItemView) -> bool {
    ||| day_of(x) < day_of(y)
    ||| timed_earlier(x, y)
    ||| (day_of(x) == day_of(y) && timed_item(x) && all_day_item(y))
}

/// A timed `HH:MM ` key comes before an all-day `zz ` key.
proof fn lemma_timed_before_all_day(secs: int, sx: Seq<char>, sy: Seq<char>)
    requires
        0 <= secs < 86400,
    ensures
        text_lt(hh_mm_text(secs) + sx, "zz "@ + sy),
{
    reveal_strlit("zz ");
    let h = secs / 3600;
    assert(0 <= h / 10 <= 2) by (nonlinear_arith)
        requires
            0 <= secs < 86400,
            h == secs / 3600,
    ;
    let a = hh_mm_text(secs) + sx;
    let b = "zz "@ + sy;
    assert(a[0] == digit_char((h / 10) as nat));
    assert(b[0] == 'z');
    lemma_text_lt_at(a, b, 0);
}

/// The merged day views list items in the promised order: earlier days
/// first; within a day, timed events by start time (to the minute), then
/// all-day events and tasks.
pub proof fn law_merged_order(es: Seq<EventView>, ts: Seq<TaskView>, from: int, task_from: Option<int>, to: int)
    ensures
        forall|i: int, j: int|
            0 <= i < merged_spec(es, ts, from, task_from, to).len() && 0 <= j < merged_spec(
                es,
                ts,
                from,
                task_from,
                to,
            ).len() && listed_before(
                #[trigger] merged_spec(es, ts, from, task_from, to)[i],
                #[trigger] merged_spec(es, ts, from, task_from, to)[j],
            ) ==> i < j,
{
    let all = event_items(events_between_spec(es, from, to)) + task_items(tasks_due_in(ts, task_from, to));
    let r = merged_spec(es, ts, from, task_from, to);
    lemma_item_order();
    crate::sort::lemma_sorted_ordered(all);
    assert forall|i: int, j: int|
        0 <= i < r.len() && 0 <= j < r.len() && listed_before(#[trigger] r[i], #[trigger] r[j]) implies i < j by {
        let x = r[i];
        let y = r[j];
        if day_of(x) < day_of(y) {
        } else if timed_earlier(x, y) {
            let a = x->Event_0;
            let b = y->Event_0;
            lemma_hh_mm_order(a.start.1, b.start.1, a.summary, b.summary);
        } else {
            let a = x->Event_0;
            match y {
                DayItemView::Event(b) => lemma_timed_before_all_day(a.start.1, a.summary, b.summary),
                DayItemView::Task(tk) => lemma_timed_before_all_day(a.start.1, a.summary, tk.text),
            }
        }
        assert(item_precedes(x, y));
        if j < i {
            assert(!r[i].precedes(&r[j]));
        }
    }
}

/// Moving a datetime by whole days keeps its time of day (a leap second,
/// moved forward, becomes the second it follows).
proof fn lemma_add_days(dt: (int, int, int), d: int)
    requires
        0 <= dt.1 < 86400,
        dt.2 < crate::date::LEAP_FRAC || d >= 0,
    ensures
        spec_add_seconds(dt, d * 86400) matches Some(s) ==> s.0 == dt.0 + d && s.1 == dt.1 && (dt.2
            < crate::date::LEAP_FRAC ==> s.2 == dt.2),
        spec_add_seconds(dt, d * 86400) is Some <==> (-crate::date::MAX_DELTA_SECS <= d * 86400
            <= crate::date::MAX_DELTA_SECS && crate::date::valid_day(dt.0 + d)),
{
    reveal(spec_add_seconds);
    let k = d * 86400;
    let t = (dt.0 + d) * 86400 + dt.1;
    assert(dt.0 * 86400 + dt.1 + k == t) by (nonlinear_arith)
        requires
            k == d * 86400,
            t == (dt.0 + d) * 86400 + dt.1,
    ;
    vstd::arithmetic::div_mod::lemma_fundamental_div_mod_converse(t, 86400, dt.0 + d, dt.1);
}

/// Moving an end by the duration between two starts a whole number of days
/// apart (same time of day, no leap seconds) moves it by those days.
proof fn lemma_shift_days(end: (int, int, int), s: (int, int, int), start: (int, int, int), d: int)
    requires
        0 <= end.1 < 86400,
        0 <= end.2 < crate::date::LEAP_FRAC,
        0 <= start.2 < crate::date::LEAP_FRAC,
        s == (start.0 + d, start.1, start.2),
    ensures
        spec_shift(end, s, start) matches Some(x) ==> x == (end.0 + d, end.1, end.2),
{
    reveal(spec_shift);
    let n = crate::date::dt_nanos(end) + crate::date::dt_nanos(s) - crate::date::dt_nanos(start);
    let r = end.1 * 1_000_000_000 + end.2;
    assert(n == (end.0 + d) * 86_400_000_000_000 + r && 0 <= r < 86_400_000_000_000) by (nonlinear_arith)
        requires
            n == crate::date::dt_nanos(end) + crate::date::dt_nanos(s) - crate::date::dt_nanos(start),
            crate::date::dt_nanos(end) == (end.0 * 86400 + end.1) * 1_000_000_000 + end.2,
            crate::date::dt_nanos(s) == ((start.0 + d) * 86400 + start.1) * 1_000_000_000 + start.2,
            crate::date::dt_nanos(start) == (start.0 * 86400 + start.1) * 1_000_000_000 + start.2,
            r == end.1 * 1_000_000_000 + end.2,
            0 <= end.1 < 86400,
            0 <= end.2 < 1_000_000_000,
    ;
    vstd::arithmetic::div_mod::lemma_fundamental_div_mod_converse(n, 86_400_000_000_000, end.0 + d, r);
    vstd::arithmetic::div_mod::lemma_fundamental_div_mod_converse(r, 1_000_000_000, end.1, end.2);
    assert(n == ((end.0 + d) * 86400 + end.1) * 1_000_000_000 + end.2) by (nonlinear_arith)
        requires
            n == (end.0 + d) * 86_400_000_000_000 + r,
            r == end.1 * 1_000_000_000 + end.2,
    ;
    vstd::arithmetic::div_mod::lemma_fundamental_div_mod_converse(
        n,
        1_000_000_000,
        (end.0 + d) * 86400 + end.1,
        end.2,
    );
}

/// Day number of the 1st of March of the March-based year `yy` (the year
/// whose February ends it), less 306: the part of
/// [`civil_day_number`](crate::date::civil_day_number) that depends on the year.
pub open spec fn year_base(yy: int) -> int {
    (yy / 400) * 146097 + (yy % 400) * 365 + (yy % 400) / 4 - (yy % 400) / 100
}

/// A March-based year has 365 or 366 days.
proof fn lemma_year_length(yy: int)
    ensures
        365 <= year_base(yy + 1) - year_base(yy) <= 366,
{
    let e = yy / 400;
    let o = yy % 400;
    assert(yy == e * 400 + o && 0 <= o < 400) by {
        vstd::arithmetic::div_mod::lemma_fundamental_div_mod(yy, 400);
    }
    if o < 399 {
        vstd::arithmetic::div_mod::lemma_fundamental_div_mod_converse(yy + 1, 400, e, o + 1);
        assert(0 <= (o + 1) / 4 - o / 4 <= 1 && 0 <= (o + 1) / 100 - o / 100 <= 1 && ((o + 1) / 100 - o / 100
            == 1 ==> (o + 1) / 4 - o / 4 == 1)) by (nonlinear_arith)
            requires
                0 <= o < 399,
        ;
    } else {
        vstd::arithmetic::div_mod::lemma_fundamental_div_mod_converse(yy + 1, 400, e + 1, 0);
    }
}

/// The day number of the 1st of month `t` counted from January of year 0.
pub open spec fn month_start(t: int) -> int {
    crate::date::civil_day_number(t / 12, t % 12 + 1, 1)
}

proof fn lemma_civil_parts(y: int, m: int, d: int)
    requires
        1 <= m <= 12,
    ensures
        crate::date::civil_day_number(y, m, d) == year_base(if m <= 2 {
            y - 1
        } else {
            y
        }) + (153 * (if m > 2 {
            m - 3
        } else {
            m + 9
        }) + 2) / 5 + d - 1 - 305,
{
}

/// A month has at most 31 days.
proof fn lemma_month_step(t: int)
    ensures
        month_start(t + 1) - month_start(t) <= 31,
{
    let y = t / 12;
    let r = t % 12;
    assert(t == y * 12 + r && 0 <= r < 12) by {
        vstd::arithmetic::div_mod::lemma_fundamental_div_mod(t, 12);
    }
    if r < 11 {
        vstd::arithmetic::div_mod::lemma_fundamental_div_mod_converse(t + 1, 12, y, r + 1);
    } else {
        vstd::arithmetic::div_mod::lemma_fundamental_div_mod_converse(t + 1, 12, y + 1, 0);
    }
    lemma_civil_parts(y, r + 1, 1);
    if r < 11 {
        lemma_civil_parts(y, r + 2, 1);
    } else {
        lemma_civil_parts(y + 1, 1, 1);
    }
    if r == 1 {
        lemma_year_length(y - 1);
    }
}

/// `k` months span at most `31 * k` days.
proof fn lemma_months_span(t: int, k: int)
    requires
        k >= 0,
    ensures
        month_start(t + k) - month_start(t) <= 31 * k,
    decreases k,
{
    if k > 0 {
        lemma_months_span(t, k - 1);
        lemma_month_step(t + k - 1);
    }
}

/// `j` years span at most `366 * j` days.
proof fn lemma_years_span(t: int, j: int)
    requires
        j >= 0,
    ensures
        month_start(t + 12 * j) - month_start(t) <= 366 * j,
    decreases j,
{
    if j > 0 {
        lemma_years_span(t, j - 1);
        let u = t + 12 * (j - 1);
        let y = u / 12;
        let r = u % 12;
        assert(u == y * 12 + r && 0 <= r < 12) by {
            vstd::arithmetic::div_mod::lemma_fundamental_div_mod(u, 12);
        }
        vstd::arithmetic::div_mod::lemma_fundamental_div_mod_converse(u + 12, 12, y + 1, r);
        assert(t + 12 * j == u + 12);
        lemma_civil_parts(y, r + 1, 1);
        lemma_civil_parts(y + 1, r + 1, 1);
        if r + 1 <= 2 {
            lemma_year_length(y - 1);
        } else {
            lemma_year_length(y);
        }
    }
}

/// Adding `k` months moves a calendar date forward by at most `31 * k`
/// days, and keeps its time of day.
proof fn lemma_add_months_span(dt: (int, int, int), k: int)
    requires
        k >= 0,
        crate::date::spec_date_from_ymd(
            crate::date::spec_date_ymd(dt.0).0,
            crate::date::spec_date_ymd(dt.0).1,
            crate::date::spec_date_ymd(dt.0).2,
        ) == Some(dt.0),
    ensures
        spec_add_months(dt, k) matches Some(s) ==> s.0 <= dt.0 + 31 * k && s.1 == dt.1 && s.2 == dt.2,
        k % 12 == 0 ==> (spec_add_months(dt, k) matches Some(s) ==> s.0 <= dt.0 + 366 * (k / 12)),
{
    reveal(spec_add_months);
    reveal(crate::date::spec_date_from_ymd);
    if k > 0 && k <= i32::MAX {
        let (y, m, d) = crate::date::spec_date_ymd(dt.0);
        let t = y * 12 + m - 1;
        assert(1 <= m <= 12 && 1 <= d);
        vstd::arithmetic::div_mod::lemma_fundamental_div_mod_converse(t, 12, y, m - 1);
        lemma_civil_parts(y, m, d);
        lemma_civil_parts(y, m, 1);
        let tk = t + k;
        let ny = tk / 12;
        let nm = tk % 12 + 1;
        assert(tk == ny * 12 + (nm - 1) && 1 <= nm <= 12) by {
            vstd::arithmetic::div_mod::lemma_fundamental_div_mod(tk, 12);
        }
        let dim = crate::date::days_in_month(ny, nm);
        let nd = if d > dim {
            dim
        } else {
            d
        };
        lemma_civil_parts(ny, nm, nd);
        lemma_civil_parts(ny, nm, 1);
        lemma_months_span(t, k);
        if k % 12 == 0 {
            let j = k / 12;
            assert(k == 12 * j) by {
                vstd::arithmetic::div_mod::lemma_fundamental_div_mod(k, 12);
            }
            lemma_years_span(t, j);
        }
    }
}

/// An occurrence moved `d` whole days ends at most `d` days after the
/// event does (earlier only where its end falls outside chrono's range).
proof fn lemma_moved_end(e: EventView, o: EventView, d: int)
    requires
        o.start.0 == e.start.0 + d,
        o.start.1 == e.start.1,
        o.all_day == e.all_day,
        crate::date::valid_day(e.start.0),
        match (e.end, o.end) {
            (Some(x), Some(y)) => 0 <= x.1 < 86400 && x.2 < crate::date::LEAP_FRAC && o.start.2 == e.start.2
                && crate::date::valid_day(x.0) && y == (x.0 + d, x.1, x.2),
            (None, None) => true,
            _ => false,
        },
    ensures
        end_or_start_spec(o).0 <= end_or_start_spec(e).0 + d,
{
    if let (Some(x), Some(y)) = (e.end, o.end) {
        if e.all_day {
            lemma_add_days(x, -1);
            lemma_add_days(y, -1);
            assert(-1 * 86400 == -86400);
            let lx = spec_add_seconds(x, -86400);
            let ly = spec_add_seconds(y, -86400);
            if let Some(l) = lx {
                if !crate::date::dt_lt(l, e.start) {
                    assert(end_or_start_spec(e) == l);
                } else {
                    assert(end_or_start_spec(e) == e.start);
                    if let Some(m) = ly {
                        assert(crate::date::dt_lt(m, o.start));
                    }
                }
            } else {
                assert(end_or_start_spec(e) == e.start);
                assert(!crate::date::valid_day(x.0 - 1));
            }
        }
    }
}

/// The most days one step of a rule moves an occurrence forward: a day, a
/// week, the longest month, a leap year.
pub open spec fn max_days_per_step(freq: Freq) -> int {
    match freq {
        Freq::Daily => 1,
        Freq::Weekly => 7,
        Freq::Monthly => 31,
        Freq::Yearly => 366,
    }
}

/// Starting the scan of a rule at its first candidate skips nothing: the
/// `n`-th occurrence starts at the event's time of day, at most `n` steps
/// of the rule's longest length after the event (exactly `n` days or weeks
/// for a daily or weekly rule), and every occurrence before the first
/// candidate ends before `from`. The event's start is a calendar date as
/// chrono reads it back; for an event with an end, neither its start nor
/// its end is a leap second.
pub proof fn law_first_candidate_skips_nothing(rule: RuleView, e: EventView, from: int, n: int)
    requires
        rule.interval > 0,
        0 <= e.start.1 < 86400,
        0 <= e.start.2,
        crate::date::valid_day(e.start.0),
        crate::date::spec_date_from_ymd(
            crate::date::spec_date_ymd(e.start.0).0,
            crate::date::spec_date_ymd(e.start.0).1,
            crate::date::spec_date_ymd(e.start.0).2,
        ) == Some(e.start.0),
        e.end matches Some(x) ==> 0 <= x.1 < 86400 && 0 <= x.2 < crate::date::LEAP_FRAC && crate::date::valid_day(x.0)
            && e.start.2 < crate::date::LEAP_FRAC,
        0 <= n < first_candidate_spec(rule, e, from),
    ensures
        nth_start_spec(rule, e.start, n) matches Some(s) ==> s.1 == e.start.1 && s.0 <= e.start.0 + n
            * rule.interval * max_days_per_step(rule.freq),
        nth_start_spec(rule, e.start, n) matches Some(s) ==> ((rule.freq == Freq::Daily || rule.freq
            == Freq::Weekly) ==> s.0 == e.start.0 + n * rule.interval * max_days_per_step(rule.freq)),
        nth_start_spec(rule, e.start, n) matches Some(s) ==> (occurrence(e, s, n) matches Some(o)
            ==> end_or_start_spec(o).0 < from),
{
    let c = max_days_per_step(rule.freq);
    let span = end_or_start_spec(e).0 - e.start.0;
    let gap = from - e.start.0 - span;
    let q = first_candidate_spec(rule, e, from);
    let steps = gap / c;
    assert(gap > 0);
    assert(q <= steps / rule.interval);
    let bound = n * rule.interval * c;
    assert(c * (n + 1) * rule.interval <= gap && bound >= 0 && bound + c * rule.interval == c * (n + 1)
        * rule.interval) by (nonlinear_arith)
        requires
            rule.interval > 0,
            0 <= n < q,
            q <= steps / rule.interval,
            steps == gap / c,
            c >= 1,
            gap > 0,
            bound == n * rule.interval * c,
    ;
    let steps_n = n * rule.interval;
    assert(bound == steps_n * c) by (nonlinear_arith)
        requires
            bound == n * rule.interval * c,
            steps_n == n * rule.interval,
    ;
    if let Some(s) = nth_start_spec(rule, e.start, n) {
        if rule.freq == Freq::Daily || rule.freq == Freq::Weekly {
            if rule.freq == Freq::Daily {
                assert(steps_n * 86400 == bound * 86400);
            } else {
                assert(steps_n * 604800 == bound * 86400) by (nonlinear_arith)
                    requires
                        bound == steps_n * 7,
                ;
            }
            lemma_add_days(e.start, bound);
        } else if rule.freq == Freq::Monthly {
            lemma_add_months_span(e.start, steps_n);
        } else {
            lemma_add_months_span(e.start, steps_n * 12);
            assert((steps_n * 12) % 12 == 0 && (steps_n * 12) / 12 == steps_n) by {
                vstd::arithmetic::div_mod::lemma_fundamental_div_mod_converse(steps_n * 12, 12, steps_n, 0);
            }
        }
        assert(s.0 <= e.start.0 + bound && s.1 == e.start.1);
        if n == 0 {
            reveal(spec_add_seconds);
            reveal(spec_add_months);
            assert(s == e.start);
        }
        let d = s.0 - e.start.0;
        if let Some(o) = occurrence(e, s, n) {
            if n > 0 {
                if let Some(x) = e.end {
                    assert(s == (e.start.0 + d, e.start.1, e.start.2));
                    lemma_shift_days(x, s, e.start, d);
                }
                lemma_moved_end(e, o, d);
            } else {
                lemma_moved_end(e, o, 0);
            }
        }
    }
}


/// Occurrence `m` of a rule exists, is within `UNTIL` and starts no later
/// than `to` (so the expansion goes on past it).
pub open spec fn scanned(e: EventView, rule: RuleView, to: int, m: int) -> bool {
    match nth_start_spec(rule, e.start, m) {
        Some(s) => within_until_spec(rule, s) && s.0 <= to && occurrence(e, s, m) is Some,
        None => false,
    }
}

proof fn lemma_occ_loop_has(e: EventView, rule: RuleView, from: int, to: int, k: int, n: int, limit: int)
    requires
        k <= n < limit,
        forall|m: int| k <= m <= n ==> scanned(e, rule, to, m),
        touches(occurrence(e, nth_start_spec(rule, e.start, n)->0, n)->0, from, to),
    ensures
        occ_loop(e, rule, from, to, k, limit).contains(occurrence(e, nth_start_spec(rule, e.start, n)->0, n)->0),
    decreases n - k,
{
    let target = occurrence(e, nth_start_spec(rule, e.start, n)->0, n)->0;
    assert(scanned(e, rule, to, k));
    let s = nth_start_spec(rule, e.start, k)->0;
    let o = occurrence(e, s, k)->0;
    let head = if touches(o, from, to) {
        seq![o]
    } else {
        seq![]
    };
    let rest = occ_loop(e, rule, from, to, k + 1, limit);
    assert(occ_loop(e, rule, from, to, k, limit) == head + rest);
    if k == n {
        assert((head + rest)[0] == target);
    } else {
        lemma_occ_loop_has(e, rule, from, to, k + 1, n, limit);
        let j = choose|j: int| 0 <= j < rest.len() && rest[j] == target;
        assert((head + rest)[head.len() + j] == target);
    }
}

/// The expansion of a recurring event is complete: every occurrence `n`
/// from the first candidate on, below `COUNT`, `u32::MAX` and the scan cap,
/// whose days touch `[from, to]` is listed, provided each occurrence from
/// the first candidate through `n` exists, is within `UNTIL` and starts no
/// later than `to` (where one does not, the expansion stops, as it must
/// once starts pass `to` or `UNTIL`). Together with
/// [`law_first_candidate_skips_nothing`], no touching occurrence is lost.
pub proof fn law_expansion_complete(e: EventView, from: int, to: int, n: int)
    requires
        event_rule(e) is Some,
        first_candidate_spec(event_rule(e)->0, e, from) <= n,
        event_rule(e)->0.count matches Some(c) ==> n < c,
        n < first_candidate_spec(event_rule(e)->0, e, from) + MAX_OCCURRENCES,
        n < u32::MAX,
        forall|m: int|
            first_candidate_spec(event_rule(e)->0, e, from) <= m <= n ==> scanned(e, event_rule(e)->0, to, m),
        touches(occurrence(e, nth_start_spec(event_rule(e)->0, e.start, n)->0, n)->0, from, to),
    ensures
        occurrences_spec(e, from, to).contains(
            occurrence(e, nth_start_spec(event_rule(e)->0, e.start, n)->0, n)->0,
        ),
{
    let rule = event_rule(e)->0;
    let first = first_candidate_spec(rule, e, from);
    let cap = min_int(first + MAX_OCCURRENCES, u32::MAX as int);
    let limit = match rule.count {
        Some(c) => min_int(c, cap),
        None => min_int(u32::MAX as int, cap),
    };
    lemma_occ_loop_has(e, rule, from, to, first, n, limit);
}
} // verus!
