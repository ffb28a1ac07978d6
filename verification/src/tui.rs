//! The logic of the interactive month + agenda view: the month grid, the
//! selected day's agenda, the texts shown, and how each key changes the
//! view's state. Drawing on the terminal and reading keys are the caller's
//! part; the caller hands each key to [`TuiState::handle_key`] and performs
//! the [`Action`] it returns.
use vstd::prelude::*;
use crate::date::{
    Date, DateTime, valid_day, spec_date_ymd, spec_date_from_ymd, spec_format_date, spec_format_datetime,
    chrono_format_date, chrono_format_datetime,
};
use crate::ics::{Event, EventView, events_view};
use crate::query::{
    DayItem, DayItemView, items_view, events_between_spec, tasks_due_in, event_items, task_items,
    merged_spec, occurrences_spec, events_on, occurs_on, today_merged,
};
use crate::sort::{SortKey, SortKeyExec, sorted, sort_by_key};
use crate::tasks::{TaskDue, TaskView, tasks_view};
use crate::text::{chars_of, string_of, push_str, push_all, same_text, text_lt, text_less, decimal, decimal_exec, pad_left, pad_left_exec};
use crate::cli::plural_spec;
use crate::week::{WeekStart, spec_days_since_start};

verus! {

/// Two-letter weekday header for the month grid, ordered by `week_start`.
pub open spec fn weekday_header_spec(week_start: WeekStart) -> Seq<char> {
    match week_start {
        WeekStart::Monday => "Mo Tu We Th Fr Sa Su"@,
        WeekStart::Sunday => "Su Mo Tu We Th Fr Sa"@,
    }
}

pub fn weekday_header(week_start: WeekStart) -> (r: &'static str)
    ensures
        r@ == weekday_header_spec(week_start),
{
    match week_start {
        WeekStart::Monday => "Mo Tu We Th Fr Sa Su",
        WeekStart::Sunday => "Su Mo Tu We Th Fr Sa",
    }
}

/// `s` cut to `max` characters, the last one replaced by `…` when cut.
pub open spec fn truncate_spec(s: Seq<char>, max: int) -> Seq<char> {
    if s.len() <= max {
        s
    } else if max <= 1 {
        "…"@
    } else {
        s.take(max - 1) + "…"@
    }
}

pub fn truncate(s: &str, max: usize) -> (r: String)
    ensures
        r@ == truncate_spec(s@, max as int),
{
    let v = chars_of(s);
    if v.len() <= max {
        return string_of(v.as_slice());
    }
    if max <= 1 {
        return string_of(chars_of("…").as_slice());
    }
    let mut out = crate::text::slice(&v, 0, max - 1);
    push_str(&mut out, "…");
    proof {
        assert(v@.subrange(0, max - 1) =~= v@.take(max - 1));
    }
    string_of(out.as_slice())
}

/// The last day number of `year-month`: the day before the first of the
/// following month (see [`last_day_of_month`]).
pub open spec fn last_day_spec(year: int, month: int) -> Option<int> {
    let (ny, nm) = if month == 12 {
        (year + 1, 1int)
    } else {
        (year, month + 1)
    };
    match spec_date_from_ymd(ny, nm, 1) {
        Some(f) => if valid_day(f - 1) {
            Some(spec_date_ymd(f - 1).2)
        } else {
            None
        },
        None => None,
    }
}

/// The number of days in `year-month`; `None` when chrono has no first day
/// of the following month, or no day before it.
pub fn last_day_of_month(year: i32, month: u32) -> (r: Option<u32>)
    requires
        month < u32::MAX,
        month == 12 ==> year < i32::MAX,
    ensures
        match r {
            Some(d) => last_day_spec(year as int, month as int) == Some(d as int),
            None => last_day_spec(year as int, month as int) is None,
        },
{
    let (ny, nm) = if month == 12 {
        (year + 1, 1u32)
    } else {
        (year, month + 1)
    };
    match Date::from_ymd(ny, nm, 1) {
        Some(first) => match first.checked_add_days(-1) {
            Some(last) => Some(last.ymd().2),
            None => None,
        },
        None => None,
    }
}

/// The month `delta` months away from year `y`, month `m`: `(year, month)`
/// with the month in `1..=12`.
pub open spec fn month_plus(y: int, m: int, delta: int) -> (int, int) {
    let t = y * 12 + (m - 1) + delta;
    (t / 12, t % 12 + 1)
}

/// Same day number in the month `delta` months away, clamped to that month's
/// length. Where chrono cannot represent the target month (only at the ends
/// of its range) the date is kept.
pub open spec fn shift_month_spec(date: int, delta: int) -> int {
    let (y, m, d) = spec_date_ymd(date);
    let (ny, nm) = month_plus(y, m, delta);
    if !(i32::MIN <= ny && ny < i32::MAX) {
        date
    } else {
        match last_day_spec(ny, nm) {
            None => date,
            Some(last) => match spec_date_from_ymd(ny, nm, if d < last { d } else { last }) {
                Some(x) => x,
                None => date,
            },
        }
    }
}

/// Same month position `delta` months away, the day clamped to the target
/// month's length (Jan 31 + 1 month is Feb 28).
pub fn shift_month(date: Date, delta: i32) -> (r: Date)
    ensures
        r@ == shift_month_spec(date@, delta as int),
{
    let (y, m, d) = date.ymd();
    // Shift by a whole number of years so that the month count is positive,
    // divide, and shift back.
    let offset: i64 = 4294967296;
    let t: i64 = (y as i64) * 12 + (m as i64 - 1) + (delta as i64) + offset * 12;
    assert(t > 0) by (nonlinear_arith)
        requires
            t == y * 12 + (m - 1) + delta + offset * 12,
            i32::MIN <= y <= i32::MAX,
            i32::MIN <= delta <= i32::MAX,
            1 <= m <= 12,
            offset == 4294967296,
    ;
    let q: i64 = t / 12;
    let rem: i64 = t % 12;
    let yy: i64 = q - offset;
    let mm: i64 = rem + 1;
    proof {
        let tt = y * 12 + (m - 1) + delta;
        assert(tt == yy * 12 + (mm - 1));
        assert(0 <= mm - 1 < 12);
        assert(tt / 12 == yy && tt % 12 == mm - 1) by {
            vstd::arithmetic::div_mod::lemma_fundamental_div_mod_converse(tt, 12, yy as int, mm - 1);
        }
    }
    if yy < i32::MIN as i64 || yy >= i32::MAX as i64 {
        return date;
    }
    let ny = yy as i32;
    let nm = mm as u32;
    match last_day_of_month(ny, nm) {
        None => date,
        Some(last) => {
            let nd = if d < last {
                d
            } else {
                last
            };
            match Date::from_ymd(ny, nm, nd) {
                Some(x) => x,
                None => date,
            }
        },
    }
}

/// The number of grid weeks from week `k` on, for a grid starting on day
/// `start` for the month whose first day is `first`: weeks continue until
/// one reaches the month's last day (the day after it lies past the month),
/// six at most. `None` when a
/// day the grid reaches, or the day after a week, leaves chrono's range.
pub open spec fn weeks_from(start: int, first: int, month: int, k: nat) -> Option<nat>
    decreases 6 - k,
{
    if k >= 6 {
        Some(k)
    } else {
        let last = start + 7 * k + 6;
        if !valid_day(last + 1) {
            None
        } else if (spec_date_ymd(last + 1).1 != month && last + 1 > first) || k + 1 >= 6 {
            Some(k + 1)
        } else {
            weeks_from(start, first, month, k + 1)
        }
    }
}

/// The month grid of `year-month`: its first day and number of weeks.
/// The grid starts on the `week_start` day on or before the 1st.
pub open spec fn month_grid_spec(year: int, month: int, week_start: WeekStart) -> Option<(int, nat)> {
    match spec_date_from_ymd(year, month, 1) {
        None => None,
        Some(f) => {
            let start = f - spec_days_since_start(week_start, f);
            if !valid_day(start) {
                None
            } else {
                match weeks_from(start, f, month, 0) {
                    Some(n) => Some((start, n)),
                    None => None,
                }
            }
        },
    }
}

/// Weeks of a month, ordered by `week_start`. Each week has exactly 7 days;
/// edge weeks include days from the next/previous month. `None` when the
/// month or a day of its grid is outside chrono's range.
pub fn month_weeks(year: i32, month: u32, week_start: WeekStart) -> (r: Option<Vec<Vec<Date>>>)
    ensures
        match month_grid_spec(year as int, month as int, week_start) {
            None => r is None,
            Some((start, n)) => r matches Some(w) && w@.len() == n && forall|k: int, j: int|
                0 <= k < n && 0 <= j < 7 ==> (#[trigger] w@[k])@.len() == 7 && (#[trigger] w@[k]@[j])@
                    == start + 7 * k + j,
        },
{
    let first = match Date::from_ymd(year, month, 1) {
        Some(f) => f,
        None => return None,
    };
    let offset = week_start.days_since_start(first);
    let start = match first.checked_add_days(-offset) {
        Some(s) => s,
        None => return None,
    };
    let mut weeks: Vec<Vec<Date>> = Vec::new();
    let mut k: usize = 0;
    loop
        invariant
            k < 6,
            weeks@.len() == k,
            valid_day(start@),
            start@ == first@ - spec_days_since_start(week_start, first@),
            spec_date_from_ymd(year as int, month as int, 1) == Some(first@),
            weeks_from(start@, first@, month as int, 0) == weeks_from(start@, first@, month as int, k as nat),
            forall|a: int| 0 <= a < k ==> (#[trigger] weeks@[a])@.len() == 7,
            forall|a: int, j: int| 0 <= a < k && 0 <= j < 7 ==> (#[trigger] weeks@[a]@[j])@ == start@ + 7 * a + j,
        decreases 6 - k,
    {
        let base = (k as i64) * 7;
        let mut week: Vec<Date> = Vec::new();
        let mut j: usize = 0;
        while j < 7
            invariant
                j <= 7,
                week@.len() == j,
                base == 7 * k,
                k < 6,
                valid_day(start@),
                start@ == first@ - spec_days_since_start(week_start, first@),
                spec_date_from_ymd(year as int, month as int, 1) == Some(first@),
                weeks_from(start@, first@, month as int, 0) == weeks_from(start@, first@, month as int, k as nat),
                forall|b: int| 0 <= b < j ==> (#[trigger] week@[b])@ == start@ + 7 * k + b,
            decreases 7 - j,
        {
            match start.checked_add_days(base + j as i64) {
                Some(d) => week.push(d),
                None => {
                    proof {
                        assert(!valid_day(start@ + 7 * k + 6 + 1));
                        assert(weeks_from(start@, first@, month as int, k as nat) is None);
                    }
                    return None;
                },
            }
            j += 1;
        }
        let last = week[6];
        assert(last@ == start@ + 7 * k + 6);
        let next = match last.checked_add_days(1) {
            Some(n) => n,
            None => {
                proof {
                    assert(weeks_from(start@, first@, month as int, k as nat) is None);
                }
                return None;
            },
        };
        let ghost before = weeks@;
        weeks.push(week);
        proof {
            assert(weeks@[k as int] == week);
            assert(week@.len() == 7);
            assert forall|a: int| 0 <= a < k + 1 implies (#[trigger] weeks@[a])@.len() == 7 by {
                if a < k {
                    assert(weeks@[a] == before[a]);
                }
            }
            assert forall|a: int, j: int| 0 <= a < k + 1 && 0 <= j < 7 implies (
            #[trigger] weeks@[a]@[j])@ == start@ + 7 * a + j by {
                if a < k {
                    assert(weeks@[a] == before[a]);
                    assert(before[a]@[j]@ == start@ + 7 * a + j);
                } else {
                    assert(weeks@[a]@[j] == week@[j]);
                }
            }
        }
        let (_, nm, _) = next.ymd();
        if (nm != month && first.is_before(&next)) || weeks.len() >= 6 {
            proof {
                assert(weeks_from(start@, first@, month as int, k as nat) == Some((k + 1) as nat));
            }
            return Some(weeks);
        }
        proof {
            assert(weeks_from(start@, first@, month as int, k as nat) == weeks_from(
                start@,
                first@,
                month as int,
                (k + 1) as nat,
            ));
        }
        k += 1;
    }
}

/// The agenda's order within a day: `("HH:MM ", summary)` for events,
/// `("zz ", text)` for tasks, compared component by component.
pub open spec fn agenda_key(item: DayItemView) -> (Seq<char>, Seq<char>) {
    match item {
        DayItemView::Event(e) => (spec_format_datetime(e.start, "%H:%M "@), e.summary),
        DayItemView::Task(t) => ("zz "@, t.text),
    }
}

pub open spec fn agenda_precedes(a: DayItemView, b: DayItemView) -> bool {
    let (ka, kb) = (agenda_key(a), agenda_key(b));
    text_lt(ka.0, kb.0) || (ka.0 == kb.0 && text_lt(ka.1, kb.1))
}

/// A day item ordered by [`agenda_key`].
pub struct AgendaEntry(pub DayItem);

/// A day item's view ordered by [`agenda_key`].
pub struct AgendaEntryView(pub DayItemView);

impl SortKey for AgendaEntry {
    open spec fn precedes(&self, other: &Self) -> bool {
        agenda_precedes(self.0@, other.0@)
    }
}

impl SortKey for AgendaEntryView {
    open spec fn precedes(&self, other: &Self) -> bool {
        agenda_precedes(self.0, other.0)
    }
}

fn agenda_key_exec(item: &DayItem) -> (r: (Vec<char>, Vec<char>))
    ensures
        (r.0@, r.1@) == agenda_key(item@),
{
    match item {
        DayItem::Event(e) => (
            chars_of(chrono_format_datetime(&e.start, "%H:%M ").as_str()),
            chars_of(e.summary.as_str()),
        ),
        DayItem::Task(t) => (chars_of("zz "), chars_of(t.text.as_str())),
    }
}

impl SortKeyExec for AgendaEntry {
    fn precedes_exec(&self, other: &Self) -> (r: bool) {
        let (a0, a1) = agenda_key_exec(&self.0);
        let (b0, b1) = agenda_key_exec(&other.0);
        text_less(&a0, &b0) || (same_text(&a0, &b0) && text_less(&a1, &b1))
    }
}

/// `items` stably sorted by [`agenda_key`].
pub open spec fn agenda_sorted(items: Seq<DayItemView>) -> Seq<DayItemView> {
    sorted(items.map_values(|i: DayItemView| AgendaEntryView(i))).map_values(|a: AgendaEntryView| a.0)
}

/// Items for the selected day: on today, the merged view (events plus tasks
/// due today or overdue, like `oca today`); on other days, the day's events
/// and the tasks due exactly that day, in agenda order.
pub open spec fn agenda_for_day_spec(es: Seq<EventView>, ts: Seq<TaskView>, selected: int, today: int) -> Seq<
    DayItemView,
> {
    if selected == today {
        merged_spec(es, ts, selected, None, selected)
    } else {
        agenda_sorted(
            event_items(events_between_spec(es, selected, selected)) + task_items(
                tasks_due_in(ts, Some(selected), selected),
            ),
        )
    }
}

pub fn agenda_for_day(events: &Vec<Event>, tasks: &Vec<TaskDue>, selected: Date, today: Date) -> (r: Vec<
    DayItem,
>)
    ensures
        items_view(r@) == agenda_for_day_spec(events_view(events@), tasks_view(tasks@), selected@, today@),
{
    if selected.is_same(&today) {
        return today_merged(events, tasks, selected);
    }
    let occ = events_on(events, selected);
    let ghost ov = events_view(occ@);
    let ghost tv = tasks_view(tasks@);
    let mut entries: Vec<AgendaEntry> = Vec::new();
    let mut i: usize = 0;
    while i < occ.len()
        invariant
            i <= occ.len(),
            ov == events_view(occ@),
            entries@.map_values(|a: AgendaEntry| a.0@) == event_items(ov.take(i as int)),
        decreases occ.len() - i,
    {
        let ghost before = entries@;
        let item = AgendaEntry(DayItem::Event(occ[i].duplicate()));
        entries.push(item);
        proof {
            assert(ov.take(i + 1) =~= ov.take(i as int).push(occ@[i as int]@));
            assert(entries@.map_values(|a: AgendaEntry| a.0@) =~= before.map_values(|a: AgendaEntry| a.0@).push(
                item.0@,
            ));
            assert(event_items(ov.take(i as int).push(occ@[i as int]@)) =~= event_items(ov.take(i as int)).push(
                DayItemView::Event(occ@[i as int]@),
            ));
        }
        i += 1;
    }
    proof {
        assert(ov.take(occ.len() as int) =~= ov);
    }
    let ghost head = entries@.map_values(|a: AgendaEntry| a.0@);
    let mut k: usize = 0;
    let ghost mid = entries@;
    while k < tasks.len()
        invariant
            k <= tasks.len(),
            tv == tasks_view(tasks@),
            entries@.len() >= mid.len(),
            entries@.take(mid.len() as int) == mid,
            head == mid.map_values(|a: AgendaEntry| a.0@),
            entries@.skip(mid.len() as int).map_values(|a: AgendaEntry| a.0@) == task_items(
                tasks_due_in(tv.take(k as int), Some(selected@), selected@),
            ),
        decreases tasks.len() - k,
    {
        proof {
            assert(tv.take(k + 1).drop_last() =~= tv.take(k as int));
            assert(tv.take(k + 1).last() == tasks@[k as int]@);
        }
        let t = &tasks[k];
        if t.due.is_same(&selected) {
            let copy = TaskDue { text: t.text.clone(), due: t.due, source: t.source.clone() };
            assert(copy@ == tasks@[k as int]@);
            let ghost before = entries@;
            let item = AgendaEntry(DayItem::Task(copy));
            entries.push(item);
            proof {
                let prev = tasks_due_in(tv.take(k as int), Some(selected@), selected@);
                assert(tasks_due_in(tv.take(k + 1), Some(selected@), selected@) =~= prev + seq![tasks@[k as int]@]);
                assert(entries@.take(mid.len() as int) =~= before.take(mid.len() as int));
                assert(entries@.skip(mid.len() as int) =~= before.skip(mid.len() as int).push(item));
                assert(task_items(prev + seq![tasks@[k as int]@]) =~= task_items(prev).push(
                    DayItemView::Task(tasks@[k as int]@),
                ));
                assert(before.skip(mid.len() as int).push(item).map_values(|a: AgendaEntry| a.0@)
                    =~= before.skip(mid.len() as int).map_values(|a: AgendaEntry| a.0@).push(item.0@));
            }
        } else {
            proof {
                let prev = tasks_due_in(tv.take(k as int), Some(selected@), selected@);
                assert(tasks_due_in(tv.take(k + 1), Some(selected@), selected@) =~= prev);
            }
        }
        k += 1;
    }
    proof {
        assert(tv.take(tasks.len() as int) =~= tv);
        assert(entries@ =~= entries@.take(mid.len() as int) + entries@.skip(mid.len() as int));
        assert(entries@.map_values(|a: AgendaEntry| a.0@) =~= head + entries@.skip(mid.len() as int).map_values(
            |a: AgendaEntry| a.0@,
        ));
    }
    let ghost unsorted = entries@;
    let sorted_entries = sort_by_key(entries);
    let mut out: Vec<DayItem> = Vec::new();
    let mut j: usize = 0;
    let n = sorted_entries.len();
    let mut rest = sorted_entries;
    let ghost all = rest@;
    while j < n
        invariant
            j <= n,
            n == all.len(),
            rest@ == all.skip(j as int),
            items_view(out@) == all.take(j as int).map_values(|a: AgendaEntry| a.0@),
        decreases n - j,
    {
        let ghost before = out@;
        let AgendaEntry(item) = rest.remove(0);
        out.push(item);
        proof {
            assert(all.skip(j as int)[0] == all[j as int]);
            assert(rest@ =~= all.skip(j + 1));
            assert(all.take(j + 1).map_values(|a: AgendaEntry| a.0@) =~= all.take(j as int).map_values(
                |a: AgendaEntry| a.0@,
            ).push(all[j as int].0@));
            assert(items_view(out@) =~= items_view(before).push(item@));
        }
        j += 1;
    }
    proof {
        assert(all.take(n as int) =~= all);
        let f = |a: AgendaEntry| AgendaEntryView(a.0@);
        assert forall|a: AgendaEntry, b: AgendaEntry| #[trigger] a.precedes(&b) == f(a).precedes(&f(b)) by {}
        crate::sort::lemma_sorted_map(unsorted, f);
        let pre = unsorted.map_values(|a: AgendaEntry| a.0@);
        assert(unsorted.map_values(f) =~= pre.map_values(|i: DayItemView| AgendaEntryView(i)));
        assert(all.map_values(|a: AgendaEntry| a.0@) =~= all.map_values(f).map_values(|a: AgendaEntryView| a.0));
    }
    out
}

/// Some event occurs on `day` or some task is due then.
pub open spec fn day_has_items_spec(es: Seq<EventView>, ts: Seq<TaskView>, day: int) -> bool {
    (exists|i: int| 0 <= i < es.len() && occurrences_spec(#[trigger] es[i], day, day).len() > 0) || (exists|
        i: int,
    | 0 <= i < ts.len() && (#[trigger] ts[i]).due == day)
}

pub fn day_has_items(events: &Vec<Event>, tasks: &Vec<TaskDue>, day: Date) -> (r: bool)
    ensures
        r == day_has_items_spec(events_view(events@), tasks_view(tasks@), day@),
{
    let ghost ev = events_view(events@);
    let ghost tv = tasks_view(tasks@);
    let mut i: usize = 0;
    while i < events.len()
        invariant
            i <= events.len(),
            ev == events_view(events@),
            forall|j: int| 0 <= j < i ==> occurrences_spec(#[trigger] ev[j], day@, day@).len() == 0,
        decreases events.len() - i,
    {
        if occurs_on(&events[i], day) {
            assert(occurrences_spec(ev[i as int], day@, day@).len() > 0);
            return true;
        }
        i += 1;
    }
    let mut k: usize = 0;
    while k < tasks.len()
        invariant
            k <= tasks.len(),
            tv == tasks_view(tasks@),
            forall|j: int| 0 <= j < k ==> (#[trigger] tv[j]).due != day@,
        decreases tasks.len() - k,
    {
        if tasks[k].due.is_same(&day) {
            assert(tv[k as int].due == day@);
            return true;
        }
        k += 1;
    }
    false
}

/// How many events occur on `day`.
pub open spec fn events_on_count(es: Seq<EventView>, day: int) -> nat
    decreases es.len(),
{
    if es.len() == 0 {
        0
    } else {
        events_on_count(es.drop_last(), day) + if occurrences_spec(es.last(), day, day).len() > 0 {
            1nat
        } else {
            0nat
        }
    }
}

/// How many tasks are due on `day`.
pub open spec fn tasks_on_count(ts: Seq<TaskView>, day: int) -> nat
    decreases ts.len(),
{
    if ts.len() == 0 {
        0
    } else {
        tasks_on_count(ts.drop_last(), day) + if ts.last().due == day {
            1nat
        } else {
            0nat
        }
    }
}

/// The status line for a day: `YYYY-MM-DD · nothing`, `· N event(s)`,
/// `· M task(s)`, or `· N event(s) + M task(s)`.
pub open spec fn agenda_summary_spec(es: Seq<EventView>, ts: Seq<TaskView>, day: int) -> Seq<char> {
    let e = events_on_count(es, day);
    let t = tasks_on_count(ts, day);
    let head = spec_format_date(day, "%Y-%m-%d"@) + " · "@;
    if e == 0 && t == 0 {
        head + "nothing"@
    } else if t == 0 {
        head + decimal(e) + " event"@ + plural_spec(e as int)
    } else if e == 0 {
        head + decimal(t) + " task"@ + plural_spec(t as int)
    } else {
        head + decimal(e) + " event"@ + plural_spec(e as int) + " + "@ + decimal(t) + " task"@ + plural_spec(
            t as int,
        )
    }
}

pub fn agenda_summary(events: &Vec<Event>, tasks: &Vec<TaskDue>, selected: Date) -> (r: String)
    ensures
        r@ == agenda_summary_spec(events_view(events@), tasks_view(tasks@), selected@),
{
    let ghost ev = events_view(events@);
    let ghost tv = tasks_view(tasks@);
    let mut ne: usize = 0;
    let mut i: usize = 0;
    while i < events.len()
        invariant
            i <= events.len(),
            ev == events_view(events@),
            ne == events_on_count(ev.take(i as int), selected@),
            ne <= i,
        decreases events.len() - i,
    {
        proof {
            assert(ev.take(i + 1).drop_last() =~= ev.take(i as int));
            assert(ev.take(i + 1).last() == events@[i as int]@);
        }
        if occurs_on(&events[i], selected) {
            ne += 1;
        }
        i += 1;
    }
    let mut nt: usize = 0;
    let mut k: usize = 0;
    while k < tasks.len()
        invariant
            k <= tasks.len(),
            tv == tasks_view(tasks@),
            nt == tasks_on_count(tv.take(k as int), selected@),
            nt <= k,
        decreases tasks.len() - k,
    {
        proof {
            assert(tv.take(k + 1).drop_last() =~= tv.take(k as int));
            assert(tv.take(k + 1).last() == tasks@[k as int]@);
        }
        if tasks[k].due.is_same(&selected) {
            nt += 1;
        }
        k += 1;
    }
    proof {
        assert(ev.take(events.len() as int) =~= ev);
        assert(tv.take(tasks.len() as int) =~= tv);
    }
    let mut out = chars_of(chrono_format_date(&selected, "%Y-%m-%d").as_str());
    push_str(&mut out, " · ");
    if ne == 0 && nt == 0 {
        push_str(&mut out, "nothing");
    } else if nt == 0 {
        push_all(&mut out, &decimal_exec(ne as u64));
        push_str(&mut out, " event");
        push_str(&mut out, crate::cli::plural(ne));
    } else if ne == 0 {
        push_all(&mut out, &decimal_exec(nt as u64));
        push_str(&mut out, " task");
        push_str(&mut out, crate::cli::plural(nt));
    } else {
        push_all(&mut out, &decimal_exec(ne as u64));
        push_str(&mut out, " event");
        push_str(&mut out, crate::cli::plural(ne));
        push_str(&mut out, " + ");
        push_all(&mut out, &decimal_exec(nt as u64));
        push_str(&mut out, " task");
        push_str(&mut out, crate::cli::plural(nt));
    }
    proof {
        assert(out@ =~= agenda_summary_spec(ev, tv, selected@));
    }
    string_of(out.as_slice())
}

/// A month-grid cell: the day of month right-aligned in two columns, then
/// `•` when the day has items (a space otherwise).
pub open spec fn cell_label_spec(day: int, has_items: bool) -> Seq<char> {
    pad_left(decimal(spec_date_ymd(day).2 as nat), 2) + if has_items {
        "•"@
    } else {
        " "@
    }
}

pub fn cell_label(day: Date, has_items: bool) -> (r: String)
    ensures
        r@ == cell_label_spec(day@, has_items),
{
    let (_, _, d) = day.ymd();
    let mut out = pad_left_exec(&decimal_exec(d as u64), 2);
    if has_items {
        push_str(&mut out, "•");
    } else {
        push_str(&mut out, " ");
    }
    string_of(out.as_slice())
}

/// One agenda row: for events the time (`MM-DD HH:MM` when the occurrence
/// starts on another day; `all-day` for a `00:00` time) and the summary; for
/// tasks `[ ] text`, with `(due YYYY-MM-DD)` when overdue.
pub open spec fn agenda_row_spec(item: DayItemView, selected: int) -> Seq<char> {
    match item {
        DayItemView::Event(e) => {
            let when = if e.start.0 == selected {
                spec_format_datetime(e.start, "%H:%M"@)
            } else {
                spec_format_datetime(e.start, "%m-%d %H:%M"@)
            };
            (if when == "00:00"@ {
                "all-day"@
            } else {
                when
            }) + "  "@ + e.summary
        },
        DayItemView::Task(t) => if t.due < selected {
            "[ ] "@ + t.text + "  (due "@ + spec_format_date(t.due, "%Y-%m-%d"@) + ")"@
        } else {
            "[ ] "@ + t.text
        },
    }
}

pub fn agenda_row(item: &DayItem, selected: Date) -> (r: String)
    ensures
        r@ == agenda_row_spec(item@, selected@),
{
    let mut out: Vec<char> = Vec::new();
    match item {
        DayItem::Event(e) => {
            let when = if e.start.date().is_same(&selected) {
                chrono_format_datetime(&e.start, "%H:%M")
            } else {
                chrono_format_datetime(&e.start, "%m-%d %H:%M")
            };
            let w = chars_of(when.as_str());
            if same_text(&w, &chars_of("00:00")) {
                push_str(&mut out, "all-day");
            } else {
                push_all(&mut out, &w);
            }
            push_str(&mut out, "  ");
            push_str(&mut out, e.summary.as_str());
        },
        DayItem::Task(t) => {
            push_str(&mut out, "[ ] ");
            push_str(&mut out, t.text.as_str());
            if t.due.is_before(&selected) {
                push_str(&mut out, "  (due ");
                push_str(&mut out, chrono_format_date(&t.due, "%Y-%m-%d").as_str());
                push_str(&mut out, ")");
            }
        },
    }
    proof {
        assert(out@ =~= agenda_row_spec(item@, selected@));
    }
    string_of(out.as_slice())
}

/// Which side gets arrow-key scrolling.
#[derive(Debug, Clone, Copy, PartialEq, Eq, Structural)]
pub enum Pane {
    Month,
    Agenda,
}

/// The keys the view tells apart.
#[derive(Debug, Clone, Copy, PartialEq, Eq, Structural)]
pub enum Key {
    Esc,
    Char(char),
    Tab,
    BackTab,
    Left,
    Right,
    Up,
    Down,
    PageUp,
    PageDown,
    Home,
    Enter,
    Other,
}

/// What the caller does after a key.
#[derive(Debug, Clone, Copy, PartialEq, Eq, Structural)]
pub enum Action {
    /// Redraw and wait for the next key.
    Continue,
    /// Leave the view.
    Quit,
    /// Flip `launch_tui_on_no_args` in the saved settings, then report the
    /// outcome with [`TuiState::finish_toggle`].
    ToggleLaunch,
}

/// The state of the month + agenda view.
#[derive(Debug, Clone, PartialEq, Eq)]
pub struct TuiState {
    pub today: Date,
    pub selected: Date,
    pub pane: Pane,
    pub agenda_scroll: usize,
    pub show_help: bool,
    /// Mirrors `launch_tui_on_no_args` in the settings (toggled with `T`).
    pub launch_on_no_args: bool,
    /// First day of the week in the grid.
    pub week_start: WeekStart,
    /// One-shot notice (e.g. a failed settings save) shown in the status bar.
    pub status_note: Option<String>,
}

/// The view's state as plain values.
pub struct TuiView {
    pub today: int,
    pub selected: int,
    pub pane: Pane,
    pub scroll: int,
    pub show_help: bool,
    pub launch: bool,
    pub week_start: WeekStart,
    pub note: Option<Seq<char>>,
}

impl View for TuiState {
    type V = TuiView;

    open spec fn view(&self) -> TuiView {
        TuiView {
            today: self.today@,
            selected: self.selected@,
            pane: self.pane,
            scroll: self.agenda_scroll as int,
            show_help: self.show_help,
            launch: self.launch_on_no_args,
            week_start: self.week_start,
            note: crate::cli::opt_string(self.status_note),
        }
    }
}

/// The largest agenda scroll offset for `total` items in `rows` rows (at
/// least one row).
pub open spec fn max_scroll(total: int, rows: int) -> int {
    let r = if rows < 1 {
        1
    } else {
        rows
    };
    if total > r {
        total - r
    } else {
        0
    }
}

pub open spec fn with_selected(v: TuiView, day: int) -> TuiView {
    TuiView { selected: day, scroll: 0, ..v }
}

/// The selection moved by `delta` days (kept where the move leaves chrono's
/// range), the agenda back at its top.
pub open spec fn moved_by(v: TuiView, delta: int) -> TuiView {
    with_selected(
        v,
        if valid_day(v.selected + delta) {
            v.selected + delta
        } else {
            v.selected
        },
    )
}

/// The agenda scrolled by one row up or down, within `[0, max_scroll]`.
pub open spec fn scrolled(v: TuiView, down: bool, total: int, rows: int) -> TuiView {
    let m = max_scroll(total, rows);
    TuiView {
        scroll: if down {
            if v.scroll + 1 <= m {
                v.scroll + 1
            } else {
                m
            }
        } else if v.scroll >= 1 {
            v.scroll - 1
        } else {
            0
        },
        ..v
    }
}

pub open spec fn clamped(v: TuiView, total: int, rows: int) -> TuiView {
    let m = max_scroll(total, rows);
    TuiView {
        scroll: if v.scroll <= m {
            v.scroll
        } else {
            m
        },
        ..v
    }
}

/// What a key does to the view: `total` is the number of agenda items of the
/// selected day and `rows` the agenda rows on screen.
pub open spec fn key_step(v: TuiView, key: Key, ctrl: bool, alt: bool, total: int, rows: int) -> (
    TuiView,
    Action,
) {
    if v.show_help {
        if key == Key::Esc || key == Key::Char('q') {
            (v, Action::Quit)
        } else {
            (TuiView { show_help: false, ..v }, Action::Continue)
        }
    } else if key == Key::Esc || key == Key::Char('q') {
        (v, Action::Quit)
    } else if key == Key::Char('?') {
        (TuiView { show_help: true, ..v }, Action::Continue)
    } else if key == Key::Tab || key == Key::BackTab {
        (
            clamped(
                TuiView {
                    pane: match v.pane {
                        Pane::Month => Pane::Agenda,
                        Pane::Agenda => Pane::Month,
                    },
                    ..v
                },
                total,
                rows,
            ),
            Action::Continue,
        )
    } else if key == Key::Char('t') && !ctrl {
        (with_selected(v, v.today), Action::Continue)
    } else if key == Key::Char('T') && !ctrl && !alt {
        (v, Action::ToggleLaunch)
    } else if key == Key::Char('n') || key == Key::PageDown || key == Key::Char(']') {
        (with_selected(v, shift_month_spec(v.selected, 1)), Action::Continue)
    } else if key == Key::Char('p') || key == Key::PageUp || key == Key::Char('[') {
        (with_selected(v, shift_month_spec(v.selected, -1)), Action::Continue)
    } else if key == Key::Home {
        (with_selected(v, v.today), Action::Continue)
    } else {
        (pane_step(v, key, total, rows), Action::Continue)
    }
}

/// The keys that depend on the focused pane.
pub open spec fn pane_step(v: TuiView, key: Key, total: int, rows: int) -> TuiView {
    let left = key == Key::Left || key == Key::Char('h');
    let right = key == Key::Right || key == Key::Char('l');
    let up = key == Key::Up || key == Key::Char('k');
    let down = key == Key::Down || key == Key::Char('j');
    match v.pane {
        Pane::Month => if left {
            moved_by(v, -1)
        } else if right {
            moved_by(v, 1)
        } else if up {
            moved_by(v, -7)
        } else if down {
            moved_by(v, 7)
        } else {
            v
        },
        Pane::Agenda => if up {
            scrolled(v, false, total, rows)
        } else if down {
            scrolled(v, true, total, rows)
        } else if left {
            moved_by(v, -1)
        } else if right {
            moved_by(v, 1)
        } else if key == Key::Char('g') {
            TuiView { scroll: 0, ..v }
        } else if key == Key::Char('G') {
            TuiView { scroll: max_scroll(total, rows), ..v }
        } else {
            v
        },
    }
}

impl TuiState {
    /// The view opened on `today`, month pane focused, help closed.
    pub fn new(today: Date, launch_on_no_args: bool, week_start: WeekStart) -> (r: TuiState)
        ensures
            r@ == (TuiView {
                today: today@,
                selected: today@,
                pane: Pane::Month,
                scroll: 0,
                show_help: false,
                launch: launch_on_no_args,
                week_start,
                note: None,
            }),
    {
        TuiState {
            today,
            selected: today,
            pane: Pane::Month,
            agenda_scroll: 0,
            show_help: false,
            launch_on_no_args,
            week_start,
            status_note: None,
        }
    }

    /// Items for the selected day (see [`agenda_for_day_spec`]).
    pub fn agenda(&self, events: &Vec<Event>, tasks: &Vec<TaskDue>) -> (r: Vec<DayItem>)
        ensures
            items_view(r@) == agenda_for_day_spec(
                events_view(events@),
                tasks_view(tasks@),
                self.selected@,
                self.today@,
            ),
    {
        agenda_for_day(events, tasks, self.selected, self.today)
    }

    /// Keep the agenda scroll within what `total` items in `rows` rows allow.
    pub fn clamp_scroll(&mut self, total: usize, rows: usize)
        ensures
            final(self)@ == clamped(old(self)@, total as int, rows as int),
    {
        let r = if rows < 1 {
            1
        } else {
            rows
        };
        let m = if total > r {
            total - r
        } else {
            0
        };
        if self.agenda_scroll > m {
            self.agenda_scroll = m;
        }
    }

    fn select(&mut self, day: Date)
        ensures
            final(self)@ == with_selected(old(self)@, day@),
    {
        self.selected = day;
        self.agenda_scroll = 0;
    }

    fn move_days(&mut self, delta: i64)
        ensures
            final(self)@ == moved_by(old(self)@, delta as int),
    {
        let day = match self.selected.checked_add_days(delta) {
            Some(d) => d,
            None => self.selected,
        };
        self.select(day);
    }

    fn scroll_agenda(&mut self, down: bool, total: usize, rows: usize)
        ensures
            final(self)@ == scrolled(old(self)@, down, total as int, rows as int),
    {
        let r = if rows < 1 {
            1
        } else {
            rows
        };
        let m = if total > r {
            total - r
        } else {
            0
        };
        if down {
            if self.agenda_scroll < m {
                self.agenda_scroll = self.agenda_scroll + 1;
            } else {
                self.agenda_scroll = m;
            }
        } else if self.agenda_scroll >= 1 {
            self.agenda_scroll = self.agenda_scroll - 1;
        } else {
            self.agenda_scroll = 0;
        }
    }

    /// Apply a key; `ctrl`/`alt` are the held modifiers and `rows` the agenda
    /// rows on screen. Returns what the caller does next.
    pub fn handle_key(
        &mut self,
        key: Key,
        ctrl: bool,
        alt: bool,
        events: &Vec<Event>,
        tasks: &Vec<TaskDue>,
        rows: usize,
    ) -> (r: Action)
        ensures
            (final(self)@, r) == key_step(
                old(self)@,
                key,
                ctrl,
                alt,
                agenda_for_day_spec(events_view(events@), tasks_view(tasks@), old(self).selected@, old(self).today@).len() as int,
                rows as int,
            ),
    {
        let ghost total = agenda_for_day_spec(events_view(events@), tasks_view(tasks@), self.selected@, self.today@).len() as int;
        if self.show_help {
            if key == Key::Esc || key == Key::Char('q') {
                return Action::Quit;
            }
            self.show_help = false;
            return Action::Continue;
        }
        if key == Key::Esc || key == Key::Char('q') {
            return Action::Quit;
        }
        if key == Key::Char('?') {
            self.show_help = true;
            return Action::Continue;
        }
        if key == Key::Tab || key == Key::BackTab {
            self.pane = match self.pane {
                Pane::Month => Pane::Agenda,
                Pane::Agenda => Pane::Month,
            };
            let n = self.agenda(events, tasks).len();
            proof {
                assert(n == total);
            }
            self.clamp_scroll(n, rows);
            return Action::Continue;
        }
        if key == Key::Char('t') && !ctrl {
            let today = self.today;
            self.select(today);
            return Action::Continue;
        }
        if key == Key::Char('T') && !ctrl && !alt {
            return Action::ToggleLaunch;
        }
        if key == Key::Char('n') || key == Key::PageDown || key == Key::Char(']') {
            let day = shift_month(self.selected, 1);
            self.select(day);
            return Action::Continue;
        }
        if key == Key::Char('p') || key == Key::PageUp || key == Key::Char('[') {
            let day = shift_month(self.selected, -1);
            self.select(day);
            return Action::Continue;
        }
        if key == Key::Home {
            let today = self.today;
            self.select(today);
            return Action::Continue;
        }
        let left = key == Key::Left || key == Key::Char('h');
        let right = key == Key::Right || key == Key::Char('l');
        let up = key == Key::Up || key == Key::Char('k');
        let down = key == Key::Down || key == Key::Char('j');
        match self.pane {
            Pane::Month => {
                if left {
                    self.move_days(-1);
                } else if right {
                    self.move_days(1);
                } else if up {
                    self.move_days(-7);
                } else if down {
                    self.move_days(7);
                }
            },
            Pane::Agenda => {
                if up || down {
                    let n = self.agenda(events, tasks).len();
                    proof {
                        assert(n == total);
                    }
                    self.scroll_agenda(down && !up, n, rows);
                } else if left {
                    self.move_days(-1);
                } else if right {
                    self.move_days(1);
                } else if key == Key::Char('g') {
                    self.agenda_scroll = 0;
                } else if key == Key::Char('G') {
                    let n = self.agenda(events, tasks).len();
                    proof {
                        assert(n == total);
                    }
                    self.agenda_scroll = usize::MAX;
                    self.clamp_scroll(n, rows);
                }
            },
        }
        Action::Continue
    }

    /// The value `T` sets `launch_tui_on_no_args` to in the saved settings.
    pub fn toggle_target(&self) -> (r: bool)
        ensures
            r == !self.launch_on_no_args,
    {
        !self.launch_on_no_args
    }

    /// Record the outcome of saving the flipped flag: on success the flag
    /// flips and the notice clears; on failure the flag stays and the notice
    /// says so.
    pub fn finish_toggle(&mut self, saved: bool)
        ensures
            saved ==> final(self)@ == (TuiView { launch: !old(self)@.launch, note: None, ..old(self)@ }),
            !saved ==> final(self)@ == (TuiView { note: Some("config save failed"@), ..old(self)@ }),
    {
        if saved {
            self.launch_on_no_args = !self.launch_on_no_args;
            self.status_note = None;
        } else {
            self.status_note = Some(string_of(chars_of("config save failed").as_slice()));
        }
    }
}

/// The month grid starts on a week-start day on or before the 1st, six days
/// before it at most.
pub proof fn law_grid_starts_on_week_start(year: int, month: int, ws: WeekStart)
    ensures
        month_grid_spec(year, month, ws) matches Some((start, n)) ==> ({
            let first = spec_date_from_ymd(year, month, 1).unwrap();
            &&& spec_days_since_start(ws, start) == 0
            &&& start <= first < start + 7
            &&& 1 <= n <= 6
        }),
{
    if let Some((start, n)) = month_grid_spec(year, month, ws) {
        let first = spec_date_from_ymd(year, month, 1).unwrap();
        crate::week::lemma_start_of_is_week_start(ws, first);
        lemma_weeks_from_range(start, first, month, 0);
    }
}

proof fn lemma_weeks_from_range(start: int, first: int, month: int, k: nat)
    requires
        k <= 6,
    ensures
        weeks_from(start, first, month, k) matches Some(n) ==> k < n <= 6 || (k == 6 && n == 6),
    decreases 6 - k,
{
    if k < 6 {
        lemma_weeks_from_range(start, first, month, k + 1);
    }
}

/// `q` and `Esc` always leave the view, help open or not, and no other key
/// does.
pub proof fn law_quit_keys(v: TuiView, key: Key, ctrl: bool, alt: bool, total: int, rows: int)
    ensures
        key_step(v, key, ctrl, alt, total, rows).1 == Action::Quit <==> (key == Key::Esc || key == Key::Char('q')),
{
}

/// Opening help and pressing any other key closes it again, leaving the view
/// as it was.
pub proof fn law_help_closes(v: TuiView, key: Key, ctrl: bool, alt: bool, total: int, rows: int)
    requires
        !v.show_help,
        key != Key::Esc,
        key != Key::Char('q'),
    ensures
        key_step(key_step(v, Key::Char('?'), ctrl, alt, total, rows).0, key, ctrl, alt, total, rows) == (
        v,
        Action::Continue,
        ),
{
}

/// In the month pane, a step left then right comes back to the same day
/// (with the agenda at its top).
pub proof fn law_left_then_right(v: TuiView, total: int, rows: int)
    requires
        !v.show_help,
        v.pane == Pane::Month,
        valid_day(v.selected),
        valid_day(v.selected - 1),
    ensures
        key_step(key_step(v, Key::Left, false, false, total, rows).0, Key::Right, false, false, total, rows) == (
        with_selected(v, v.selected),
        Action::Continue,
        ),
{
}

} // verus!
