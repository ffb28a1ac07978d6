//! One-shot reminder support: which event occurrences are due, and what was
//! already sent.
//!
//! No daemon: a timer is expected to run the notifier periodically. Dedup
//! keys are plain text lines (`uid<TAB>start`), so frequent runs don't re-fire
//! the same occurrence. Reading and writing that file is the caller's part;
//! this module turns its text into keys and keys back into text.
use vstd::prelude::*;
use crate::date::{DateTime, dt_lt, dt_le, spec_add_seconds, spec_format_datetime, chrono_add_seconds};
use crate::ics::{Event, EventView, events_view, format_dt, parse_dt, parse_dt_spec};
use crate::query::{events_between, events_between_spec};
use crate::sort::{SortKey, sorted, sort_by_key};
use crate::tasks::rfind_char;
use crate::text::{
    chars_of, string_of, slice, push_all, push_str, trim, trim_start, trim_end, lines, views, lines_exec, trimmed,
    same_text, strip_cr, find_char, lemma_find_char, is_ws,
};

verus! {

/// How far back (in seconds) an occurrence may have started and still count
/// as due: ten minutes. Covers events that began while the machine was
/// suspended or a scheduled run was missed.
pub const DEFAULT_LATE: i64 = 600;

/// Keys whose start is older than this many seconds are pruned (two days).
pub const KEEP_SECONDS: i64 = 172800;

/// An occurrence is due in the window `(lo, hi]` unless it is all-day
/// (a midnight notification is noise).
pub open spec fn is_due(e: EventView, lo: (int, int, int), hi: (int, int, int)) -> bool {
    !e.all_day && dt_lt(lo, e.start) && dt_le(e.start, hi)
}

/// The due items of `es`, in order.
pub open spec fn due_in(es: Seq<EventView>, lo: (int, int, int), hi: (int, int, int)) -> Seq<EventView>
    decreases es.len(),
{
    if es.len() == 0 {
        seq![]
    } else {
        due_in(es.drop_last(), lo, hi) + if is_due(es.last(), lo, hi) {
            seq![es.last()]
        } else {
            seq![]
        }
    }
}

/// The occurrences of `es` over the days of `[lo, hi]` (sorted by start),
/// keeping those that start in `(lo, hi]` and are not all-day.
pub open spec fn due_window_spec(es: Seq<EventView>, lo: (int, int, int), hi: (int, int, int)) -> Seq<
    EventView,
> {
    due_in(events_between_spec(es, lo.0, hi.0), lo, hi)
}

/// Occurrences starting within `(lo, hi]`, sorted by start; all-day events
/// never produce reminders.
pub fn due_between(events: &Vec<Event>, lo: DateTime, hi: DateTime) -> (r: Vec<Event>)
    ensures
        events_view(r@) == due_window_spec(events_view(events@), lo@, hi@),
{
    let occ = events_between(events, lo.date(), hi.date());
    let ghost ov = events_view(occ@);
    let mut out: Vec<Event> = Vec::new();
    let mut i: usize = 0;
    while i < occ.len()
        invariant
            i <= occ.len(),
            ov == events_view(occ@),
            events_view(out@) == due_in(ov.take(i as int), lo@, hi@),
        decreases occ.len() - i,
    {
        proof {
            assert(ov.take(i + 1).drop_last() =~= ov.take(i as int));
            assert(ov.take(i + 1).last() == occ@[i as int]@);
        }
        let e = &occ[i];
        if !e.all_day && lo.is_before(&e.start) && !hi.is_before(&e.start) {
            let ghost before = out@;
            let copy = e.duplicate();
            out.push(copy);
            proof {
                assert(events_view(out@) =~= events_view(before).push(copy@));
            }
        }
        i += 1;
    }
    proof {
        assert(ov.take(occ.len() as int) =~= ov);
    }
    out
}

/// Occurrences starting within `(now - late, now + window]` (durations in
/// seconds), sorted by start. All-day events never produce reminders.
pub fn due_events(events: &Vec<Event>, now: DateTime, window: i64, late: i64) -> (r: Vec<Event>)
    requires
        late > i64::MIN,
        spec_add_seconds(now@, -late) is Some,
        spec_add_seconds(now@, window as int) is Some,
    ensures
        events_view(r@) == due_window_spec(
            events_view(events@),
            spec_add_seconds(now@, -late).unwrap(),
            spec_add_seconds(now@, window as int).unwrap(),
        ),
{
    let lo = chrono_add_seconds(&now, -late);
    let hi = chrono_add_seconds(&now, window);
    match (lo, hi) {
        (Some(lo), Some(hi)) => due_between(events, lo, hi),
        _ => Vec::new(),
    }
}

/// [`due_events`] where the window's ends are representable; `None` where
/// `now - late` or `now + window` falls outside chrono's range (or `late`
/// cannot be negated).
pub fn try_due_events(events: &Vec<Event>, now: DateTime, window: i64, late: i64) -> (r: Option<
    Vec<Event>,
>)
    ensures
        r is Some <==> (late > i64::MIN && spec_add_seconds(now@, -late) is Some && spec_add_seconds(
            now@,
            window as int,
        ) is Some),
        r matches Some(v) ==> events_view(v@) == due_window_spec(
            events_view(events@),
            spec_add_seconds(now@, -late).unwrap(),
            spec_add_seconds(now@, window as int).unwrap(),
        ),
{
    if late == i64::MIN {
        return None;
    }
    if chrono_add_seconds(&now, -late).is_none() || chrono_add_seconds(&now, window).is_none() {
        return None;
    }
    Some(due_events(events, now, window, late))
}

/// The dedup key of an occurrence: its UID, a tab, and its start as
/// `YYYYMMDDTHHMMSS`.
pub open spec fn key_spec(e: EventView) -> Seq<char> {
    e.uid + seq!['\t'] + spec_format_datetime(e.start, "%Y%m%dT%H%M%S"@)
}

/// Stable dedup key: event UID plus the occurrence's start. Recurring
/// occurrences share the UID, so the shifted start distinguishes them.
pub fn notification_key(event: &Event) -> (r: String)
    ensures
        r@ == key_spec(event@),
{
    let mut out = chars_of(event.uid.as_str());
    out.push('\t');
    push_str(&mut out, format_dt(&event.start).as_str());
    string_of(out.as_slice())
}

/// The trimmed non-empty lines, in order.
pub open spec fn kept_lines(ls: Seq<Seq<char>>) -> Seq<Seq<char>>
    decreases ls.len(),
{
    if ls.len() == 0 {
        seq![]
    } else {
        kept_lines(ls.drop_last()) + if trim(ls.last()).len() > 0 {
            seq![trim(ls.last())]
        } else {
            seq![]
        }
    }
}

pub open spec fn strings_view(ss: Seq<String>) -> Seq<Seq<char>> {
    ss.map_values(|s: String| s@)
}

/// Already-sent keys from the text of the state file: each line trimmed,
/// blank lines dropped. Malformed lines are kept verbatim — they simply never
/// match a key.
pub fn parse_notified(raw: &str) -> (r: Vec<String>)
    ensures
        strings_view(r@) == kept_lines(lines(raw@)),
{
    let v = chars_of(raw);
    let ls = lines_exec(&v);
    let ghost lv = views(ls@);
    let mut out: Vec<String> = Vec::new();
    let mut i: usize = 0;
    while i < ls.len()
        invariant
            i <= ls.len(),
            lv == views(ls@),
            lv == lines(v@),
            v@ == raw@,
            strings_view(out@) == kept_lines(lv.take(i as int)),
        decreases ls.len() - i,
    {
        proof {
            assert(lv.take(i + 1).drop_last() =~= lv.take(i as int));
            assert(lv.take(i + 1).last() == ls@[i as int]@);
            assert(ls@[i as int]@.subrange(0, ls@[i as int]@.len() as int) =~= ls@[i as int]@);
        }
        let line = trimmed(&ls[i], 0, ls[i].len());
        if line.len() > 0 {
            let ghost before = out@;
            let s = string_of(line.as_slice());
            out.push(s);
            proof {
                assert(strings_view(out@) =~= strings_view(before).push(s@));
            }
        }
        i += 1;
    }
    proof {
        assert(lv.take(ls.len() as int) =~= lv);
    }
    out
}

/// The text after the last tab of a key (all of it when there is no tab).
pub open spec fn key_tail(key: Seq<char>) -> Seq<char> {
    match rfind_char(key, '\t') {
        Some(i) => key.skip(i + 1),
        None => key,
    }
}

/// A key survives pruning when its start parses and is not before `cutoff`.
pub open spec fn keeps_key(key: Seq<char>, cutoff: (int, int, int)) -> bool {
    match parse_dt_spec(key_tail(key)) {
        Some(start) => dt_le(cutoff, start),
        None => false,
    }
}

/// The keys that survive pruning, in order of first appearance, each text
/// once (the set of sent keys).
pub open spec fn kept_keys(keys: Seq<String>, cutoff: (int, int, int)) -> Seq<String>
    decreases keys.len(),
{
    if keys.len() == 0 {
        seq![]
    } else {
        let before = kept_keys(keys.drop_last(), cutoff);
        before + if keeps_key(keys.last()@, cutoff) && !strings_view(before).contains(keys.last()@) {
            seq![keys.last()]
        } else {
            seq![]
        }
    }
}

/// True when some string of `v` has the text of `s`.
fn contains_text(v: &Vec<String>, s: &str) -> (r: bool)
    ensures
        r == strings_view(v@).contains(s@),
{
    let sc = chars_of(s);
    let mut j: usize = 0;
    while j < v.len()
        invariant
            j <= v.len(),
            sc@ == s@,
            forall|a: int| 0 <= a < j ==> v@[a]@ != s@,
        decreases v.len() - j,
    {
        if same_text(&chars_of(v[j].as_str()), &sc) {
            proof {
                assert(strings_view(v@)[j as int] == s@);
            }
            return true;
        }
        j += 1;
    }
    proof {
        assert forall|a: int| 0 <= a < strings_view(v@).len() implies strings_view(v@)[a] != s@ by {
            assert(strings_view(v@)[a] == v@[a]@);
        }
    }
    false
}

/// Each key followed by a newline.
pub open spec fn joined_lines(ks: Seq<Seq<char>>) -> Seq<char>
    decreases ks.len(),
{
    if ks.len() == 0 {
        seq![]
    } else {
        joined_lines(ks.drop_last()) + ks.last() + seq!['\n']
    }
}

/// The state-file text for `keys`: the keys that survive pruning at `cutoff`,
/// sorted, one per line.
pub open spec fn notified_text_spec(keys: Seq<String>, cutoff: (int, int, int)) -> Seq<char> {
    joined_lines(strings_view(sorted(kept_keys(keys, cutoff))))
}

/// Text after the last tab of `v`.
fn key_tail_exec(v: &Vec<char>) -> (r: Vec<char>)
    ensures
        r@ == key_tail(v@),
{
    let mut j: usize = v.len();
    proof {
        assert(v@.take(v.len() as int) =~= v@);
    }
    while j > 0 && v[j - 1] != '\t'
        invariant
            j <= v.len(),
            rfind_char(v@, '\t') == rfind_char(v@.take(j as int), '\t'),
        decreases j,
    {
        proof {
            assert(v@.take(j as int).drop_last() =~= v@.take(j - 1));
        }
        j -= 1;
    }
    if j == 0 {
        proof {
            assert(v@.take(0) =~= Seq::<char>::empty());
            assert(v@.subrange(0, v.len() as int) =~= v@);
        }
        return slice(v, 0, v.len());
    }
    proof {
        assert(v@.take(j as int).last() == '\t');
        assert(rfind_char(v@, '\t') == Some(j - 1));
        assert(v@.subrange(j as int, v.len() as int) =~= v@.skip(j as int));
    }
    slice(v, j, v.len())
}

/// The keys that survive pruning at `cutoff`, sorted.
pub fn prune_notified(keys: &Vec<String>, cutoff: DateTime) -> (r: Vec<String>)
    ensures
        r@ == sorted(kept_keys(keys@, cutoff@)),
{
    let mut kept: Vec<String> = Vec::new();
    let mut i: usize = 0;
    while i < keys.len()
        invariant
            i <= keys.len(),
            kept@ == kept_keys(keys@.take(i as int), cutoff@),
        decreases keys.len() - i,
    {
        proof {
            assert(keys@.take(i + 1).drop_last() =~= keys@.take(i as int));
            assert(keys@.take(i + 1).last() == keys@[i as int]);
        }
        let tail = key_tail_exec(&chars_of(keys[i].as_str()));
        let keep = match parse_dt(string_of(tail.as_slice()).as_str()) {
            Ok(start) => !start.is_before(&cutoff) && !contains_text(&kept, keys[i].as_str()),
            Err(_) => false,
        };
        if keep {
            let ghost before = kept@;
            let copy = keys[i].clone();
            kept.push(copy);
            proof {
                assert(kept@ =~= before + seq![keys@[i as int]]);
            }
        }
        i += 1;
    }
    proof {
        assert(keys@.take(keys.len() as int) =~= keys@);
    }
    sort_by_key(kept)
}

/// Each key followed by a newline.
fn join_lines(keys: &Vec<String>) -> (r: String)
    ensures
        r@ == joined_lines(strings_view(keys@)),
{
    let mut out: Vec<char> = Vec::new();
    let mut i: usize = 0;
    while i < keys.len()
        invariant
            i <= keys.len(),
            out@ == joined_lines(strings_view(keys@.take(i as int))),
        decreases keys.len() - i,
    {
        proof {
            assert(strings_view(keys@.take(i + 1)).drop_last() =~= strings_view(keys@.take(i as int)));
            assert(strings_view(keys@.take(i + 1)).last() == keys@[i as int]@);
        }
        push_str(&mut out, keys[i].as_str());
        out.push('\n');
        i += 1;
    }
    proof {
        assert(keys@.take(keys.len() as int) =~= keys@);
    }
    string_of(out.as_slice())
}

/// The state-file text for the sent `keys` at time `now`: one `uid<TAB>start`
/// per line, sorted for stable output. Keys whose start is older than two
/// days — or that no longer parse — are pruned so the file stays small.
/// `None` where `now` minus two days is outside chrono's range.
pub fn notified_text(keys: &Vec<String>, now: DateTime) -> (r: Option<String>)
    ensures
        r is Some <==> spec_add_seconds(now@, -KEEP_SECONDS) is Some,
        r matches Some(text) ==> text@ == notified_text_spec(
            keys@,
            spec_add_seconds(now@, -KEEP_SECONDS).unwrap(),
        ),
{
    match chrono_add_seconds(&now, -KEEP_SECONDS) {
        Some(cutoff) => {
            let kept = prune_notified(keys, cutoff);
            Some(join_lines(&kept))
        },
        None => None,
    }
}

proof fn lemma_due_in_due(es: Seq<EventView>, lo: (int, int, int), hi: (int, int, int))
    ensures
        forall|i: int| 0 <= i < due_in(es, lo, hi).len() ==> is_due(#[trigger] due_in(es, lo, hi)[i], lo, hi),
        forall|i: int| 0 <= i < due_in(es, lo, hi).len() ==> es.contains(#[trigger] due_in(es, lo, hi)[i]),
    decreases es.len(),
{
    if es.len() > 0 {
        let t = es.drop_last();
        lemma_due_in_due(t, lo, hi);
        let r = due_in(es, lo, hi);
        let rt = due_in(t, lo, hi);
        assert forall|i: int| 0 <= i < r.len() implies is_due(#[trigger] r[i], lo, hi) && es.contains(r[i]) by {
            if i < rt.len() {
                assert(r[i] == rt[i]);
                assert(t.contains(rt[i]));
                let k = choose|k: int| 0 <= k < t.len() && t[k] == rt[i];
                assert(es[k] == t[k]);
            } else {
                assert(r[i] == es.last());
                assert(es[es.len() - 1] == es.last());
            }
        }
    }
}

/// Every reminder is due: a timed occurrence (never all-day) of one of the
/// events, starting after `lo` and no later than `hi`.
pub proof fn law_due_events_are_due(es: Seq<EventView>, lo: (int, int, int), hi: (int, int, int))
    ensures
        forall|i: int|
            0 <= i < due_window_spec(es, lo, hi).len() ==> !(#[trigger] due_window_spec(es, lo, hi)[i]).all_day
                && dt_lt(lo, due_window_spec(es, lo, hi)[i].start) && dt_le(due_window_spec(es, lo, hi)[i].start, hi),
{
    lemma_due_in_due(events_between_spec(es, lo.0, hi.0), lo, hi);
}

proof fn lemma_kept_keys_kept(keys: Seq<String>, cutoff: (int, int, int))
    ensures
        forall|i: int| 0 <= i < kept_keys(keys, cutoff).len() ==> keeps_key((#[trigger] kept_keys(keys, cutoff)[i])@, cutoff),
    decreases keys.len(),
{
    if keys.len() > 0 {
        lemma_kept_keys_kept(keys.drop_last(), cutoff);
        let r = kept_keys(keys, cutoff);
        let rt = kept_keys(keys.drop_last(), cutoff);
        assert forall|i: int| 0 <= i < r.len() implies keeps_key((#[trigger] r[i])@, cutoff) by {
            if i < rt.len() {
                assert(r[i] == rt[i]);
            }
        }
    }
}

/// Text order on strings is a strict weak order.
pub proof fn lemma_string_order()
    ensures
        crate::sort::is_strict_weak_order::<String>(),
{
    assert forall|a: String, b: String| #[trigger] a.precedes(&b) implies !b.precedes(&a) by {
        crate::text::lemma_text_lt_asymmetric(a@, b@);
    }
    assert forall|a: String, b: String, c: String|
        #![trigger a.precedes(&b), b.precedes(&c)]
        !a.precedes(&b) && !b.precedes(&c) implies !a.precedes(&c) by {
        crate::text::lemma_text_lt_total(a@, b@);
        crate::text::lemma_text_lt_total(b@, c@);
        crate::text::lemma_text_lt_asymmetric(a@, c@);
        if crate::text::text_lt(a@, c@) {
            if crate::text::text_lt(b@, a@) {
                crate::text::lemma_text_lt_transitive(b@, a@, c@);
            }
            if crate::text::text_lt(c@, b@) {
                crate::text::lemma_text_lt_transitive(a@, c@, b@);
            }
            if b@ == a@ {
                assert(crate::text::text_lt(b@, c@));
            }
        }
    }
}

/// The state file keeps exactly the keys whose start parses and is not before
/// the cutoff, each text once, in text order.
pub proof fn law_pruned_keys(keys: Seq<String>, cutoff: (int, int, int))
    ensures
        forall|i: int|
            0 <= i < sorted(kept_keys(keys, cutoff)).len() ==> keeps_key(
                (#[trigger] sorted(kept_keys(keys, cutoff))[i])@,
                cutoff,
            ),
        crate::sort::is_ordered(sorted(kept_keys(keys, cutoff))),
        sorted(kept_keys(keys, cutoff)).to_multiset() == kept_keys(keys, cutoff).to_multiset(),
{
    broadcast use vstd::seq_lib::to_multiset_contains;

    let k = kept_keys(keys, cutoff);
    lemma_kept_keys_kept(keys, cutoff);
    crate::sort::lemma_sorted_permutation(k);
    lemma_string_order();
    crate::sort::lemma_sorted_ordered(k);
    assert forall|i: int| 0 <= i < sorted(k).len() implies keeps_key((#[trigger] sorted(k)[i])@, cutoff) by {
        assert(sorted(k).contains(sorted(k)[i]));
        assert(k.to_multiset().count(sorted(k)[i]) > 0);
        assert(k.contains(sorted(k)[i]));
        let j = choose|j: int| 0 <= j < k.len() && k[j] == sorted(k)[i];
    }
}


/// A key the state file gives back as written: a non-empty single line with
/// no blank at either end.
pub open spec fn line_key(k: Seq<char>) -> bool {
    &&& k.len() > 0
    &&& !is_ws(k[0])
    &&& !is_ws(k.last())
    &&& !k.contains('\n')
}

proof fn lemma_joined_first(ks: Seq<Seq<char>>)
    requires
        ks.len() > 0,
    ensures
        joined_lines(ks) == ks[0] + seq!['\n'] + joined_lines(ks.drop_first()),
    decreases ks.len(),
{
    if ks.len() == 1 {
        assert(ks.drop_last() =~= Seq::<Seq<char>>::empty());
        assert(ks.drop_first() =~= Seq::<Seq<char>>::empty());
        assert(ks.last() == ks[0]);
        assert(Seq::<char>::empty() + ks[0] + seq!['\n'] =~= ks[0] + seq!['\n'] + Seq::<char>::empty());
    } else {
        let d = ks.drop_last();
        let f = ks.drop_first();
        lemma_joined_first(d);
        assert(d.drop_first() =~= f.drop_last());
        assert(d[0] == ks[0]);
        assert(f.last() == ks.last());
        let jd = joined_lines(d.drop_first());
        assert(joined_lines(f) == jd + ks.last() + seq!['\n']);
        assert(joined_lines(ks) == joined_lines(d) + ks.last() + seq!['\n']);
        assert(joined_lines(ks) =~= ks[0] + seq!['\n'] + joined_lines(f));
    }
}

proof fn lemma_lines_cons(k: Seq<char>, r: Seq<char>)
    requires
        line_key(k),
    ensures
        lines(k + seq!['\n'] + r) == seq![k] + lines(r),
{
    let s = k + seq!['\n'] + r;
    let n = k.len() as int;
    lemma_find_char(s, '\n');
    assert(s[n] == '\n');
    match find_char(s, '\n') {
        Some(i) => {
            if i < n {
                assert(s[i] == k[i]);
                assert(k.contains('\n'));
            }
            if i > n {
                assert(s[n] != '\n');
            }
        },
        None => {
            assert(s[n] != '\n');
        },
    }
    assert(find_char(s, '\n') == Some(n));
    assert(s.take(n) =~= k);
    assert(s.skip(n + 1) =~= r);
    assert(is_ws('\r'));
    assert(strip_cr(k) == k);
}

/// Keys written one per line are read back as the same lines.
proof fn lemma_lines_joined(ks: Seq<Seq<char>>)
    requires
        forall|i: int| 0 <= i < ks.len() ==> line_key(#[trigger] ks[i]),
    ensures
        lines(joined_lines(ks)) == ks,
    decreases ks.len(),
{
    if ks.len() == 0 {
        assert(joined_lines(ks) =~= Seq::<char>::empty());
    } else {
        let f = ks.drop_first();
        lemma_joined_first(ks);
        assert(line_key(ks[0]));
        assert forall|i: int| 0 <= i < f.len() implies line_key(#[trigger] f[i]) by {
            assert(f[i] == ks[i + 1]);
        }
        lemma_lines_joined(f);
        lemma_lines_cons(ks[0], joined_lines(f));
        assert(ks =~= seq![ks[0]] + f);
    }
}

/// Lines with no blank at either end are all kept, as they are.
proof fn lemma_kept_lines_same(ls: Seq<Seq<char>>)
    requires
        forall|i: int| 0 <= i < ls.len() ==> line_key(#[trigger] ls[i]),
    ensures
        kept_lines(ls) == ls,
    decreases ls.len(),
{
    if ls.len() > 0 {
        let d = ls.drop_last();
        assert forall|i: int| 0 <= i < d.len() implies line_key(#[trigger] d[i]) by {
            assert(d[i] == ls[i]);
        }
        lemma_kept_lines_same(d);
        let l = ls.last();
        assert(line_key(ls[ls.len() - 1]));
        assert(trim_start(l) == l);
        assert(trim_end(l) == l);
        assert(ls =~= d + seq![l]);
    }
}

/// What pruning keeps: keys of the input, each text once, exactly the texts
/// that survive pruning.
proof fn lemma_kept_keys_set(keys: Seq<String>, cutoff: (int, int, int))
    ensures
        forall|i: int| 0 <= i < kept_keys(keys, cutoff).len() ==> keys.contains(
            #[trigger] kept_keys(keys, cutoff)[i],
        ),
        forall|k: Seq<char>|
            strings_view(kept_keys(keys, cutoff)).contains(k) <==> (keeps_key(k, cutoff)
                && strings_view(keys).contains(k)),
        strings_view(kept_keys(keys, cutoff)).no_duplicates(),
    decreases keys.len(),
{
    if keys.len() > 0 {
        let d = keys.drop_last();
        let x = keys.last();
        lemma_kept_keys_set(d, cutoff);
        let before = kept_keys(d, cutoff);
        let r = kept_keys(keys, cutoff);
        let add = keeps_key(x@, cutoff) && !strings_view(before).contains(x@);
        assert(keys[keys.len() - 1] == x);
        assert forall|i: int| 0 <= i < r.len() implies keys.contains(#[trigger] r[i]) by {
            if i < before.len() {
                assert(r[i] == before[i]);
                let j = choose|j: int| 0 <= j < d.len() && d[j] == before[i];
                assert(keys[j] == d[j]);
            } else {
                assert(r[i] == x);
            }
        }
        assert(strings_view(keys) =~= strings_view(d).push(x@));
        if add {
            assert(strings_view(r) =~= strings_view(before).push(x@));
        } else {
            assert(r =~= before);
        }
        let kv = strings_view(keys);
        let dv = strings_view(d);
        let bv = strings_view(before);
        let rv = strings_view(r);
        assert forall|k: Seq<char>| kv.contains(k) <==> (dv.contains(k) || k == x@) by {
            if kv.contains(k) {
                let j = choose|j: int| 0 <= j < kv.len() && kv[j] == k;
                if j < dv.len() {
                    assert(dv[j] == k);
                }
            }
            if dv.contains(k) {
                let j = choose|j: int| 0 <= j < dv.len() && dv[j] == k;
                assert(kv[j] == k);
            }
            if k == x@ {
                assert(kv[dv.len() as int] == k);
            }
        }
        assert forall|k: Seq<char>| rv.contains(k) <==> (bv.contains(k) || (add && k == x@)) by {
            if rv.contains(k) {
                let j = choose|j: int| 0 <= j < rv.len() && rv[j] == k;
                if j < bv.len() {
                    assert(bv[j] == k);
                }
            }
            if bv.contains(k) {
                let j = choose|j: int| 0 <= j < bv.len() && bv[j] == k;
                assert(rv[j] == k);
            }
            if add && k == x@ {
                assert(rv[bv.len() as int] == k);
            }
        }
        assert forall|k: Seq<char>| rv.contains(k) <==> (keeps_key(k, cutoff) && kv.contains(k)) by {
            assert(bv.contains(k) <==> (keeps_key(k, cutoff) && dv.contains(k)));
        }
        if add {
            let sv = strings_view(r);
            assert forall|i: int, j: int| 0 <= i < sv.len() && 0 <= j < sv.len() && i != j implies sv[i]
                != sv[j] by {
                if i < before.len() && j < before.len() {
                    assert(sv[i] == strings_view(before)[i] && sv[j] == strings_view(before)[j]);
                } else if i < before.len() {
                    assert(sv[i] == strings_view(before)[i]);
                    assert(sv[j] == x@);
                } else if j < before.len() {
                    assert(sv[j] == strings_view(before)[j]);
                    assert(sv[i] == x@);
                }
            }
        }
    } else {
        assert(strings_view(kept_keys(keys, cutoff)) =~= Seq::<Seq<char>>::empty());
        assert(strings_view(keys) =~= Seq::<Seq<char>>::empty());
    }
}

/// Reading the state file back gives exactly the kept keys. When no key
/// holds a line break or starts or ends with a blank, the lines read from
/// the written text are the kept keys in the order written; a text is among
/// them exactly when it is one of the keys and survives pruning; and no
/// text is written twice.
pub proof fn law_notified_roundtrip(keys: Seq<String>, cutoff: (int, int, int))
    requires
        forall|i: int| 0 <= i < keys.len() ==> line_key(#[trigger] keys[i]@),
    ensures
        kept_lines(lines(notified_text_spec(keys, cutoff))) == strings_view(sorted(kept_keys(keys, cutoff))),
        forall|k: Seq<char>|
            kept_lines(lines(notified_text_spec(keys, cutoff))).contains(k) <==> (keeps_key(k, cutoff)
                && strings_view(keys).contains(k)),
        strings_view(kept_keys(keys, cutoff)).no_duplicates(),
{
    broadcast use vstd::seq_lib::to_multiset_contains;

    let kk = kept_keys(keys, cutoff);
    let s = sorted(kk);
    let sv = strings_view(s);
    lemma_kept_keys_set(keys, cutoff);
    crate::sort::lemma_sorted_permutation(kk);
    assert forall|i: int| 0 <= i < s.len() implies kk.contains(#[trigger] s[i]) by {
        assert(s.contains(s[i]));
        assert(kk.to_multiset().count(s[i]) > 0);
    }
    assert forall|i: int| 0 <= i < sv.len() implies line_key(#[trigger] sv[i]) by {
        assert(sv[i] == s[i]@);
        assert(kk.contains(s[i]));
        let p = choose|p: int| 0 <= p < kk.len() && kk[p] == s[i];
        assert(keys.contains(kk[p]));
        let q = choose|q: int| 0 <= q < keys.len() && keys[q] == kk[p];
        assert(line_key(keys[q]@));
    }
    lemma_lines_joined(sv);
    lemma_kept_lines_same(sv);
    assert forall|k: Seq<char>| sv.contains(k) <==> strings_view(kk).contains(k) by {
        if sv.contains(k) {
            let i = choose|i: int| 0 <= i < sv.len() && sv[i] == k;
            assert(sv[i] == s[i]@);
            assert(kk.contains(s[i]));
            let p = choose|p: int| 0 <= p < kk.len() && kk[p] == s[i];
            assert(strings_view(kk)[p] == k);
        }
        if strings_view(kk).contains(k) {
            let p = choose|p: int| 0 <= p < strings_view(kk).len() && strings_view(kk)[p] == k;
            assert(kk.contains(kk[p]));
            assert(s.to_multiset().count(kk[p]) > 0);
            assert(s.contains(kk[p]));
            let i = choose|i: int| 0 <= i < s.len() && s[i] == kk[p];
            assert(sv[i] == k);
        }
    }
}


proof fn lemma_due_in_complete(es: Seq<EventView>, lo: (int, int, int), hi: (int, int, int))
    ensures
        forall|i: int|
            0 <= i < es.len() && !(#[trigger] es[i]).all_day && dt_lt(lo, es[i].start) && dt_le(es[i].start, hi)
                ==> due_in(es, lo, hi).contains(es[i]),
    decreases es.len(),
{
    if es.len() > 0 {
        let t = es.drop_last();
        lemma_due_in_complete(t, lo, hi);
        let r = due_in(es, lo, hi);
        let rt = due_in(t, lo, hi);
        assert forall|i: int|
            0 <= i < es.len() && !(#[trigger] es[i]).all_day && dt_lt(lo, es[i].start) && dt_le(es[i].start, hi)
            implies r.contains(es[i]) by {
            if i < t.len() {
                assert(t[i] == es[i]);
                let k = choose|k: int| 0 <= k < rt.len() && rt[k] == t[i];
                assert(r[k] == rt[k]);
            } else {
                assert(es[i] == es.last());
                assert(r[rt.len() as int] == es.last());
            }
        }
    }
}

/// Every occurrence over the window's days that is timed (not all-day) and
/// starts after `lo` and no later than `hi` is among the reminders, whatever
/// else it holds (an end, a rule, a description).
pub proof fn law_due_events_complete(es: Seq<EventView>, lo: (int, int, int), hi: (int, int, int))
    ensures
        forall|i: int|
            0 <= i < events_between_spec(es, lo.0, hi.0).len() && !(#[trigger] events_between_spec(
                es,
                lo.0,
                hi.0,
            )[i]).all_day && dt_lt(lo, events_between_spec(es, lo.0, hi.0)[i].start) && dt_le(
                events_between_spec(es, lo.0, hi.0)[i].start,
                hi,
            ) ==> due_window_spec(es, lo, hi).contains(events_between_spec(es, lo.0, hi.0)[i]),
{
    lemma_due_in_complete(events_between_spec(es, lo.0, hi.0), lo, hi);
}
} // verus!
