//! What reading a calendar file, saving it and reading it again gives: the
//! same events, for files whose lines the reader and writer agree on.
use vstd::prelude::*;
use crate::ics::{
    EventView, Prop, ParseState, unescape, escaped_char, extra_from, find_prop, find_prop_from, prop_name, known,
    depth_after, has_param, is_date_only_spec, parse_dt_spec, split_prop_spec, build_event_spec, prop_value,
    line_matches,
};
use crate::roundtrip::{
    key_ok, value_ok, prop_ok, prop_line, replay, no_lf, text_ok, raw_line_ok, savable, as_saved, date_ok,
    lemma_capital_literals,
};
use crate::ics::{unfold, step, run, parse_ics_spec, to_ics_spec};
use crate::roundtrip::{law_save_reload, lemma_replay_concat, lemma_trimmed_ends};
use crate::text::{
    find_char, lemma_find_char, trim, trim_start, trim_end, trim_end_char, upper, upper_char, before_char, lines,
    strip_cr, is_ws,
};

verus! {

/// A property found by name is one of the properties and has that name.
proof fn lemma_found_prop(props: Seq<Prop>, name: Seq<char>, d: nat)
    ensures
        find_prop_from(props, name, d) matches Some(p) ==> props.contains(p) && prop_name(p.0) == name,
    decreases props.len(),
{
    if props.len() > 0 {
        let rest = props.drop_first();
        let cur = prop_name(props[0].0);
        lemma_found_prop(rest, name, depth_after(d, cur));
        lemma_found_prop(rest, name, d);
        if let Some(p) = find_prop_from(props, name, d) {
            if p != props[0] {
                let j = choose|j: int| 0 <= j < rest.len() && rest[j] == p;
                assert(props[j + 1] == p);
            } else {
                assert(props[0] == p);
            }
        }
    }
}

/// A plain key whose upper-case form is a word of capital letters is that
/// word as a property name.
proof fn lemma_upper_word(k: Seq<char>, w: Seq<char>)
    requires
        key_ok(k),
        upper(k) == w,
        forall|i: int| 0 <= i < w.len() ==> 'A' <= #[trigger] w[i] <= 'Z',
    ensures
        prop_name(k) == w,
{
    assert(upper(k).len() == k.len());
    assert forall|i: int| 0 <= i < k.len() implies #[trigger] k[i] != ';' by {
        assert(upper(k)[i] == upper_char(k[i]));
        assert(w[i] == upper_char(k[i]));
    }
    lemma_find_char(k, ';');
    if find_char(k, ';') is Some {
        let j = find_char(k, ';')->0;
        assert(k[j] != ';');
    }
    assert(before_char(k, ';') == k);
}

/// A plain key named other than `BEGIN` and `END` neither opens nor closes
/// a component, and its line is not `END:VEVENT`.
proof fn lemma_named_key(p: Prop)
    requires
        key_ok(p.0),
        prop_name(p.0) != "BEGIN"@,
        prop_name(p.0) != "END"@,
    ensures
        upper(p.0) != "BEGIN"@,
        upper(p.0) != "END"@,
        prop_line(p) != "END:VEVENT"@,
{
    reveal_strlit("BEGIN");
    reveal_strlit("END");
    reveal_strlit("END:VEVENT");
    if upper(p.0) == "BEGIN"@ {
        lemma_upper_word(p.0, "BEGIN"@);
    }
    if upper(p.0) == "END"@ {
        lemma_upper_word(p.0, "END"@);
    }
    let l = prop_line(p);
    let k = p.0;
    if l == "END:VEVENT"@ {
        let n = k.len() as int;
        assert(l[n] == ':');
        if n < 3 {
            assert("END:VEVENT"@[n] != ':');
        }
        if n > 3 {
            assert(l[3] == k[3]);
            assert(k.contains(':'));
        }
        assert(k =~= "END"@) by {
            assert forall|i: int| 0 <= i < 3 implies k[i] == "END"@[i] by {
                assert(l[i] == k[i]);
            }
        }
        assert(upper(k) =~= "END"@) by {
            assert forall|i: int| 0 <= i < 3 implies upper(k)[i] == "END"@[i] by {
                assert(upper_char(k[i]) == k[i]);
            }
        }
        lemma_upper_word(k, "END"@);
    }
}

/// The names the reader interprets are neither `BEGIN` nor `END`.
proof fn lemma_known_not_component(name: Seq<char>)
    requires
        known(name),
    ensures
        name != "BEGIN"@,
        name != "END"@,
{
    lemma_capital_literals();
}

/// Keeping the kept lines again keeps them all.
proof fn lemma_extra_again(x: Seq<Prop>, d: nat, en: bool)
    ensures
        extra_from(extra_from(x, d, en), d, en) == extra_from(x, d, en),
    decreases x.len(),
{
    if x.len() > 0 {
        let name = prop_name(x[0].0);
        let keep = d > 0 || (name == "DTEND"@ && en) || !known(name);
        let rest = x.drop_first();
        let d2 = depth_after(d, name);
        lemma_extra_again(rest, d2, en);
        if keep {
            let y = seq![x[0]] + extra_from(rest, d2, en);
            assert(y[0] == x[0]);
            assert(y.drop_first() =~= extra_from(rest, d2, en));
        } else {
            lemma_known_not_component(name);
            assert(d2 == d);
        }
    }
}

/// The lines the reader drops change no nesting depth and close nothing,
/// so the kept lines replay as all the lines do.
proof fn lemma_extra_replay(x: Seq<Prop>, d: nat, en: bool, r: nat)
    requires
        forall|i: int| 0 <= i < x.len() ==> prop_ok(#[trigger] x[i]),
    ensures
        replay(extra_from(x, d, en), r) == replay(x, r),
    decreases x.len(),
{
    if x.len() > 0 {
        let name = prop_name(x[0].0);
        let keep = d > 0 || (name == "DTEND"@ && en) || !known(name);
        let rest = x.drop_first();
        let d2 = depth_after(d, name);
        assert forall|i: int| 0 <= i < rest.len() implies prop_ok(#[trigger] rest[i]) by {
            assert(rest[i] == x[i + 1]);
        }
        assert(prop_ok(x[0]));
        let r2 = depth_after(r, upper(x[0].0));
        lemma_extra_replay(rest, d2, en, r2);
        if keep {
            let y = seq![x[0]] + extra_from(rest, d2, en);
            assert(y[0] == x[0]);
            assert(y.drop_first() =~= extra_from(rest, d2, en));
        } else {
            lemma_known_not_component(name);
            lemma_named_key(x[0]);
            assert(r2 == r);
            lemma_extra_replay(rest, d2, en, r);
        }
    }
}

/// With no end parsed, the first top-level `DTEND` among the kept lines is
/// the first among all lines.
proof fn lemma_extra_dtend(x: Seq<Prop>, d: nat)
    ensures
        find_prop_from(extra_from(x, d, true), "DTEND"@, d) == find_prop_from(x, "DTEND"@, d),
    decreases x.len(),
{
    if x.len() > 0 {
        let name = prop_name(x[0].0);
        let keep = d > 0 || name == "DTEND"@ || !known(name);
        let rest = x.drop_first();
        let d2 = depth_after(d, name);
        lemma_extra_dtend(rest, d2);
        lemma_capital_literals();
        if keep {
            let y = seq![x[0]] + extra_from(rest, d2, true);
            assert(y[0] == x[0]);
            assert(y.drop_first() =~= extra_from(rest, d2, true));
            if !(name == "BEGIN"@ || name == "END"@) {
                assert(d2 == d);
            }
        } else {
            lemma_known_not_component(name);
            assert(d2 == d);
        }
    }
}

/// What unescaping ends with: the text's own last character, or a
/// character an escape stands for.
proof fn lemma_unescape_last(s: Seq<char>)
    ensures
        unescape(s).len() > 0 <==> s.len() > 0,
        s.len() > 0 ==> unescape(s).last() == s.last() || unescape(s).last() == '\n' || unescape(s).last()
            == ',' || unescape(s).last() == ';' || unescape(s).last() == '\\',
    decreases s.len(),
{
    if s.len() > 0 {
        if s.len() >= 2 && s[0] == '\\' && escaped_char(s[1]) is Some {
            let t = s.skip(2);
            lemma_unescape_last(t);
            if t.len() > 0 {
                assert(t.last() == s.last());
            }
        } else {
            let t = s.skip(1);
            lemma_unescape_last(t);
            if t.len() > 0 {
                assert(t.last() == s.last());
            } else {
                assert(s.len() == 1);
            }
        }
    }
}


/// The kept lines are lines of the event.
proof fn lemma_extra_in(x: Seq<Prop>, d: nat, en: bool)
    ensures
        forall|i: int| 0 <= i < extra_from(x, d, en).len() ==> x.contains(#[trigger] extra_from(x, d, en)[i]),
    decreases x.len(),
{
    if x.len() > 0 {
        let name = prop_name(x[0].0);
        let keep = d > 0 || (name == "DTEND"@ && en) || !known(name);
        let rest = x.drop_first();
        let d2 = depth_after(d, name);
        lemma_extra_in(rest, d2, en);
        let r = extra_from(x, d, en);
        let t = extra_from(rest, d2, en);
        assert forall|i: int| 0 <= i < r.len() implies x.contains(#[trigger] r[i]) by {
            if keep && i == 0 {
                assert(r[0] == x[0]);
            } else {
                let k = if keep { i - 1 } else { i };
                assert(r[i] == t[k]);
                assert(rest.contains(t[k]));
                let j = choose|j: int| 0 <= j < rest.len() && rest[j] == t[k];
                assert(x[j + 1] == rest[j]);
            }
        }
    }
}

/// The value of a named property is a plain value.
proof fn lemma_value_ok(props: Seq<Prop>, name: Seq<char>)
    requires
        forall|i: int| 0 <= i < props.len() ==> prop_ok(#[trigger] props[i]),
    ensures
        prop_value(props, name) matches Some(v) ==> value_ok(v),
{
    lemma_found_prop(props, name, 0);
    if let Some(p) = find_prop(props, name) {
        let j = choose|j: int| 0 <= j < props.len() && props[j] == p;
        assert(prop_ok(props[j]));
    }
}

/// Text read from a plain value stays on its line when written.
proof fn lemma_text_ok(props: Seq<Prop>, name: Seq<char>)
    requires
        forall|i: int| 0 <= i < props.len() ==> prop_ok(#[trigger] props[i]),
    ensures
        text_ok(
            match prop_value(props, name) {
                Some(v) => unescape(v),
                None => seq![],
            },
        ),
{
    lemma_value_ok(props, name);
    if let Some(v) = prop_value(props, name) {
        lemma_unescape_last(v);
    }
}

/// A date line the reader found under `name` reads back as it is.
proof fn lemma_found_date(props: Seq<Prop>, name: Seq<char>, value: (int, int, int), all_day: bool)
    requires
        forall|i: int| 0 <= i < props.len() ==> prop_ok(#[trigger] props[i]),
        name == "DTSTART"@ || name == "DTEND"@,
        find_prop(props, name) is Some,
        line_matches(find_prop(props, name), value, all_day),
    ensures
        raw_line_ok(find_prop(props, name), name, value, all_day),
        date_ok(find_prop(props, name), name, value, all_day),
{
    lemma_found_prop(props, name, 0);
    lemma_capital_literals();
    let p = find_prop(props, name)->0;
    let j = choose|j: int| 0 <= j < props.len() && props[j] == p;
    assert(prop_ok(props[j]));
    lemma_named_key(p);
}

/// An event whose end line, when it has one, says all-day exactly when the
/// event does (its `DTSTART`).
pub open spec fn end_agrees(e: EventView) -> bool {
    match (e.end, e.end_raw) {
        (Some(_), Some(l)) => (has_param(l.0, "VALUE=DATE"@) || is_date_only_spec(l.1)) == e.all_day,
        _ => true,
    }
}

/// An event the reader builds from plain lines that close at depth 0 is
/// savable, and saving it leaves its date lines as they are.
proof fn lemma_built_event(props: Seq<Prop>, e: EventView)
    requires
        build_event_spec(props) == Some(e),
        forall|i: int| 0 <= i < props.len() ==> prop_ok(#[trigger] props[i]),
        replay(props, 0) == Some(0nat),
        end_agrees(e),
    ensures
        savable(e),
        as_saved(e) == e,
{
    lemma_value_ok(props, "UID"@);
    lemma_value_ok(props, "RRULE"@);
    lemma_text_ok(props, "SUMMARY"@);
    lemma_text_ok(props, "DESCRIPTION"@);
    assert(value_ok(Seq::<char>::empty()));
    lemma_found_date(props, "DTSTART"@, e.start, e.all_day);
    if let Some(x) = e.end {
        lemma_found_date(props, "DTEND"@, x, e.all_day);
    } else {
        lemma_extra_dtend(props, 0);
    }
    let en = e.end is None;
    lemma_extra_in(props, 0, en);
    assert forall|i: int| 0 <= i < e.extra.len() implies prop_ok(#[trigger] e.extra[i]) by {
        assert(props.contains(e.extra[i]));
        let j = choose|j: int| 0 <= j < props.len() && props[j] == e.extra[i];
        assert(prop_ok(props[j]));
    }
    lemma_extra_again(props, 0, en);
    lemma_extra_replay(props, 0, en, 0);
    assert(savable(e));
    assert(as_saved(e) =~= e);
}


/// A line as the reader takes it: no line feed, no trailing carriage return.
pub open spec fn read_line(l: Seq<char>) -> bool {
    no_lf(l) && (l.len() > 0 ==> l.last() != '\r')
}

/// The pieces `str::lines` gives hold no line feed.
proof fn lemma_lines_no_lf(s: Seq<char>)
    ensures
        forall|i: int| 0 <= i < lines(s).len() ==> no_lf(#[trigger] lines(s)[i]),
    decreases s.len(),
{
    if s.len() > 0 {
        lemma_find_char(s, '\n');
        match find_char(s, '\n') {
            None => {
                assert(lines(s) == seq![s]);
                assert(no_lf(s)) by {
                    assert forall|j: int| 0 <= j < s.len() implies #[trigger] s[j] != '\n' by {}
                }
            },
            Some(k) => {
                let rest = s.skip(k + 1);
                lemma_lines_no_lf(rest);
                let h = strip_cr(s.take(k));
                assert(no_lf(h)) by {
                    assert forall|j: int| 0 <= j < h.len() implies #[trigger] h[j] != '\n' by {
                        assert(h[j] == s[j]);
                    }
                }
                let ls = lines(s);
                assert(ls == seq![h] + lines(rest));
                assert forall|i: int| 0 <= i < ls.len() implies no_lf(#[trigger] ls[i]) by {
                    if i > 0 {
                        assert(ls[i] == lines(rest)[i - 1]);
                    }
                }
            },
        }
    }
}

/// Dropping trailing carriage returns leaves a prefix that does not end in one.
proof fn lemma_trim_cr(l: Seq<char>)
    ensures
        trim_end_char(l, '\r') == l.take(trim_end_char(l, '\r').len() as int),
        trim_end_char(l, '\r').len() <= l.len(),
        trim_end_char(l, '\r').len() > 0 ==> trim_end_char(l, '\r').last() != '\r',
    decreases l.len(),
{
    if l.len() > 0 && l.last() == '\r' {
        lemma_trim_cr(l.drop_last());
        let r = trim_end_char(l.drop_last(), '\r');
        assert(l.drop_last().take(r.len() as int) =~= l.take(r.len() as int));
    } else {
        assert(l.take(l.len() as int) =~= l);
    }
}

/// Unfolding joins continuation lines and keeps every logical line one the
/// reader takes whole.
proof fn lemma_unfold_read(ls: Seq<Seq<char>>)
    requires
        forall|i: int| 0 <= i < ls.len() ==> no_lf(#[trigger] ls[i]),
    ensures
        forall|i: int| 0 <= i < unfold(ls).len() ==> read_line(#[trigger] unfold(ls)[i]),
    decreases ls.len(),
{
    if ls.len() > 0 {
        let d = ls.drop_last();
        assert forall|i: int| 0 <= i < d.len() implies no_lf(#[trigger] d[i]) by {
            assert(d[i] == ls[i]);
        }
        lemma_unfold_read(d);
        let acc = unfold(d);
        let raw = ls.last();
        assert(no_lf(ls[ls.len() - 1]));
        let l = trim_end_char(raw, '\r');
        lemma_trim_cr(raw);
        assert(no_lf(l)) by {
            assert forall|j: int| 0 <= j < l.len() implies #[trigger] l[j] != '\n' by {
                assert(l[j] == raw.take(l.len() as int)[j]);
                assert(raw[j] != '\n');
            }
        }
        let u = unfold(ls);
        if l.len() > 0 && (l[0] == ' ' || l[0] == '\t') && acc.len() > 0 {
            let joined = acc.last() + l.drop_first();
            assert(read_line(acc[acc.len() - 1]));
            assert(read_line(joined)) by {
                assert forall|j: int| 0 <= j < joined.len() implies #[trigger] joined[j] != '\n' by {
                    if j < acc.last().len() {
                        assert(joined[j] == acc.last()[j]);
                    } else {
                        assert(joined[j] == l[j - acc.last().len() + 1]);
                    }
                }
                if l.drop_first().len() > 0 {
                    assert(joined.last() == l.last());
                } else {
                    assert(joined =~= acc.last());
                }
            }
            assert(u == acc.update(acc.len() - 1, joined));
            assert forall|i: int| 0 <= i < u.len() implies read_line(#[trigger] u[i]) by {
                if i < acc.len() - 1 {
                    assert(u[i] == acc[i]);
                }
            }
        } else {
            assert(u == acc.push(l));
            assert forall|i: int| 0 <= i < u.len() implies read_line(#[trigger] u[i]) by {
                if i < acc.len() {
                    assert(u[i] == acc[i]);
                }
            }
        }
    }
}


proof fn lemma_trim_start_shape(s: Seq<char>)
    ensures
        exists|k: int| 0 <= k <= s.len() && trim_start(s) == s.skip(k),
        trim_start(s).len() > 0 ==> !is_ws(trim_start(s)[0]),
    decreases s.len(),
{
    if s.len() > 0 && is_ws(s[0]) {
        lemma_trim_start_shape(s.drop_first());
        let k = choose|k: int| 0 <= k <= s.drop_first().len() && trim_start(s.drop_first()) == s.drop_first().skip(k);
        assert(s.drop_first().skip(k) =~= s.skip(k + 1));
    } else {
        assert(s.skip(0) =~= s);
    }
}

proof fn lemma_trim_end_shape(s: Seq<char>)
    ensures
        exists|k: int| 0 <= k <= s.len() && trim_end(s) == s.take(k),
        trim_end(s).len() > 0 ==> !is_ws(trim_end(s).last()),
    decreases s.len(),
{
    if s.len() > 0 && is_ws(s.last()) {
        lemma_trim_end_shape(s.drop_last());
        let k = choose|k: int| 0 <= k <= s.drop_last().len() && trim_end(s.drop_last()) == s.drop_last().take(k);
        assert(s.drop_last().take(k) =~= s.take(k));
    } else {
        assert(s.take(s.len() as int) =~= s);
    }
}

/// Trimming gives a piece of the text, and trimming that piece changes nothing.
proof fn lemma_trim_piece(s: Seq<char>)
    ensures
        exists|a: int, b: int| 0 <= a <= b <= s.len() && trim(s) == s.subrange(a, b),
        trim(trim(s)) == trim(s),
{
    lemma_trim_start_shape(s);
    let a = choose|k: int| 0 <= k <= s.len() && trim_start(s) == s.skip(k);
    let z = trim_start(s);
    lemma_trim_end_shape(z);
    let k = choose|k: int| 0 <= k <= z.len() && trim_end(z) == z.take(k);
    assert(z.take(k) =~= s.subrange(a, a + k));
    let y = trim(s);
    if y.len() > 0 {
        assert(y[0] == z[0]);
        assert(!is_ws(y[0]) && !is_ws(y.last()));
        assert(trim_start(y) == y);
        assert(trim_end(y) == y);
    } else {
        assert(trim_start(y) == y);
        assert(trim_end(y) == y);
    }
}

/// A property split from a line the reader takes whole is a plain property.
proof fn lemma_split_ok(l: Seq<char>)
    requires
        read_line(l),
    ensures
        split_prop_spec(l) matches Some(p) ==> prop_ok(p),
{
    lemma_find_char(l, ':');
    if let Some(i) = find_char(l, ':') {
        let head = l.take(i);
        let k = trim(head);
        let v = l.skip(i + 1);
        lemma_trim_piece(head);
        let (a, b) = choose|a: int, b: int| 0 <= a <= b <= head.len() && k == head.subrange(a, b);
        assert forall|j: int| 0 <= j < k.len() implies #[trigger] k[j] != '\n' && k[j] != ':' by {
            assert(k[j] == l[a + j]);
        }
        if k.contains(':') {
            let j = choose|j: int| 0 <= j < k.len() && k[j] == ':';
            assert(k[j] != ':');
        }
        assert(key_ok(k));
        assert forall|j: int| 0 <= j < v.len() implies #[trigger] v[j] != '\n' by {
            assert(v[j] == l[i + 1 + j]);
        }
        if v.len() > 0 {
            assert(v.last() == l.last());
        }
        assert(value_ok(v));
    }
}


/// A logical line that reads as the property line `END:VEVENT` only when it
/// is that line itself (not, say, `END :VEVENT`).
pub open spec fn closes_only_as_itself(l: Seq<char>) -> bool {
    match split_prop_spec(l) {
        Some(p) => prop_line(p) == "END:VEVENT"@ ==> l == "END:VEVENT"@,
        None => true,
    }
}

/// An event the reader built from plain lines that close at depth 0.
pub open spec fn built_from_plain(e: EventView) -> bool {
    exists|props: Seq<Prop>|
        #![trigger build_event_spec(props)]
        build_event_spec(props) == Some(e) && (forall|i: int|
            0 <= i < props.len() ==> prop_ok(#[trigger] props[i])) && replay(props, 0) == Some(0nat)
}

/// What the scanner keeps true: every event found is built from plain
/// lines that close at depth 0, and the open event's lines so far are plain
/// and leave the depth the scanner holds.
pub open spec fn scan_ok(st: ParseState) -> bool {
    &&& forall|i: int| 0 <= i < st.events.len() ==> built_from_plain(#[trigger] st.events[i])
    &&& match st.current {
        None => st.depth == 0,
        Some(ps) => (forall|i: int| 0 <= i < ps.len() ==> prop_ok(#[trigger] ps[i])) && replay(ps, 0) == Some(
            st.depth,
        ),
    }
}

proof fn lemma_step_ok(st: ParseState, l: Seq<char>)
    requires
        scan_ok(st),
        read_line(l),
        st.current is Some && st.depth == 0 ==> closes_only_as_itself(l),
    ensures
        scan_ok(step(st, l)),
{
    let n = step(st, l);
    if l == "BEGIN:VEVENT"@ && st.current is None {
        assert(replay(Seq::<Prop>::empty(), 0) == Some(0nat));
    } else if l == "END:VEVENT"@ && st.depth == 0 {
        if let Some(ps) = st.current {
            if let Some(e) = build_event_spec(ps) {
                assert(built_from_plain(e));
                assert forall|i: int| 0 <= i < n.events.len() implies built_from_plain(#[trigger] n.events[i]) by {
                    if i < st.events.len() {
                        assert(n.events[i] == st.events[i]);
                    }
                }
            }
        }
    } else {
        if let Some(ps) = st.current {
            if let Some(p) = split_prop_spec(l) {
                lemma_split_ok(l);
                lemma_replay_concat(ps, seq![p], 0);
                let one = seq![p];
                assert(one[0] == p);
                assert(one.drop_first() =~= Seq::<Prop>::empty());
                if prop_line(p) == "END:VEVENT"@ && st.depth == 0 {
                    assert(l == "END:VEVENT"@);
                }
                let ps2 = ps.push(p);
                assert(ps2 =~= ps + one);
                assert forall|i: int| 0 <= i < ps2.len() implies prop_ok(#[trigger] ps2[i]) by {
                    if i < ps.len() {
                        assert(ps2[i] == ps[i]);
                    }
                }
                assert(!(prop_line(one[0]) == "END:VEVENT"@ && st.depth == 0));
                let d2 = depth_after(st.depth, upper(one[0].0));
                assert(replay(one.drop_first(), d2) == Some(d2));
                assert(replay(one, st.depth) == Some(d2));
                assert(n.current == Some(ps2));
                assert(n.events == st.events);
                assert(scan_ok(n));
            } else {
                assert(n == st);
            }
        } else {
            assert(n == st);
        }
    }
}

/// Every logical line read while an event is open at the top level (not
/// inside a nested component) reads as the property line `END:VEVENT` only
/// when it is that line itself.
pub open spec fn closes_in_events_only_as_itself(ls: Seq<Seq<char>>) -> bool {
    forall|i: int|
        0 <= i < ls.len() && run(ls.take(i)).current is Some && run(ls.take(i)).depth == 0
            ==> closes_only_as_itself(#[trigger] ls[i])
}

proof fn lemma_run_ok(ls: Seq<Seq<char>>)
    requires
        forall|i: int| 0 <= i < ls.len() ==> read_line(#[trigger] ls[i]),
        closes_in_events_only_as_itself(ls),
    ensures
        scan_ok(run(ls)),
    decreases ls.len(),
{
    if ls.len() > 0 {
        let d = ls.drop_last();
        assert forall|i: int| 0 <= i < d.len() implies read_line(#[trigger] d[i]) by {
            assert(d[i] == ls[i]);
        }
        assert forall|i: int|
            0 <= i < d.len() && run(d.take(i)).current is Some && run(d.take(i)).depth == 0 implies closes_only_as_itself(
            #[trigger] d[i],
        ) by {
            assert(d[i] == ls[i]);
            assert(d.take(i) =~= ls.take(i));
        }
        lemma_run_ok(d);
        let n = ls.len() - 1;
        assert(read_line(ls[n]));
        assert(ls.take(n) =~= d);
        assert(run(d).current is Some && run(d).depth == 0 ==> closes_only_as_itself(ls[n]));
        lemma_step_ok(run(d), ls.last());
    }
}

/// Reading a calendar file, saving what was read and reading that again
/// gives the same events, whenever the reader and writer agree on the
/// file's lines: each event's end line says all-day exactly when its start
/// does, and no line read inside an event (outside its nested components)
/// reads as the property line `END:VEVENT` unless it is that line itself.
/// Such a line, e.g. `END :VEVENT` directly inside an event, is kept as a
/// property that the writer would write as `END:VEVENT`, ending the event
/// early; the same line outside events or inside a nested component is
/// harmless.
pub proof fn law_reload_stable(text: Seq<char>)
    requires
        forall|i: int|
            0 <= i < parse_ics_spec(text).len() ==> end_agrees(#[trigger] parse_ics_spec(text)[i]),
        closes_in_events_only_as_itself(unfold(lines(text))),
    ensures
        parse_ics_spec(to_ics_spec(parse_ics_spec(text))) == parse_ics_spec(text),
        forall|i: int| 0 <= i < parse_ics_spec(text).len() ==> savable(#[trigger] parse_ics_spec(text)[i]),
{
    let ls = unfold(lines(text));
    lemma_lines_no_lf(text);
    lemma_unfold_read(lines(text));
    lemma_run_ok(ls);
    let es = parse_ics_spec(text);
    assert forall|i: int| 0 <= i < es.len() implies savable(#[trigger] es[i]) && as_saved(es[i]) == es[i] by {
        assert(built_from_plain(run(ls).events[i]));
        let props = choose|props: Seq<Prop>|
            #![trigger build_event_spec(props)]
            build_event_spec(props) == Some(es[i]) && (forall|j: int|
                0 <= j < props.len() ==> prop_ok(#[trigger] props[j])) && replay(props, 0) == Some(0nat);
        lemma_built_event(props, es[i]);
    }
    law_save_reload(es);
    assert(es.map_values(|e: EventView| as_saved(e)) =~= es);
}

} // verus!
