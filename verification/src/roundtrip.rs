//! What a written calendar reads back as: text escaping undone by
//! unescaping, exported events parsed back to themselves, and events saved
//! and reloaded with their date lines as written.
use vstd::prelude::*;
use crate::ics::{
    EventView, Prop, ParseState, escape, unescape, unfold, step, run, extra_from, find_prop,
    find_prop_from, prop_name, prop_value, known, depth_after, has_param, is_date_only_spec, parse_dt_spec,
    split_prop_spec, build_event_spec, event_text, events_text, to_ics_spec, parse_ics_spec, line_text,
    push_dt_spec, head_text, end_text, summary_text, description_text, rrule_text, extra_text, line_matches,
    stampable, stamp_reads_back, date_stamp_reads_back, dt_value, strip_z, try_date,
};
use crate::date::{spec_format_datetime, is_stamp, is_date_stamp};
use crate::text::{
    replace, lines, strip_cr, find_char, lemma_find_char, trim, trim_start, trim_end, trim_end_char, upper,
    upper_char, is_ws, before_char, split_char, eq_ignore_case,
};

verus! {

/// One character of text as escaping writes it.
pub open spec fn esc_tok(c: char) -> Seq<char> {
    if c == '\\' {
        seq!['\\', '\\']
    } else if c == '\n' {
        seq!['\\', 'n']
    } else if c == ',' {
        seq!['\\', ',']
    } else if c == ';' {
        seq!['\\', ';']
    } else {
        seq![c]
    }
}

/// The text `s` as escaping writes it, character by character.
pub open spec fn esc_toks(s: Seq<char>) -> Seq<char>
    decreases s.len(),
{
    if s.len() == 0 {
        seq![]
    } else {
        esc_tok(s[0]) + esc_toks(s.drop_first())
    }
}

proof fn lemma_esc_toks_first(t: Seq<char>)
    ensures
        t.len() == 0 ==> esc_toks(t).len() == 0,
        t.len() > 0 ==> esc_toks(t).len() > 0 && esc_toks(t)[0] == esc_tok(t[0])[0],
{
    if t.len() > 0 {
        let a = esc_tok(t[0]);
        let b = esc_toks(t.drop_first());
        assert(a.len() > 0);
        assert((a + b)[0] == a[0]);
    }
}

proof fn lemma_rep1_cons(c: char, rest: Seq<char>, p: char, r: Seq<char>)
    ensures
        replace(seq![c] + rest, seq![p], r) == (if c == p {
            r
        } else {
            seq![c]
        }) + replace(rest, seq![p], r),
{
    let s = seq![c] + rest;
    assert(s.take(1) =~= seq![c]);
    assert(s.skip(1) =~= rest);
    assert(s.drop_first() =~= rest);
    assert(s[0] == c);
}

proof fn lemma_rep1_concat(a: Seq<char>, b: Seq<char>, p: char, r: Seq<char>)
    ensures
        replace(a + b, seq![p], r) == replace(a, seq![p], r) + replace(b, seq![p], r),
    decreases a.len(),
{
    if a.len() == 0 {
        assert(a + b =~= b);
        assert(replace(a, seq![p], r) =~= Seq::<char>::empty());
    } else {
        let c = a[0];
        let t = a.drop_first();
        assert(a =~= seq![c] + t);
        assert(a + b =~= seq![c] + (t + b));
        lemma_rep1_cons(c, t + b, p, r);
        lemma_rep1_cons(c, t, p, r);
        lemma_rep1_concat(t, b, p, r);
        let head = if c == p {
            r
        } else {
            seq![c]
        };
        assert(head + (replace(t, seq![p], r) + replace(b, seq![p], r)) =~= (head + replace(
            t,
            seq![p],
            r,
        )) + replace(b, seq![p], r));
    }
}

proof fn lemma_rep1_single(c: char, p: char, r: Seq<char>)
    ensures
        replace(seq![c], seq![p], r) == if c == p {
            r
        } else {
            seq![c]
        },
{
    lemma_rep1_cons(c, Seq::<char>::empty(), p, r);
    assert(seq![c] + Seq::<char>::empty() =~= seq![c]);
    let head = if c == p {
        r
    } else {
        seq![c]
    };
    assert(head + replace(Seq::<char>::empty(), seq![p], r) =~= head);
}

/// Escaping works character by character.
proof fn lemma_escape_toks(s: Seq<char>)
    ensures
        escape(s) == esc_toks(s),
    decreases s.len(),
{
    if s.len() == 0 {
        assert(escape(s) =~= Seq::<char>::empty());
    } else {
        let c = s[0];
        let t = s.drop_first();
        assert(s =~= seq![c] + t);
        lemma_escape_toks(t);
        let r1 = replace(seq![c], seq!['\\'], seq!['\\', '\\']);
        lemma_rep1_concat(seq![c], t, '\\', seq!['\\', '\\']);
        lemma_rep1_single(c, '\\', seq!['\\', '\\']);
        let a1 = replace(t, seq!['\\'], seq!['\\', '\\']);
        lemma_rep1_concat(r1, a1, '\n', seq!['\\', 'n']);
        let r2 = replace(r1, seq!['\n'], seq!['\\', 'n']);
        let a2 = replace(a1, seq!['\n'], seq!['\\', 'n']);
        lemma_rep1_concat(r2, a2, ',', seq!['\\', ',']);
        let r3 = replace(r2, seq![','], seq!['\\', ',']);
        let a3 = replace(a2, seq![','], seq!['\\', ',']);
        lemma_rep1_concat(r3, a3, ';', seq!['\\', ';']);
        let r4 = replace(r3, seq![';'], seq!['\\', ';']);
        if c == '\\' {
            assert(r1 == seq!['\\', '\\']);
            lemma_rep1_cons('\\', seq!['\\'], '\n', seq!['\\', 'n']);
            lemma_rep1_single('\\', '\n', seq!['\\', 'n']);
            assert(seq!['\\'] + seq!['\\'] =~= seq!['\\', '\\']);
            assert(r2 =~= seq!['\\', '\\']);
            lemma_rep1_cons('\\', seq!['\\'], ',', seq!['\\', ',']);
            lemma_rep1_single('\\', ',', seq!['\\', ',']);
            assert(r3 =~= seq!['\\', '\\']);
            lemma_rep1_cons('\\', seq!['\\'], ';', seq!['\\', ';']);
            lemma_rep1_single('\\', ';', seq!['\\', ';']);
            assert(r4 =~= seq!['\\', '\\']);
        } else {
            assert(r1 == seq![c]);
            lemma_rep1_single(c, '\n', seq!['\\', 'n']);
            if c == '\n' {
                assert(r2 == seq!['\\', 'n']);
                lemma_rep1_cons('\\', seq!['n'], ',', seq!['\\', ',']);
                lemma_rep1_single('n', ',', seq!['\\', ',']);
                assert(seq!['\\'] + seq!['n'] =~= seq!['\\', 'n']);
                assert(r3 =~= seq!['\\', 'n']);
                lemma_rep1_cons('\\', seq!['n'], ';', seq!['\\', ';']);
                lemma_rep1_single('n', ';', seq!['\\', ';']);
                assert(r4 =~= seq!['\\', 'n']);
            } else {
                assert(r2 == seq![c]);
                lemma_rep1_single(c, ',', seq!['\\', ',']);
                if c == ',' {
                    assert(r3 == seq!['\\', ',']);
                    lemma_rep1_cons('\\', seq![','], ';', seq!['\\', ';']);
                    lemma_rep1_single(',', ';', seq!['\\', ';']);
                    assert(seq!['\\'] + seq![','] =~= seq!['\\', ',']);
                    assert(r4 =~= seq!['\\', ',']);
                } else {
                    assert(r3 == seq![c]);
                    lemma_rep1_single(c, ';', seq!['\\', ';']);
                }
            }
        }
        assert(r4 == esc_tok(c));
    }
}

/// Unescaping reads each escaped character back as the character it stands for.
proof fn lemma_unescape_toks(s: Seq<char>)
    ensures
        unescape(esc_toks(s)) == s,
    decreases s.len(),
{
    if s.len() == 0 {
        assert(esc_toks(s) =~= Seq::<char>::empty());
    } else {
        let c = s[0];
        let t = s.drop_first();
        lemma_unescape_toks(t);
        let a = esc_tok(c);
        let b = esc_toks(t);
        let w = a + b;
        if c == '\\' || c == '\n' || c == ',' || c == ';' {
            assert(w[0] == '\\' && w[1] == a[1]);
            assert(w.skip(2) =~= b);
        } else {
            assert(w[0] == c);
            assert(w.skip(1) =~= b);
        }
        assert(s =~= seq![c] + t);
    }
}

/// Unescaping undoes escaping: any text comes back as it was written.
pub proof fn law_unescape_escape(s: Seq<char>)
    ensures
        unescape(escape(s)) == s,
{
    lemma_escape_toks(s);
    lemma_unescape_toks(s);
}

/// Lines written one after another, each ended by CRLF.
pub open spec fn crlf_text(ls: Seq<Seq<char>>) -> Seq<char>
    decreases ls.len(),
{
    if ls.len() == 0 {
        seq![]
    } else {
        ls[0] + seq!['\r', '\n'] + crlf_text(ls.drop_first())
    }
}

/// A text with no line feed.
pub open spec fn no_lf(l: Seq<char>) -> bool {
    forall|i: int| 0 <= i < l.len() ==> #[trigger] l[i] != '\n'
}

proof fn lemma_crlf_concat(a: Seq<Seq<char>>, b: Seq<Seq<char>>)
    ensures
        crlf_text(a + b) == crlf_text(a) + crlf_text(b),
    decreases a.len(),
{
    if a.len() == 0 {
        assert(a + b =~= b);
    } else {
        assert((a + b).drop_first() =~= a.drop_first() + b);
        assert((a + b)[0] == a[0]);
        lemma_crlf_concat(a.drop_first(), b);
        assert(a[0] + seq!['\r', '\n'] + (crlf_text(a.drop_first()) + crlf_text(b)) =~= (a[0] + seq![
            '\r',
            '\n',
        ] + crlf_text(a.drop_first())) + crlf_text(b));
    }
}

/// Reading the lines of CRLF-ended lines gives them back.
proof fn lemma_lines_crlf(ls: Seq<Seq<char>>)
    requires
        forall|i: int| 0 <= i < ls.len() ==> no_lf(#[trigger] ls[i]),
    ensures
        lines(crlf_text(ls)) == ls,
    decreases ls.len(),
{
    if ls.len() == 0 {
        assert(crlf_text(ls) =~= Seq::<char>::empty());
        assert(lines(Seq::<char>::empty()) =~= Seq::<Seq<char>>::empty());
    } else {
        let l = ls[0];
        let rest = crlf_text(ls.drop_first());
        let t = l + seq!['\r', '\n'] + rest;
        assert(no_lf(l));
        assert forall|j: int| 0 <= j < ls.drop_first().len() implies no_lf(#[trigger] ls.drop_first()[j]) by {
            assert(ls.drop_first()[j] == ls[j + 1]);
        }
        lemma_lines_crlf(ls.drop_first());
        lemma_find_char(t, '\n');
        let n = l.len() as int;
        assert(t[n + 1] == '\n');
        assert forall|j: int| 0 <= j < n + 1 implies t[j] != '\n' by {
            if j < l.len() {
                assert(t[j] == l[j]);
            } else {
                assert(t[j] == '\r');
            }
        }
        assert(find_char(t, '\n') == Some(n + 1));
        assert(t.take(n + 1) =~= l.push('\r'));
        assert(strip_cr(l.push('\r')) =~= l);
        assert(t.skip(n + 2) =~= rest);
        assert(lines(t) =~= seq![l] + lines(rest));
        assert(seq![l] + ls.drop_first() =~= ls);
    }
}

/// A line the reader takes as it is: no leading space or tab (which would
/// continue the previous line) and no trailing carriage return.
pub open spec fn plain_line(l: Seq<char>) -> bool {
    &&& no_lf(l)
    &&& (l.len() > 0 ==> l[0] != ' ' && l[0] != '\t' && l.last() != '\r')
}

proof fn lemma_unfold_plain(ls: Seq<Seq<char>>)
    requires
        forall|i: int| 0 <= i < ls.len() ==> plain_line(#[trigger] ls[i]),
    ensures
        unfold(ls) == ls,
    decreases ls.len(),
{
    if ls.len() > 0 {
        let t = ls.drop_last();
        assert forall|i: int| 0 <= i < t.len() implies plain_line(#[trigger] t[i]) by {
            assert(t[i] == ls[i]);
        }
        lemma_unfold_plain(t);
        let l = ls.last();
        assert(plain_line(ls[ls.len() - 1]));
        assert(trim_end_char(l, '\r') == l);
        assert(t.push(l) =~= ls);
    }
}

/// The scanner from state `st` over `ls`.
pub open spec fn run_from(st: ParseState, ls: Seq<Seq<char>>) -> ParseState
    decreases ls.len(),
{
    if ls.len() == 0 {
        st
    } else {
        step(run_from(st, ls.drop_last()), ls.last())
    }
}

proof fn lemma_run_from_start(ls: Seq<Seq<char>>)
    ensures
        run(ls) == run_from(ParseState { events: seq![], current: None, depth: 0 }, ls),
    decreases ls.len(),
{
    if ls.len() > 0 {
        lemma_run_from_start(ls.drop_last());
    }
}

proof fn lemma_run_from_concat(st: ParseState, a: Seq<Seq<char>>, b: Seq<Seq<char>>)
    ensures
        run_from(st, a + b) == run_from(run_from(st, a), b),
    decreases b.len(),
{
    if b.len() == 0 {
        assert(a + b =~= a);
    } else {
        assert((a + b).drop_last() =~= a + b.drop_last());
        assert((a + b).last() == b.last());
        lemma_run_from_concat(st, a, b.drop_last());
    }
}

/// A property's line: `key:value`.
pub open spec fn prop_line(p: Prop) -> Seq<char> {
    p.0 + seq![':'] + p.1
}

/// A key written and read back as it is: one line, no `:`, no surrounding
/// whitespace.
pub open spec fn key_ok(k: Seq<char>) -> bool {
    no_lf(k) && !k.contains(':') && trim(k) == k
}

/// A value written and read back as it is: one line, no trailing carriage
/// return.
pub open spec fn value_ok(v: Seq<char>) -> bool {
    no_lf(v) && (v.len() > 0 ==> v.last() != '\r')
}

pub open spec fn prop_ok(p: Prop) -> bool {
    key_ok(p.0) && value_ok(p.1)
}

pub(crate) proof fn lemma_trim_start_len(s: Seq<char>)
    ensures
        trim_start(s).len() <= s.len(),
        s.len() > 0 && is_ws(s[0]) ==> trim_start(s).len() < s.len(),
    decreases s.len(),
{
    if s.len() > 0 && is_ws(s[0]) {
        lemma_trim_start_len(s.drop_first());
    }
}

pub(crate) proof fn lemma_trim_end_len(s: Seq<char>)
    ensures
        trim_end(s).len() <= s.len(),
        s.len() > 0 && is_ws(s.last()) ==> trim_end(s).len() < s.len(),
    decreases s.len(),
{
    if s.len() > 0 && is_ws(s.last()) {
        lemma_trim_end_len(s.drop_last());
    }
}

/// A trimmed text neither starts nor ends with whitespace.
pub(crate) proof fn lemma_trimmed_ends(k: Seq<char>)
    requires
        trim(k) == k,
        k.len() > 0,
    ensures
        !is_ws(k[0]),
        !is_ws(k.last()),
{
    lemma_trim_start_len(k);
    lemma_trim_end_len(trim_start(k));
    if !is_ws(k[0]) {
        assert(trim_start(k) == k);
        lemma_trim_end_len(k);
    }
}

/// A property line is split back into its key and value.
proof fn lemma_split_prop_line(p: Prop)
    requires
        key_ok(p.0),
    ensures
        split_prop_spec(prop_line(p)) == Some(p),
{
    let (k, v) = p;
    let l = prop_line(p);
    let n = k.len() as int;
    lemma_find_char(l, ':');
    assert(l[n] == ':');
    assert forall|j: int| 0 <= j < n implies l[j] != ':' by {
        assert(l[j] == k[j]);
        if k[j] == ':' {
            assert(k.contains(':'));
        }
    }
    assert(find_char(l, ':') == Some(n));
    assert(l.take(n) =~= k);
    assert(l.skip(n + 1) =~= v);
}

/// A property line is a plain line.
proof fn lemma_prop_line_plain(p: Prop)
    requires
        prop_ok(p),
    ensures
        plain_line(prop_line(p)),
{
    let (k, v) = p;
    let l = prop_line(p);
    assert forall|i: int| 0 <= i < l.len() implies #[trigger] l[i] != '\n' by {
        if i < k.len() {
            assert(l[i] == k[i]);
        } else if i > k.len() {
            assert(l[i] == v[i - k.len() - 1]);
        }
    }
    if k.len() > 0 {
        lemma_trimmed_ends(k);
        assert(l[0] == k[0]);
    } else {
        assert(l[0] == ':');
    }
    if v.len() > 0 {
        assert(l.last() == v.last());
    } else {
        assert(l.last() == ':');
    }
}

/// A key of capital letters is its own property name and upper-case form.
pub(crate) proof fn lemma_capital_key(k: Seq<char>)
    requires
        k.len() > 0,
        forall|i: int| 0 <= i < k.len() ==> 'A' <= #[trigger] k[i] <= 'Z',
    ensures
        key_ok(k),
        prop_name(k) == k,
        upper(k) == k,
{
    lemma_find_char(k, ';');
    lemma_find_char(k, ':');
    assert(before_char(k, ';') == k);
    assert(!is_ws(k[0]) && !is_ws(k.last()));
    assert(trim_start(k) == k);
    assert(trim_end(k) == k);
    assert(upper(k) =~= k) by {
        assert forall|i: int| 0 <= i < k.len() implies upper(k)[i] == k[i] by {
            assert(upper_char(k[i]) == k[i]);
        }
    }
    if k.contains(':') {
        let j = choose|j: int| 0 <= j < k.len() && k[j] == ':';
        assert('A' <= k[j] <= 'Z');
    }
    assert forall|i: int| 0 <= i < k.len() implies #[trigger] k[i] != '\n' by {
        assert('A' <= k[i] <= 'Z');
    }
}

proof fn lemma_run_one(st: ParseState, l: Seq<char>)
    ensures
        run_from(st, seq![l]) == step(st, l),
{
    let one = seq![l];
    assert(one.drop_last() =~= Seq::<Seq<char>>::empty());
    assert(one.last() == l);
    assert(run_from(st, one.drop_last()) == st);
}

/// The depth of nested components after the scanner reads the lines of `x`
/// inside an event, from `depth`; `None` when a top-level `END:VEVENT`
/// among them would close the event early.
pub open spec fn replay(x: Seq<Prop>, depth: nat) -> Option<nat>
    decreases x.len(),
{
    if x.len() == 0 {
        Some(depth)
    } else if prop_line(x[0]) == "END:VEVENT"@ && depth == 0 {
        None
    } else {
        replay(x.drop_first(), depth_after(depth, upper(x[0].0)))
    }
}

pub open spec fn prop_lines(x: Seq<Prop>) -> Seq<Seq<char>> {
    x.map_values(|p: Prop| prop_line(p))
}

/// Inside an open event, the lines of `x` add `x` to its properties.
proof fn lemma_scan_props(events: Seq<EventView>, ps: Seq<Prop>, x: Seq<Prop>, d: nat)
    requires
        forall|i: int| 0 <= i < x.len() ==> prop_ok(#[trigger] x[i]),
        replay(x, d) is Some,
    ensures
        run_from(ParseState { events, current: Some(ps), depth: d }, prop_lines(x)) == (ParseState {
            events,
            current: Some(ps + x),
            depth: replay(x, d).unwrap(),
        }),
    decreases x.len(),
{
    let st = ParseState { events, current: Some(ps), depth: d };
    if x.len() == 0 {
        assert(prop_lines(x) =~= Seq::<Seq<char>>::empty());
        assert(ps + x =~= ps);
    } else {
        let p = x[0];
        let rest = x.drop_first();
        assert(prop_lines(x) =~= seq![prop_line(p)] + prop_lines(rest));
        lemma_run_from_concat(st, seq![prop_line(p)], prop_lines(rest));
        lemma_run_one(st, prop_line(p));
        assert(prop_ok(x[0]));
        lemma_split_prop_line(p);
        let d2 = depth_after(d, upper(p.0));
        assert(step(st, prop_line(p)) == ParseState { events, current: Some(ps.push(p)), depth: d2 });
        assert forall|i: int| 0 <= i < rest.len() implies prop_ok(#[trigger] rest[i]) by {
            assert(rest[i] == x[i + 1]);
        }
        lemma_scan_props(events, ps.push(p), rest, d2);
        assert(ps.push(p) + rest =~= ps + x);
    }
}

/// An original date line that still describes `value` and reads back as it
/// is.
pub open spec fn raw_line_ok(raw: Option<Prop>, name: Seq<char>, value: (int, int, int), all_day: bool) -> bool {
    match raw {
        Some(p) => {
            &&& prop_ok(p)
            &&& prop_name(p.0) == name
            &&& upper(p.0) != "BEGIN"@
            &&& upper(p.0) != "END"@
            &&& prop_line(p) != "END:VEVENT"@
            &&& parse_dt_spec(p.1) == Some(value)
            &&& (has_param(p.0, "VALUE=DATE"@) || is_date_only_spec(p.1)) == all_day
        },
        None => false,
    }
}

/// Text that stays on its line when written: it does not end in a carriage
/// return (which the reader strips as part of the line break).
pub open spec fn text_ok(s: Seq<char>) -> bool {
    s.len() > 0 ==> s.last() != '\r'
}

/// An event the calendar file gives back unchanged: its date lines kept and
/// still matching, its texts and kept lines staying on their lines, and its
/// kept lines exactly those the reader keeps.
pub open spec fn exportable(e: EventView) -> bool {
    &&& value_ok(e.uid)
    &&& raw_line_ok(e.start_raw, "DTSTART"@, e.start, e.all_day)
    &&& match e.end {
        Some(x) => raw_line_ok(e.end_raw, "DTEND"@, x, e.all_day),
        None => e.end_raw is None && (find_prop(e.extra, "DTEND"@) matches Some(l) ==> parse_dt_spec(
            l.1,
        ) is None),
    }
    &&& text_ok(e.summary)
    &&& text_ok(e.description)
    &&& (e.rrule matches Some(r) ==> value_ok(r))
    &&& forall|i: int| 0 <= i < e.extra.len() ==> prop_ok(#[trigger] e.extra[i])
    &&& extra_from(e.extra, 0, e.end is None) == e.extra
    &&& replay(e.extra, 0) == Some(0nat)
}

/// The property lines written for an event, in order.
pub open spec fn head_props(e: EventView) -> Seq<Prop> {
    seq![("UID"@, e.uid), e.start_raw.unwrap()] + (if e.end is Some {
        seq![e.end_raw.unwrap()]
    } else {
        seq![]
    }) + seq![("SUMMARY"@, escape(e.summary))] + (if e.description.len() > 0 {
        seq![("DESCRIPTION"@, escape(e.description))]
    } else {
        seq![]
    }) + (if e.rrule is Some {
        seq![("RRULE"@, e.rrule->0)]
    } else {
        seq![]
    })
}

pub open spec fn block_props(e: EventView) -> Seq<Prop> {
    head_props(e) + e.extra
}

pub(crate) proof fn lemma_capital_literals()
    ensures
        key_ok("UID"@) && prop_name("UID"@) == "UID"@ && upper("UID"@) == "UID"@,
        key_ok("SUMMARY"@) && prop_name("SUMMARY"@) == "SUMMARY"@ && upper("SUMMARY"@) == "SUMMARY"@,
        key_ok("DESCRIPTION"@) && prop_name("DESCRIPTION"@) == "DESCRIPTION"@ && upper("DESCRIPTION"@)
            == "DESCRIPTION"@,
        key_ok("RRULE"@) && prop_name("RRULE"@) == "RRULE"@ && upper("RRULE"@) == "RRULE"@,
        "UID"@ != "BEGIN"@ && "UID"@ != "END"@ && "UID"@ != "DTSTART"@ && "UID"@ != "DTEND"@,
        "SUMMARY"@ != "BEGIN"@ && "SUMMARY"@ != "END"@ && "SUMMARY"@ != "DTSTART"@ && "SUMMARY"@ != "DTEND"@
            && "SUMMARY"@ != "UID"@,
        "DESCRIPTION"@ != "BEGIN"@ && "DESCRIPTION"@ != "END"@ && "DESCRIPTION"@ != "DTSTART"@
            && "DESCRIPTION"@ != "DTEND"@ && "DESCRIPTION"@ != "UID"@ && "DESCRIPTION"@ != "SUMMARY"@,
        "RRULE"@ != "BEGIN"@ && "RRULE"@ != "END"@ && "RRULE"@ != "DTSTART"@ && "RRULE"@ != "DTEND"@
            && "RRULE"@ != "UID"@ && "RRULE"@ != "SUMMARY"@ && "RRULE"@ != "DESCRIPTION"@,
        "DTSTART"@ != "BEGIN"@ && "DTSTART"@ != "END"@ && "DTSTART"@ != "DTEND"@ && "DTEND"@ != "BEGIN"@
            && "DTEND"@ != "END"@,
        known("UID"@) && known("SUMMARY"@) && known("DESCRIPTION"@) && known("RRULE"@) && known("DTSTART"@)
            && known("DTEND"@),
{
    reveal_strlit("UID");
    reveal_strlit("SUMMARY");
    reveal_strlit("DESCRIPTION");
    reveal_strlit("RRULE");
    reveal_strlit("BEGIN");
    reveal_strlit("END");
    reveal_strlit("DTSTART");
    reveal_strlit("DTEND");
    lemma_capital_key("UID"@);
    lemma_capital_key("SUMMARY"@);
    lemma_capital_key("DESCRIPTION"@);
    lemma_capital_key("RRULE"@);
    assert("UID"@[0] != "BEGIN"@[0] && "UID"@[0] != "END"@[0] && "UID"@[0] != "DTSTART"@[0] && "UID"@[0]
        != "DTEND"@[0]);
    assert("SUMMARY"@[0] != "BEGIN"@[0] && "SUMMARY"@[0] != "END"@[0] && "SUMMARY"@[0] != "DTSTART"@[0]
        && "SUMMARY"@[0] != "DTEND"@[0] && "SUMMARY"@[0] != "UID"@[0]);
    assert("DESCRIPTION"@[0] != "BEGIN"@[0] && "DESCRIPTION"@[0] != "END"@[0] && "DESCRIPTION"@[1]
        != "DTSTART"@[1] && "DESCRIPTION"@[1] != "DTEND"@[1] && "DESCRIPTION"@[0] != "UID"@[0]
        && "DESCRIPTION"@[0] != "SUMMARY"@[0]);
    assert("RRULE"@[0] != "BEGIN"@[0] && "RRULE"@[0] != "END"@[0] && "RRULE"@[0] != "DTSTART"@[0]
        && "RRULE"@[0] != "DTEND"@[0] && "RRULE"@[0] != "UID"@[0] && "RRULE"@[0] != "SUMMARY"@[0]
        && "RRULE"@[0] != "DESCRIPTION"@[0]);
    assert("DTSTART"@[0] != "BEGIN"@[0] && "DTSTART"@[0] != "END"@[0] && "DTSTART"@.len() != "DTEND"@.len()
        && "DTEND"@[0] != "BEGIN"@[0] && "DTEND"@[0] != "END"@[0]);
}

proof fn lemma_find_skip(p: Prop, rest: Seq<Prop>, name: Seq<char>)
    requires
        prop_name(p.0) != "BEGIN"@,
        prop_name(p.0) != "END"@,
        prop_name(p.0) != name,
    ensures
        find_prop_from(seq![p] + rest, name, 0) == find_prop_from(rest, name, 0),
{
    let x = seq![p] + rest;
    assert(x[0] == p);
    assert(x.drop_first() =~= rest);
}

proof fn lemma_find_hit(p: Prop, rest: Seq<Prop>, name: Seq<char>)
    requires
        prop_name(p.0) == name,
        name != "BEGIN"@,
        name != "END"@,
    ensures
        find_prop_from(seq![p] + rest, name, 0) == Some(p),
{
    let x = seq![p] + rest;
    assert(x[0] == p);
}

proof fn lemma_extra_skip(p: Prop, rest: Seq<Prop>, end_none: bool)
    requires
        known(prop_name(p.0)),
        !(prop_name(p.0) == "DTEND"@ && end_none),
    ensures
        extra_from(seq![p] + rest, 0, end_none) == extra_from(rest, 0, end_none),
{
    let x = seq![p] + rest;
    assert(x[0] == p);
    assert(x.drop_first() =~= rest);
    lemma_capital_literals();
    reveal_strlit("BEGIN");
    reveal_strlit("END");
    reveal_strlit("UID");
    reveal_strlit("SUMMARY");
    reveal_strlit("DESCRIPTION");
    reveal_strlit("RRULE");
    reveal_strlit("DTSTART");
    reveal_strlit("DTEND");
    assert(prop_name(p.0) != "BEGIN"@ && prop_name(p.0) != "END"@);
}

proof fn lemma_extra_len(x: Seq<Prop>, d: nat, en: bool)
    ensures
        extra_from(x, d, en).len() <= x.len(),
    decreases x.len(),
{
    if x.len() > 0 {
        lemma_extra_len(x.drop_first(), depth_after(d, prop_name(x[0].0)), en);
    }
}

/// When the reader keeps every line of `x`, `x` holds no top-level line it
/// interprets (but an unparsed `DTEND`).
proof fn lemma_kept_has_no_known(x: Seq<Prop>, d: nat, en: bool, name: Seq<char>)
    requires
        extra_from(x, d, en) == x,
        known(name),
        !(name == "DTEND"@ && en),
    ensures
        find_prop_from(x, name, d) is None,
    decreases x.len(),
{
    if x.len() > 0 {
        let cur = prop_name(x[0].0);
        let d2 = depth_after(d, cur);
        let rest = x.drop_first();
        lemma_extra_len(rest, d2, en);
        let keep = d > 0 || (cur == "DTEND"@ && en) || !known(cur);
        if !keep {
            assert(extra_from(x, d, en) == extra_from(rest, d2, en));
            assert(false);
        }
        assert(extra_from(x, d, en) == seq![x[0]] + extra_from(rest, d2, en));
        assert(extra_from(rest, d2, en) =~= rest) by {
            assert(x =~= seq![x[0]] + rest);
            assert(seq![x[0]] + extra_from(rest, d2, en) =~= seq![x[0]] + rest);
            assert forall|i: int| 0 <= i < rest.len() implies extra_from(rest, d2, en)[i] == rest[i] by {
                assert((seq![x[0]] + extra_from(rest, d2, en))[i + 1] == (seq![x[0]] + rest)[i + 1]);
            }
        }
        lemma_kept_has_no_known(rest, d2, en, name);
        if cur == "BEGIN"@ || cur == "END"@ {
        } else if d == 0 && cur == name {
            assert(false);
        } else {
            assert(d2 == d);
        }
    }
}

/// Reading an exported event's property lines back builds the event.
proof fn lemma_build_block(e: EventView)
    requires
        exportable(e),
    ensures
        build_event_spec(block_props(e)) == Some(e),
{
    lemma_capital_literals();
    let en = e.end is None;
    let uid_p = ("UID"@, e.uid);
    let start_p = e.start_raw.unwrap();
    let end_part: Seq<Prop> = if e.end is Some {
        seq![e.end_raw.unwrap()]
    } else {
        seq![]
    };
    let sum_p = ("SUMMARY"@, escape(e.summary));
    let desc_part: Seq<Prop> = if e.description.len() > 0 {
        seq![("DESCRIPTION"@, escape(e.description))]
    } else {
        seq![]
    };
    let rrule_part: Seq<Prop> = if e.rrule is Some {
        seq![("RRULE"@, e.rrule->0)]
    } else {
        seq![]
    };
    let x = e.extra;
    let t5 = rrule_part + x;
    let t4 = desc_part + t5;
    let t3 = seq![sum_p] + t4;
    let t2 = end_part + t3;
    let t1 = seq![start_p] + t2;
    let b = seq![uid_p] + t1;
    assert(block_props(e) =~= b);
    assert(prop_name(start_p.0) == "DTSTART"@);

    // What the lines after the summary hold.
    if e.rrule is Some {
        assert(t5 =~= seq![("RRULE"@, e.rrule->0)] + x);
    } else {
        assert(t5 =~= x);
    }
    if e.description.len() > 0 {
        assert(t4 =~= seq![("DESCRIPTION"@, escape(e.description))] + t5);
    } else {
        assert(t4 =~= t5);
    }
    if e.end is Some {
        assert(t2 =~= seq![e.end_raw.unwrap()] + t3);
        assert(prop_name(e.end_raw.unwrap().0) == "DTEND"@);
    } else {
        assert(t2 =~= t3);
    }

    // DTSTART
    lemma_find_skip(uid_p, t1, "DTSTART"@);
    lemma_find_hit(start_p, t2, "DTSTART"@);
    // UID
    lemma_find_hit(uid_p, t1, "UID"@);
    // The rest, name by name.
    lemma_kept_has_no_known(x, 0, en, "RRULE"@);
    lemma_kept_has_no_known(x, 0, en, "DESCRIPTION"@);
    lemma_kept_has_no_known(x, 0, en, "SUMMARY"@);
    if e.rrule is Some {
        lemma_find_hit(("RRULE"@, e.rrule->0), x, "RRULE"@);
        lemma_find_skip(("RRULE"@, e.rrule->0), x, "DTEND"@);
        lemma_find_skip(("RRULE"@, e.rrule->0), x, "DESCRIPTION"@);
    }
    if e.description.len() > 0 {
        lemma_find_hit(("DESCRIPTION"@, escape(e.description)), t5, "DESCRIPTION"@);
        lemma_find_skip(("DESCRIPTION"@, escape(e.description)), t5, "RRULE"@);
        lemma_find_skip(("DESCRIPTION"@, escape(e.description)), t5, "DTEND"@);
    }
    lemma_find_hit(sum_p, t4, "SUMMARY"@);
    lemma_find_skip(sum_p, t4, "DESCRIPTION"@);
    lemma_find_skip(sum_p, t4, "RRULE"@);
    lemma_find_skip(sum_p, t4, "DTEND"@);
    if e.end is Some {
        let end_p = e.end_raw.unwrap();
        lemma_find_hit(end_p, t3, "DTEND"@);
        lemma_find_skip(end_p, t3, "SUMMARY"@);
        lemma_find_skip(end_p, t3, "DESCRIPTION"@);
        lemma_find_skip(end_p, t3, "RRULE"@);
    }
    lemma_find_skip(start_p, t2, "DTEND"@);
    lemma_find_skip(start_p, t2, "SUMMARY"@);
    lemma_find_skip(start_p, t2, "DESCRIPTION"@);
    lemma_find_skip(start_p, t2, "RRULE"@);
    lemma_find_skip(uid_p, t1, "DTEND"@);
    lemma_find_skip(uid_p, t1, "SUMMARY"@);
    lemma_find_skip(uid_p, t1, "DESCRIPTION"@);
    lemma_find_skip(uid_p, t1, "RRULE"@);

    // The kept lines.
    lemma_extra_skip(uid_p, t1, en);
    lemma_extra_skip(start_p, t2, en);
    if e.end is Some {
        lemma_extra_skip(e.end_raw.unwrap(), t3, en);
    }
    lemma_extra_skip(sum_p, t4, en);
    if e.description.len() > 0 {
        lemma_extra_skip(("DESCRIPTION"@, escape(e.description)), t5, en);
    }
    if e.rrule is Some {
        lemma_extra_skip(("RRULE"@, e.rrule->0), x, en);
    }

    // The texts.
    law_unescape_escape(e.summary);
    law_unescape_escape(e.description);

    let found_end = find_prop(b, "DTEND"@);
    let end = match found_end {
        Some(l) => parse_dt_spec(l.1),
        None => None,
    };
    assert(end == e.end);
    let built = build_event_spec(b);
    assert(built is Some);
    let r = built.unwrap();
    if e.description.len() == 0 {
        assert(unescape(Seq::<char>::empty()) =~= Seq::<char>::empty());
    }
    assert(r.uid == e.uid);
    assert(r.summary == e.summary);
    assert(r.description == e.description);
    assert(r.start == e.start);
    assert(r.end == e.end);
    assert(r.all_day == e.all_day);
    assert(r.rrule == e.rrule);
    assert(r.extra == e.extra);
    assert(r.start_raw == e.start_raw);
    assert(r.end_raw == e.end_raw);
    assert(r =~= e);
}

pub(crate) proof fn lemma_replay_concat(a: Seq<Prop>, b: Seq<Prop>, d: nat)
    ensures
        replay(a + b, d) == match replay(a, d) {
            Some(d2) => replay(b, d2),
            None => None,
        },
    decreases a.len(),
{
    if a.len() == 0 {
        assert(a + b =~= b);
    } else {
        assert((a + b)[0] == a[0]);
        assert((a + b).drop_first() =~= a.drop_first() + b);
        lemma_replay_concat(a.drop_first(), b, depth_after(d, upper(a[0].0)));
    }
}

proof fn lemma_escape_value_ok(s: Seq<char>)
    requires
        s.len() > 0 ==> s.last() != '\r',
    ensures
        value_ok(escape(s)),
{
    lemma_escape_toks(s);
    lemma_esc_toks_ok(s);
}

proof fn lemma_esc_toks_ok(s: Seq<char>)
    requires
        s.len() > 0 ==> s.last() != '\r',
    ensures
        value_ok(esc_toks(s)),
    decreases s.len(),
{
    if s.len() > 0 {
        let t = s.drop_first();
        if t.len() > 0 {
            assert(t.last() == s.last());
        }
        lemma_esc_toks_ok(t);
        let a = esc_tok(s[0]);
        let b = esc_toks(t);
        let r = a + b;
        assert forall|i: int| 0 <= i < r.len() implies #[trigger] r[i] != '\n' by {
            if i < a.len() {
                assert(r[i] == a[i]);
            } else {
                assert(r[i] == b[i - a.len()]);
            }
        }
        if b.len() > 0 {
            assert(r.last() == b.last());
        } else {
            lemma_esc_toks_first(t);
            assert(t.len() == 0);
            assert(r.last() == a.last());
        }
    }
}

/// The lines of one exported event block.
pub open spec fn block_lines(e: EventView) -> Seq<Seq<char>> {
    seq!["BEGIN:VEVENT"@] + prop_lines(block_props(e)) + seq!["END:VEVENT"@]
}

proof fn lemma_prop_lines_concat(a: Seq<Prop>, b: Seq<Prop>)
    ensures
        prop_lines(a + b) == prop_lines(a) + prop_lines(b),
{
    assert(prop_lines(a + b) =~= prop_lines(a) + prop_lines(b));
}

proof fn lemma_crlf_one(l: Seq<char>)
    ensures
        crlf_text(seq![l]) == l + seq!['\r', '\n'],
{
    let one = seq![l];
    assert(one.drop_first() =~= Seq::<Seq<char>>::empty());
    assert(crlf_text(one.drop_first()) =~= Seq::<char>::empty());
    assert(l + seq!['\r', '\n'] + Seq::<char>::empty() =~= l + seq!['\r', '\n']);
}

proof fn lemma_extra_text(x: Seq<Prop>)
    ensures
        extra_text(x) == crlf_text(prop_lines(x)),
    decreases x.len(),
{
    if x.len() == 0 {
        assert(prop_lines(x) =~= Seq::<Seq<char>>::empty());
    } else {
        let t = x.drop_last();
        lemma_extra_text(t);
        assert(x =~= t + seq![x.last()]);
        lemma_prop_lines_concat(t, seq![x.last()]);
        assert(prop_lines(seq![x.last()]) =~= seq![prop_line(x.last())]);
        lemma_crlf_concat(prop_lines(t), seq![prop_line(x.last())]);
        lemma_crlf_one(prop_line(x.last()));
        reveal_strlit("\r\n");
        assert(line_text(x.last().0, x.last().1) =~= prop_line(x.last()) + seq!['\r', '\n']);
    }
}

/// A kept date line is written as it was.
proof fn lemma_push_raw(name: Seq<char>, value: (int, int, int), raw: Option<Prop>, all_day: bool)
    requires
        raw_line_ok(raw, name, value, all_day),
    ensures
        push_dt_spec(name, value, raw, all_day) == prop_line(raw.unwrap()) + seq!['\r', '\n'],
{
    reveal_strlit("\r\n");
    let p = raw.unwrap();
    assert(line_text(p.0, p.1) =~= prop_line(p) + seq!['\r', '\n']);
}

/// An exported event's text is its block of lines.
proof fn lemma_event_text(e: EventView)
    requires
        exportable(e),
    ensures
        event_text(e) == crlf_text(block_lines(e)),
{
    reveal_strlit("\r\n");
    reveal_strlit("BEGIN:VEVENT\r\n");
    reveal_strlit("END:VEVENT\r\n");
    reveal_strlit("BEGIN:VEVENT");
    reveal_strlit("END:VEVENT");
    reveal_strlit("UID:");
    reveal_strlit("UID");
    reveal_strlit("SUMMARY:");
    reveal_strlit("SUMMARY");
    reveal_strlit("DESCRIPTION:");
    reveal_strlit("DESCRIPTION");
    reveal_strlit("RRULE:");
    reveal_strlit("RRULE");
    let crlf = seq!['\r', '\n'];
    let uid_p = ("UID"@, e.uid);
    let start_p = e.start_raw.unwrap();
    let end_part: Seq<Prop> = if e.end is Some {
        seq![e.end_raw.unwrap()]
    } else {
        seq![]
    };
    let sum_p = ("SUMMARY"@, escape(e.summary));
    let desc_part: Seq<Prop> = if e.description.len() > 0 {
        seq![("DESCRIPTION"@, escape(e.description))]
    } else {
        seq![]
    };
    let rrule_part: Seq<Prop> = if e.rrule is Some {
        seq![("RRULE"@, e.rrule->0)]
    } else {
        seq![]
    };
    assert(head_props(e) =~= seq![uid_p] + seq![start_p] + end_part + seq![sum_p] + desc_part + rrule_part);
    lemma_push_raw("DTSTART"@, e.start, e.start_raw, e.all_day);
    // Each part of the head as CRLF-ended lines.
    lemma_crlf_one("BEGIN:VEVENT"@);
    lemma_crlf_one("END:VEVENT"@);
    lemma_crlf_one(prop_line(uid_p));
    lemma_crlf_one(prop_line(start_p));
    lemma_crlf_one(prop_line(sum_p));
    assert("BEGIN:VEVENT\r\n"@ =~= "BEGIN:VEVENT"@ + crlf);
    assert("END:VEVENT\r\n"@ =~= "END:VEVENT"@ + crlf);
    assert("UID:"@ + e.uid + "\r\n"@ =~= prop_line(uid_p) + crlf);
    assert(summary_text(e) =~= prop_line(sum_p) + crlf);
    assert(prop_lines(seq![uid_p]) =~= seq![prop_line(uid_p)]);
    assert(prop_lines(seq![start_p]) =~= seq![prop_line(start_p)]);
    assert(prop_lines(seq![sum_p]) =~= seq![prop_line(sum_p)]);
    if e.end is Some {
        lemma_push_raw("DTEND"@, e.end->0, e.end_raw, e.all_day);
        lemma_crlf_one(prop_line(e.end_raw.unwrap()));
        assert(prop_lines(end_part) =~= seq![prop_line(e.end_raw.unwrap())]);
        assert(end_text(e) == crlf_text(prop_lines(end_part)));
    } else {
        assert(prop_lines(end_part) =~= Seq::<Seq<char>>::empty());
        assert(end_text(e) =~= crlf_text(prop_lines(end_part)));
    }
    if e.description.len() > 0 {
        let dp = ("DESCRIPTION"@, escape(e.description));
        lemma_crlf_one(prop_line(dp));
        assert(prop_lines(desc_part) =~= seq![prop_line(dp)]);
        assert(description_text(e) =~= crlf_text(prop_lines(desc_part)));
    } else {
        assert(prop_lines(desc_part) =~= Seq::<Seq<char>>::empty());
        assert(description_text(e) =~= crlf_text(prop_lines(desc_part)));
    }
    if e.rrule is Some {
        let rp = ("RRULE"@, e.rrule->0);
        lemma_crlf_one(prop_line(rp));
        assert(prop_lines(rrule_part) =~= seq![prop_line(rp)]);
        assert(rrule_text(e) =~= crlf_text(prop_lines(rrule_part)));
    } else {
        assert(prop_lines(rrule_part) =~= Seq::<Seq<char>>::empty());
        assert(rrule_text(e) =~= crlf_text(prop_lines(rrule_part)));
    }
    lemma_extra_text(e.extra);
    let l0 = seq!["BEGIN:VEVENT"@];
    let l1 = prop_lines(seq![uid_p]);
    let l2 = prop_lines(seq![start_p]);
    let l3 = prop_lines(end_part);
    let l4 = prop_lines(seq![sum_p]);
    let l5 = prop_lines(desc_part);
    let l6 = prop_lines(rrule_part);
    let l7 = prop_lines(e.extra);
    let l8 = seq!["END:VEVENT"@];
    lemma_prop_lines_concat(head_props(e), e.extra);
    lemma_prop_lines_concat(seq![uid_p] + seq![start_p] + end_part + seq![sum_p] + desc_part, rrule_part);
    lemma_prop_lines_concat(seq![uid_p] + seq![start_p] + end_part + seq![sum_p], desc_part);
    lemma_prop_lines_concat(seq![uid_p] + seq![start_p] + end_part, seq![sum_p]);
    lemma_prop_lines_concat(seq![uid_p] + seq![start_p], end_part);
    lemma_prop_lines_concat(seq![uid_p], seq![start_p]);
    assert(block_lines(e) =~= l0 + l1 + l2 + l3 + l4 + l5 + l6 + l7 + l8);
    lemma_crlf_concat(l0 + l1 + l2 + l3 + l4 + l5 + l6 + l7, l8);
    lemma_crlf_concat(l0 + l1 + l2 + l3 + l4 + l5 + l6, l7);
    lemma_crlf_concat(l0 + l1 + l2 + l3 + l4 + l5, l6);
    lemma_crlf_concat(l0 + l1 + l2 + l3 + l4, l5);
    lemma_crlf_concat(l0 + l1 + l2 + l3, l4);
    lemma_crlf_concat(l0 + l1 + l2, l3);
    lemma_crlf_concat(l0 + l1, l2);
    lemma_crlf_concat(l0, l1);
    assert(head_text(e) =~= crlf_text(l0) + crlf_text(l1) + crlf_text(l2));
    assert(event_text(e) =~= crlf_text(block_lines(e)));
}

proof fn lemma_replay_one(p: Prop, d: nat)
    requires
        !(prop_line(p) == "END:VEVENT"@ && d == 0),
    ensures
        replay(seq![p], d) == Some(depth_after(d, upper(p.0))),
{
    let one = seq![p];
    assert(one[0] == p);
    assert(one.drop_first().len() == 0);
    let d2 = depth_after(d, upper(p.0));
    assert(replay(one.drop_first(), d2) == Some(d2));
}

/// The head lines of an exported event are well-formed and change no depth.
proof fn lemma_head_ok(e: EventView)
    requires
        exportable(e),
    ensures
        forall|i: int| 0 <= i < head_props(e).len() ==> prop_ok(#[trigger] head_props(e)[i]),
        replay(head_props(e), 0) == Some(0nat),
{
    lemma_capital_literals();
    reveal_strlit("END:VEVENT");
    reveal_strlit("UID");
    reveal_strlit("SUMMARY");
    reveal_strlit("DESCRIPTION");
    reveal_strlit("RRULE");
    lemma_escape_value_ok(e.summary);
    lemma_escape_value_ok(e.description);
    let h = head_props(e);
    // Lines of the fixed keys start with a letter other than `E`.
    assert forall|k: Seq<char>, v: Seq<char>|
        k.len() > 0 && k[0] != 'E' implies #[trigger] prop_line((k, v)) != "END:VEVENT"@ by {
        assert(prop_line((k, v))[0] == k[0]);
        assert("END:VEVENT"@[0] == 'E');
    }
    assert forall|i: int| 0 <= i < h.len() implies prop_ok(#[trigger] h[i]) by {}
    let uid_p = ("UID"@, e.uid);
    let start_p = e.start_raw.unwrap();
    let sum_p = ("SUMMARY"@, escape(e.summary));
    let end_part: Seq<Prop> = if e.end is Some {
        seq![e.end_raw.unwrap()]
    } else {
        seq![]
    };
    let desc_part: Seq<Prop> = if e.description.len() > 0 {
        seq![("DESCRIPTION"@, escape(e.description))]
    } else {
        seq![]
    };
    let rrule_part: Seq<Prop> = if e.rrule is Some {
        seq![("RRULE"@, e.rrule->0)]
    } else {
        seq![]
    };
    assert(h =~= seq![uid_p] + (seq![start_p] + (end_part + (seq![sum_p] + (desc_part + rrule_part)))));
    assert(prop_line(uid_p) != "END:VEVENT"@);
    assert(prop_line(sum_p) != "END:VEVENT"@);
    lemma_replay_one(uid_p, 0);
    lemma_replay_one(start_p, 0);
    lemma_replay_one(sum_p, 0);
    assert(depth_after(0, upper(uid_p.0)) == 0);
    assert(depth_after(0, upper(start_p.0)) == 0);
    assert(depth_after(0, upper(sum_p.0)) == 0);
    if e.end is Some {
        let end_p = e.end_raw.unwrap();
        lemma_replay_one(end_p, 0);
        assert(depth_after(0, upper(end_p.0)) == 0);
        assert(replay(end_part, 0) == Some(0nat));
    } else {
        assert(replay(end_part, 0) == Some(0nat));
    }
    if e.description.len() > 0 {
        let dp = ("DESCRIPTION"@, escape(e.description));
        assert(prop_line(dp) != "END:VEVENT"@);
        lemma_replay_one(dp, 0);
        assert(depth_after(0, upper(dp.0)) == 0);
        assert(replay(desc_part, 0) == Some(0nat));
    } else {
        assert(replay(desc_part, 0) == Some(0nat));
    }
    if e.rrule is Some {
        let rp = ("RRULE"@, e.rrule->0);
        assert(prop_line(rp) != "END:VEVENT"@);
        lemma_replay_one(rp, 0);
        assert(depth_after(0, upper(rp.0)) == 0);
        assert(replay(rrule_part, 0) == Some(0nat));
    } else {
        assert(replay(rrule_part, 0) == Some(0nat));
    }
    lemma_replay_concat(desc_part, rrule_part, 0);
    lemma_replay_concat(seq![sum_p], desc_part + rrule_part, 0);
    lemma_replay_concat(end_part, seq![sum_p] + (desc_part + rrule_part), 0);
    lemma_replay_concat(seq![start_p], end_part + (seq![sum_p] + (desc_part + rrule_part)), 0);
    lemma_replay_concat(seq![uid_p], seq![start_p] + (end_part + (seq![sum_p] + (desc_part + rrule_part))), 0);
}

/// The scanner reads one exported event block into one event.
proof fn lemma_scan_block(events: Seq<EventView>, e: EventView)
    requires
        exportable(e),
    ensures
        run_from(ParseState { events, current: None, depth: 0 }, block_lines(e)) == (ParseState {
            events: events.push(e),
            current: None,
            depth: 0,
        }),
{
    reveal_strlit("BEGIN:VEVENT");
    reveal_strlit("END:VEVENT");
    let st0 = ParseState { events, current: None, depth: 0 };
    let props = block_props(e);
    lemma_head_ok(e);
    lemma_replay_concat(head_props(e), e.extra, 0);
    assert forall|i: int| 0 <= i < props.len() implies prop_ok(#[trigger] props[i]) by {
        if i < head_props(e).len() {
            assert(props[i] == head_props(e)[i]);
        } else {
            assert(props[i] == e.extra[i - head_props(e).len()]);
        }
    }
    let begin = seq!["BEGIN:VEVENT"@];
    let middle = prop_lines(props);
    let end = seq!["END:VEVENT"@];
    assert(block_lines(e) =~= begin + middle + end);
    lemma_run_from_concat(st0, begin + middle, end);
    lemma_run_from_concat(st0, begin, middle);
    lemma_run_one(st0, "BEGIN:VEVENT"@);
    let st1 = ParseState { events, current: Some(Seq::<Prop>::empty()), depth: 0 };
    assert(run_from(st0, begin) == st1);
    lemma_scan_props(events, Seq::<Prop>::empty(), props, 0);
    assert(Seq::<Prop>::empty() + props =~= props);
    let st2 = ParseState { events, current: Some(props), depth: 0 };
    assert(run_from(st1, middle) == st2);
    lemma_run_one(st2, "END:VEVENT"@);
    lemma_build_block(e);
}

/// The lines of exported events, block after block.
pub open spec fn blocks(es: Seq<EventView>) -> Seq<Seq<char>>
    decreases es.len(),
{
    if es.len() == 0 {
        seq![]
    } else {
        blocks(es.drop_last()) + block_lines(es.last())
    }
}

proof fn lemma_scan_blocks(events: Seq<EventView>, es: Seq<EventView>)
    requires
        forall|i: int| 0 <= i < es.len() ==> exportable(#[trigger] es[i]),
    ensures
        run_from(ParseState { events, current: None, depth: 0 }, blocks(es)) == (ParseState {
            events: events + es,
            current: None,
            depth: 0,
        }),
    decreases es.len(),
{
    if es.len() == 0 {
        assert(events + es =~= events);
    } else {
        let t = es.drop_last();
        assert forall|i: int| 0 <= i < t.len() implies exportable(#[trigger] t[i]) by {
            assert(t[i] == es[i]);
        }
        lemma_scan_blocks(events, t);
        lemma_run_from_concat(ParseState { events, current: None, depth: 0 }, blocks(t), block_lines(es.last()));
        assert(exportable(es[es.len() - 1]));
        lemma_scan_block(events + t, es.last());
        assert((events + t).push(es.last()) =~= events + es);
    }
}

proof fn lemma_events_text(es: Seq<EventView>)
    requires
        forall|i: int| 0 <= i < es.len() ==> exportable(#[trigger] es[i]),
    ensures
        events_text(es) == crlf_text(blocks(es)),
    decreases es.len(),
{
    if es.len() == 0 {
        assert(crlf_text(Seq::<Seq<char>>::empty()) =~= Seq::<char>::empty());
    } else {
        let t = es.drop_last();
        assert forall|i: int| 0 <= i < t.len() implies exportable(#[trigger] t[i]) by {
            assert(t[i] == es[i]);
        }
        lemma_events_text(t);
        assert(exportable(es[es.len() - 1]));
        lemma_event_text(es.last());
        lemma_crlf_concat(blocks(t), block_lines(es.last()));
    }
}

/// Every line of the exported blocks is plain.
proof fn lemma_blocks_plain(es: Seq<EventView>)
    requires
        forall|i: int| 0 <= i < es.len() ==> exportable(#[trigger] es[i]),
    ensures
        forall|i: int| 0 <= i < blocks(es).len() ==> plain_line(#[trigger] blocks(es)[i]),
    decreases es.len(),
{
    reveal_strlit("BEGIN:VEVENT");
    reveal_strlit("END:VEVENT");
    if es.len() > 0 {
        let t = es.drop_last();
        assert forall|i: int| 0 <= i < t.len() implies exportable(#[trigger] t[i]) by {
            assert(t[i] == es[i]);
        }
        lemma_blocks_plain(t);
        let e = es.last();
        assert(exportable(es[es.len() - 1]));
        lemma_head_ok(e);
        let props = block_props(e);
        let bl = block_lines(e);
        assert forall|i: int| 0 <= i < bl.len() implies plain_line(#[trigger] bl[i]) by {
            if i == 0 {
                assert(bl[0] == "BEGIN:VEVENT"@);
            } else if i == bl.len() - 1 {
                assert(bl[i] == "END:VEVENT"@);
            } else {
                assert(bl[i] == prop_line(props[i - 1]));
                if i - 1 < head_props(e).len() {
                    assert(props[i - 1] == head_props(e)[i - 1]);
                } else {
                    assert(props[i - 1] == e.extra[i - 1 - head_props(e).len()]);
                }
                lemma_prop_line_plain(props[i - 1]);
            }
        }
        let all = blocks(es);
        assert(all == blocks(t) + bl);
        assert forall|i: int| 0 <= i < all.len() implies plain_line(#[trigger] all[i]) by {
            if i < blocks(t).len() {
                assert(all[i] == blocks(t)[i]);
            } else {
                assert(all[i] == bl[i - blocks(t).len()]);
            }
        }
    }
}

/// The calendar file's header and footer lines.
pub open spec fn header_lines() -> Seq<Seq<char>> {
    seq!["BEGIN:VCALENDAR"@, "VERSION:2.0"@, "PRODID:-//optionCalendar//optionCalendar//EN"@]
}

pub open spec fn footer_lines() -> Seq<Seq<char>> {
    seq!["END:VCALENDAR"@]
}

proof fn lemma_frame()
    ensures
        crlf_text(header_lines()) == "BEGIN:VCALENDAR\r\nVERSION:2.0\r\nPRODID:-//optionCalendar//optionCalendar//EN\r\n"@,
        crlf_text(footer_lines()) == "END:VCALENDAR\r\n"@,
        forall|i: int| 0 <= i < header_lines().len() ==> plain_line(#[trigger] header_lines()[i]),
        forall|i: int| 0 <= i < footer_lines().len() ==> plain_line(#[trigger] footer_lines()[i]),
        forall|st: ParseState| st.current is None ==> run_from(st, header_lines()) == st && run_from(st, footer_lines()) == st,
{
    reveal_strlit("BEGIN:VCALENDAR");
    reveal_strlit("VERSION:2.0");
    reveal_strlit("PRODID:-//optionCalendar//optionCalendar//EN");
    reveal_strlit("END:VCALENDAR");
    reveal_strlit("BEGIN:VCALENDAR\r\nVERSION:2.0\r\nPRODID:-//optionCalendar//optionCalendar//EN\r\n");
    reveal_strlit("END:VCALENDAR\r\n");
    reveal_strlit("BEGIN:VEVENT");
    reveal_strlit("END:VEVENT");
    let h = header_lines();
    let f = footer_lines();
    let crlf = seq!['\r', '\n'];
    assert(h.drop_first() =~= seq!["VERSION:2.0"@, "PRODID:-//optionCalendar//optionCalendar//EN"@]);
    assert(h.drop_first().drop_first() =~= seq!["PRODID:-//optionCalendar//optionCalendar//EN"@]);
    lemma_crlf_one("PRODID:-//optionCalendar//optionCalendar//EN"@);
    lemma_crlf_one("END:VCALENDAR"@);
    assert(h[0] == "BEGIN:VCALENDAR"@);
    assert(h.drop_first()[0] == "VERSION:2.0"@);
    assert(crlf_text(h.drop_first()) == "VERSION:2.0"@ + crlf + crlf_text(h.drop_first().drop_first()));
    assert(crlf_text(h) == "BEGIN:VCALENDAR"@ + crlf + crlf_text(h.drop_first()));
    assert(crlf_text(h) =~= "BEGIN:VCALENDAR"@ + crlf + ("VERSION:2.0"@ + crlf + (
    "PRODID:-//optionCalendar//optionCalendar//EN"@ + crlf)));
    assert(crlf_text(h) =~= "BEGIN:VCALENDAR\r\nVERSION:2.0\r\nPRODID:-//optionCalendar//optionCalendar//EN\r\n"@);
    assert(crlf_text(f) =~= "END:VCALENDAR\r\n"@);
    assert forall|i: int| 0 <= i < h.len() implies plain_line(#[trigger] h[i]) by {
        let l = h[i];
        assert forall|j: int| 0 <= j < l.len() implies #[trigger] l[j] != '\n' by {}
    }
    assert forall|i: int| 0 <= i < f.len() implies plain_line(#[trigger] f[i]) by {
        let l = f[i];
        assert forall|j: int| 0 <= j < l.len() implies #[trigger] l[j] != '\n' by {}
    }
    assert forall|st: ParseState| st.current is None implies run_from(st, h) == st && run_from(st, f) == st by {
        assert("BEGIN:VCALENDAR"@ != "BEGIN:VEVENT"@ && "BEGIN:VCALENDAR"@ != "END:VEVENT"@);
        assert("VERSION:2.0"@ != "BEGIN:VEVENT"@ && "VERSION:2.0"@ != "END:VEVENT"@);
        assert("PRODID:-//optionCalendar//optionCalendar//EN"@ != "BEGIN:VEVENT"@);
        assert("PRODID:-//optionCalendar//optionCalendar//EN"@ != "END:VEVENT"@);
        assert("END:VCALENDAR"@ != "BEGIN:VEVENT"@ && "END:VCALENDAR"@ != "END:VEVENT"@);
        let h1 = seq!["BEGIN:VCALENDAR"@];
        let h2 = seq!["BEGIN:VCALENDAR"@, "VERSION:2.0"@];
        assert(h.drop_last() =~= h2);
        assert(h2.drop_last() =~= h1);
        lemma_run_one(st, "BEGIN:VCALENDAR"@);
        assert(run_from(st, h1) == st);
        assert(run_from(st, h2) == step(run_from(st, h1), "VERSION:2.0"@));
        assert(run_from(st, h2) == st);
        assert(run_from(st, h) == step(run_from(st, h2), "PRODID:-//optionCalendar//optionCalendar//EN"@));
        lemma_run_one(st, "END:VCALENDAR"@);
    }
}

/// Exporting events and importing the file gives the same events back, for
/// events whose date lines are kept and still match and whose texts stay on
/// their lines (see [`exportable`]; [`law_save_reload`] covers events whose
/// dates the writer stamps anew).
pub proof fn law_export_import_roundtrip(es: Seq<EventView>)
    requires
        forall|i: int| 0 <= i < es.len() ==> exportable(#[trigger] es[i]),
    ensures
        parse_ics_spec(to_ics_spec(es)) == es,
{
    lemma_frame();
    lemma_events_text(es);
    let all = header_lines() + blocks(es) + footer_lines();
    lemma_crlf_concat(header_lines() + blocks(es), footer_lines());
    lemma_crlf_concat(header_lines(), blocks(es));
    assert(to_ics_spec(es) == crlf_text(all));
    lemma_blocks_plain(es);
    assert forall|i: int| 0 <= i < all.len() implies plain_line(#[trigger] all[i]) by {
        let hl = header_lines().len() as int;
        let bl = blocks(es).len() as int;
        if i < hl {
            assert(all[i] == header_lines()[i]);
        } else if i < hl + bl {
            assert(all[i] == blocks(es)[i - hl]);
        } else {
            assert(all[i] == footer_lines()[i - hl - bl]);
        }
    }
    assert forall|i: int| 0 <= i < all.len() implies no_lf(#[trigger] all[i]) by {
        assert(plain_line(all[i]));
    }
    lemma_lines_crlf(all);
    lemma_unfold_plain(all);
    let init = ParseState { events: seq![], current: None, depth: 0 };
    lemma_run_from_start(all);
    lemma_run_from_concat(init, header_lines() + blocks(es), footer_lines());
    lemma_run_from_concat(init, header_lines(), blocks(es));
    lemma_scan_blocks(Seq::<EventView>::empty(), es);
    assert(Seq::<EventView>::empty() + es =~= es);
    let after = ParseState { events: es, current: None, depth: 0 };
    assert(run_from(after, footer_lines()) == after);
}


/// The key of an all-day date line, `NAME;VALUE=DATE`: a plain key whose
/// property name is `name` and which carries the `VALUE=DATE` parameter.
proof fn lemma_date_key(name: Seq<char>)
    requires
        name.len() > 0,
        forall|i: int| 0 <= i < name.len() ==> 'A' <= #[trigger] name[i] <= 'Z',
    ensures
        key_ok(name + ";VALUE=DATE"@),
        prop_name(name + ";VALUE=DATE"@) == name,
        has_param(name + ";VALUE=DATE"@, "VALUE=DATE"@),
        upper(name + ";VALUE=DATE"@).len() > 5,
        (name + ";VALUE=DATE"@)[0] == name[0],
{
    reveal_strlit(";VALUE=DATE");
    reveal_strlit("VALUE=DATE");
    let p = "VALUE=DATE"@;
    let tail = ";VALUE=DATE"@;
    let k = name + tail;
    let n = name.len() as int;
    lemma_capital_key(name);
    assert(tail =~= seq![';'] + p);
    assert forall|i: int| 0 <= i < p.len() implies #[trigger] p[i] != ';' && p[i] != ':' && p[i] != '\n' by {
        assert('A' <= p[i] <= 'Z' || p[i] == '=');
    }
    assert forall|i: int| 0 <= i < k.len() implies #[trigger] k[i] != ':' && k[i] != '\n' by {
        if i < n {
            assert(k[i] == name[i]);
        } else if i > n {
            assert(k[i] == p[i - n - 1]);
        }
    }
    if k.contains(':') {
        let j = choose|j: int| 0 <= j < k.len() && k[j] == ':';
        assert(k[j] != ':');
    }
    assert(k.last() == 'E');
    assert(!is_ws(k[0]) && !is_ws(k.last()));
    assert(trim_start(k) == k);
    assert(trim_end(k) == k);
    // The first `;` ends the name.
    lemma_find_char(k, ';');
    assert(k[n] == ';');
    match find_char(k, ';') {
        Some(i) => {
            if i < n {
                assert(k[i] == name[i]);
            }
            if i > n {
                assert(k[n] != ';');
            }
        },
        None => {
            assert(k[n] != ';');
        },
    }
    assert(find_char(k, ';') == Some(n));
    assert(k.take(n) =~= name);
    assert(before_char(k, ';') == name);
    assert(prop_name(k) == name);
    // The pieces after the name.
    lemma_find_char(p, ';');
    if find_char(p, ';') is Some {
        let j = find_char(p, ';')->0;
        assert(p[j] != ';');
    }
    assert(k.skip(n + 1) =~= p);
    assert(split_char(p, ';') == seq![p]);
    assert(split_char(k, ';') == seq![name] + seq![p]);
    let pieces = split_char(k, ';');
    assert(pieces[1] == p);
    assert(!is_ws(p[0]) && !is_ws(p.last()));
    assert(trim_start(p) == p);
    assert(trim_end(p) == p);
    assert(eq_ignore_case(trim(pieces[1]), p));
    assert(upper(k).len() == k.len());
}

/// A key with no `;` has no parameters.
proof fn lemma_no_params(k: Seq<char>, param: Seq<char>)
    requires
        forall|i: int| 0 <= i < k.len() ==> 'A' <= #[trigger] k[i] <= 'Z',
    ensures
        !has_param(k, param),
{
    lemma_find_char(k, ';');
    if find_char(k, ';') is Some {
        let j = find_char(k, ';')->0;
        assert('A' <= k[j] <= 'Z');
    }
    assert(split_char(k, ';') == seq![k]);
}


/// The date line the writer produces for a date with no kept line:
/// `NAME;VALUE=DATE:YYYYMMDD` when all-day, else `NAME:YYYYMMDDTHHMMSS`.
pub open spec fn stamp_line(name: Seq<char>, value: (int, int, int), all_day: bool) -> Prop {
    if all_day {
        (name + ";VALUE=DATE"@, spec_format_datetime(value, "%Y%m%d"@))
    } else {
        (name, spec_format_datetime(value, "%Y%m%dT%H%M%S"@))
    }
}

/// The date line a saved file holds for `value`: the kept line when it
/// still matches, else the freshly stamped one.
pub open spec fn written_raw(raw: Option<Prop>, name: Seq<char>, value: (int, int, int), all_day: bool) -> Option<
    Prop,
> {
    if line_matches(raw, value, all_day) {
        raw
    } else {
        Some(stamp_line(name, value, all_day))
    }
}

/// An event as a saved file reads it back: every field as it was, each
/// date line as the writer wrote it.
pub open spec fn as_saved(e: EventView) -> EventView {
    EventView {
        start_raw: written_raw(e.start_raw, "DTSTART"@, e.start, e.all_day),
        end_raw: match e.end {
            Some(x) => written_raw(e.end_raw, "DTEND"@, x, e.all_day),
            None => None,
        },
        ..e
    }
}

/// A date that survives saving: a kept line that matches and reads back
/// as it is, or a value that the writer's stamp holds and reads back from.
pub open spec fn date_ok(raw: Option<Prop>, name: Seq<char>, value: (int, int, int), all_day: bool) -> bool {
    if line_matches(raw, value, all_day) {
        raw_line_ok(raw, name, value, all_day)
    } else {
        stampable(value, all_day) && stamp_reads_back(value, all_day)
    }
}

/// An event that a save and reload give back as [`as_saved`]: its dates
/// survive saving (for a new event, its year is 0 to 9999 and its times
/// whole seconds; [`to_ics`](crate::ics::to_ics) shows the stamps read
/// back), its texts stay on their lines, and its kept lines are exactly
/// those the reader keeps.
pub open spec fn savable(e: EventView) -> bool {
    &&& value_ok(e.uid)
    &&& date_ok(e.start_raw, "DTSTART"@, e.start, e.all_day)
    &&& match e.end {
        Some(x) => date_ok(e.end_raw, "DTEND"@, x, e.all_day),
        None => find_prop(e.extra, "DTEND"@) matches Some(l) ==> parse_dt_spec(l.1) is None,
    }
    &&& text_ok(e.summary)
    &&& text_ok(e.description)
    &&& (e.rrule matches Some(r) ==> value_ok(r))
    &&& forall|i: int| 0 <= i < e.extra.len() ==> prop_ok(#[trigger] e.extra[i])
    &&& extra_from(e.extra, 0, e.end is None) == e.extra
    &&& replay(e.extra, 0) == Some(0nat)
}

/// A stamp's text is its own value when parsed: trimming and the `Z` strip
/// leave it as it is.
proof fn lemma_stamp_value(s: Seq<char>)
    requires
        s.len() > 0,
        '0' <= s[0] <= '9',
        '0' <= s.last() <= '9',
    ensures
        dt_value(s) == s,
{
    assert(!is_ws(s[0]) && !is_ws(s.last()));
    assert(trim_start(s) == s);
    assert(trim_end(s) == s);
    assert(strip_z(s) == s);
}

/// The freshly stamped date line is one the reader keeps as it is and that
/// the writer reuses unchanged.
proof fn lemma_stamp_line_ok(name: Seq<char>, value: (int, int, int), all_day: bool)
    requires
        name == "DTSTART"@ || name == "DTEND"@,
        stampable(value, all_day),
        stamp_reads_back(value, all_day),
    ensures
        raw_line_ok(Some(stamp_line(name, value, all_day)), name, value, all_day),
        line_matches(Some(stamp_line(name, value, all_day)), value, all_day),
{
    reveal_strlit("DTSTART");
    reveal_strlit("DTEND");
    reveal_strlit("BEGIN");
    reveal_strlit("END");
    reveal_strlit("END:VEVENT");
    lemma_capital_literals();
    assert(forall|i: int| 0 <= i < name.len() ==> 'A' <= #[trigger] name[i] <= 'Z');
    let p = stamp_line(name, value, all_day);
    let s = p.1;
    if all_day {
        lemma_date_key(name);
        assert(is_date_stamp(s));
        assert(s[0] == s[0] && '0' <= s[7] <= '9');
        lemma_stamp_value(s);
        assert(no_lf(s)) by {
            assert forall|i: int| 0 <= i < s.len() implies #[trigger] s[i] != '\n' by {
                assert('0' <= s[i] <= '9');
            }
        }
        assert(value_ok(s));
        assert(try_date(s, "%Y%m%d"@) == Some((value.0, 0int, 0int)));
        assert(parse_dt_spec(s) == Some(value));
        assert(!s.contains('T') && !s.contains(' ') && !s.contains(':')) by {
            if s.contains('T') {
                let j = choose|j: int| 0 <= j < s.len() && s[j] == 'T';
                assert('0' <= s[j] <= '9');
            }
            if s.contains(' ') {
                let j = choose|j: int| 0 <= j < s.len() && s[j] == ' ';
                assert('0' <= s[j] <= '9');
            }
            if s.contains(':') {
                let j = choose|j: int| 0 <= j < s.len() && s[j] == ':';
                assert('0' <= s[j] <= '9');
            }
        }
        assert(is_date_only_spec(s));
        assert(prop_line(p)[0] == name[0]);
        assert("END:VEVENT"@[0] == 'E');
        assert(upper(p.0) != "BEGIN"@ && upper(p.0) != "END"@);
    } else {
        lemma_capital_key(name);
        lemma_no_params(name, "VALUE=DATE"@);
        assert(is_stamp(s));
        assert('0' <= s[0] <= '9' && '0' <= s[14] <= '9');
        lemma_stamp_value(s);
        assert(no_lf(s)) by {
            assert forall|i: int| 0 <= i < s.len() implies #[trigger] s[i] != '\n' by {
                if i != 8 {
                    assert('0' <= s[i] <= '9');
                }
            }
        }
        assert(value_ok(s));
        assert(parse_dt_spec(s) == Some(value));
        assert(s.contains('T')) by {
            assert(s[8] == 'T');
        }
        assert(!is_date_only_spec(s));
        assert(prop_line(p)[0] == name[0]);
        assert("END:VEVENT"@[0] == 'E');
    }
}


/// A date that survives saving is written the same from the line a saved
/// file holds, and that line reads back as it is.
proof fn lemma_push_dt_saved(raw: Option<Prop>, name: Seq<char>, value: (int, int, int), all_day: bool)
    requires
        name == "DTSTART"@ || name == "DTEND"@,
        date_ok(raw, name, value, all_day),
    ensures
        push_dt_spec(name, value, written_raw(raw, name, value, all_day), all_day) == push_dt_spec(
            name,
            value,
            raw,
            all_day,
        ),
        raw_line_ok(written_raw(raw, name, value, all_day), name, value, all_day),
{
    if !line_matches(raw, value, all_day) {
        lemma_stamp_line_ok(name, value, all_day);
        reveal_strlit(";VALUE=DATE:");
        reveal_strlit(";VALUE=DATE");
        reveal_strlit(":");
        let st = stamp_line(name, value, all_day);
        if all_day {
            assert(name + ";VALUE=DATE:"@ + spec_format_datetime(value, "%Y%m%d"@) + "\r\n"@ =~= line_text(
                st.0,
                st.1,
            ));
        } else {
            assert(name + ":"@ + spec_format_datetime(value, "%Y%m%dT%H%M%S"@) + "\r\n"@ =~= line_text(
                st.0,
                st.1,
            ));
        }
    }
}

/// A savable event is written the same as its saved form, which the
/// exported-events law covers.
pub(crate) proof fn lemma_saved_event(e: EventView)
    requires
        savable(e),
    ensures
        event_text(as_saved(e)) == event_text(e),
        exportable(as_saved(e)),
{
    let s = as_saved(e);
    lemma_capital_literals();
    lemma_push_dt_saved(e.start_raw, "DTSTART"@, e.start, e.all_day);
    assert(head_text(s) == head_text(e));
    if let Some(x) = e.end {
        lemma_push_dt_saved(e.end_raw, "DTEND"@, x, e.all_day);
    }
    assert(end_text(s) == end_text(e));
    assert(summary_text(s) == summary_text(e));
    assert(description_text(s) == description_text(e));
    assert(rrule_text(s) == rrule_text(e));
}

proof fn lemma_saved_events_text(es: Seq<EventView>)
    requires
        forall|i: int| 0 <= i < es.len() ==> savable(#[trigger] es[i]),
    ensures
        events_text(es.map_values(|e: EventView| as_saved(e))) == events_text(es),
    decreases es.len(),
{
    if es.len() > 0 {
        let d = es.drop_last();
        let m = es.map_values(|e: EventView| as_saved(e));
        assert forall|i: int| 0 <= i < d.len() implies savable(#[trigger] d[i]) by {
            assert(d[i] == es[i]);
        }
        lemma_saved_events_text(d);
        assert(m.drop_last() =~= d.map_values(|e: EventView| as_saved(e)));
        assert(savable(es[es.len() - 1]));
        lemma_saved_event(es.last());
        assert(m.last() == as_saved(es.last()));
    }
}

/// Saving events and reading the file back gives every event with each
/// field as it was and each date line as written ([`as_saved`]); saving
/// that again writes the same file. This holds for events read from a file
/// and for new ones alike, whenever they are [`savable`]: a new event
/// qualifies when its texts stay on their lines, its years are 0 to 9999
/// and its times whole seconds (midnight when all-day), since
/// [`to_ics`](crate::ics::to_ics) shows its stamps read back.
pub proof fn law_save_reload(es: Seq<EventView>)
    requires
        forall|i: int| 0 <= i < es.len() ==> savable(#[trigger] es[i]),
    ensures
        parse_ics_spec(to_ics_spec(es)) == es.map_values(|e: EventView| as_saved(e)),
        to_ics_spec(es.map_values(|e: EventView| as_saved(e))) == to_ics_spec(es),
        forall|i: int|
            0 <= i < es.len() ==> {
                let r = #[trigger] parse_ics_spec(to_ics_spec(es))[i];
                &&& r.uid == es[i].uid
                &&& r.summary == es[i].summary
                &&& r.description == es[i].description
                &&& r.start == es[i].start
                &&& r.end == es[i].end
                &&& r.all_day == es[i].all_day
                &&& r.rrule == es[i].rrule
                &&& r.extra == es[i].extra
            },
{
    let m = es.map_values(|e: EventView| as_saved(e));
    assert forall|i: int| 0 <= i < m.len() implies exportable(#[trigger] m[i]) by {
        lemma_saved_event(es[i]);
    }
    law_export_import_roundtrip(m);
    lemma_saved_events_text(es);
}

} // verus!
