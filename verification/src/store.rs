//! The event store (one ICS document) and the user settings, as values.
//!
//! Reading and writing the files is the caller's part: a store is built from
//! the file's text with [`CalStore::from_text`] and written back with
//! [`CalStore::to_text`]; settings travel as TOML through the caller too.
use vstd::prelude::*;
use crate::date::DateTime;
use crate::ics::{Event, EventView, events_view, parse_ics, parse_ics_spec, to_ics, to_ics_spec};
use crate::sort::{SortKey, sorted, sort_by_key};
use crate::text::{chars_of, string_of, same_text};
use crate::week::WeekStart;

verus! {

/// Default reminder lookahead of `notify`, in minutes.
pub const DEFAULT_NOTIFY_WINDOW_MINUTES: u32 = 15;

/// User settings for optionCalendar.
#[derive(Debug, Clone, PartialEq, Eq)]
pub struct Settings {
    /// Absolute path to the ICS calendar file.
    pub ics_path: String,
    /// Launch the TUI when `oca` is invoked with no subcommand (opt-in).
    pub launch_tui_on_no_args: bool,
    /// First day of the week in the grids (Monday by default, ISO 8601).
    pub week_start: WeekStart,
    /// Reminder lookahead for `notify`, in minutes.
    pub notify_window_minutes: u32,
}

impl Settings {
    /// The default settings for a calendar file at `ics_path`: TUI launch
    /// off, Monday-first weeks, a 15-minute reminder window.
    pub fn with_path(ics_path: String) -> (r: Settings)
        ensures
            r.ics_path == ics_path,
            !r.launch_tui_on_no_args,
            r.week_start == WeekStart::Monday,
            r.notify_window_minutes == DEFAULT_NOTIFY_WINDOW_MINUTES,
    {
        Settings {
            ics_path,
            launch_tui_on_no_args: false,
            week_start: WeekStart::Monday,
            notify_window_minutes: DEFAULT_NOTIFY_WINDOW_MINUTES,
        }
    }
}

/// Events backed by a single ICS file.
#[derive(Debug, Clone)]
pub struct CalStore {
    pub path: String,
    pub events: Vec<Event>,
}

/// Some event of `es` has UID `uid`.
pub open spec fn has_uid(es: Seq<EventView>, uid: Seq<char>) -> bool {
    exists|i: int| 0 <= i < es.len() && #[trigger] es[i].uid == uid
}

/// The events of `es` whose UID is not `uid`, in order.
pub open spec fn without_uid(es: Seq<EventView>, uid: Seq<char>) -> Seq<EventView>
    decreases es.len(),
{
    if es.len() == 0 {
        seq![]
    } else {
        without_uid(es.drop_last(), uid) + if es.last().uid == uid {
            seq![]
        } else {
            seq![es.last()]
        }
    }
}

/// `incoming` merged into `es` one by one, skipping each event whose
/// non-empty UID is already present (earlier imports included); with the
/// number of events added.
pub open spec fn import_into(es: Seq<EventView>, incoming: Seq<EventView>) -> (Seq<EventView>, nat)
    decreases incoming.len(),
{
    if incoming.len() == 0 {
        (es, 0)
    } else {
        let (acc, n) = import_into(es, incoming.drop_last());
        let x = incoming.last();
        if x.uid.len() > 0 && has_uid(acc, x.uid) {
            (acc, n)
        } else {
            (acc.push(x), n + 1)
        }
    }
}

/// The index of the first event with UID `uid`.
pub open spec fn first_with_uid(es: Seq<EventView>, uid: Seq<char>) -> Option<int>
    decreases es.len(),
{
    if es.len() == 0 {
        None
    } else if es[0].uid == uid {
        Some(0)
    } else {
        match first_with_uid(es.drop_first(), uid) {
            Some(i) => Some(i + 1),
            None => None,
        }
    }
}

/// `o` moved up by `by`.
pub open spec fn shift_index(o: Option<int>, by: int) -> Option<int> {
    match o {
        Some(k) => Some(k + by),
        None => None,
    }
}

/// The changes `edit` makes to one event (the UID never changes).
#[derive(Debug, Clone, PartialEq, Eq)]
pub struct EventEdit {
    /// New summary.
    pub summary: Option<String>,
    /// New date-only flag (set when a new start was given).
    pub all_day: Option<bool>,
    /// The start the event gets.
    pub start: DateTime,
    /// The end the event gets.
    pub end: Option<DateTime>,
    /// Remove the description (wins over `description`).
    pub clear_description: bool,
    /// New description.
    pub description: Option<String>,
}

/// `e` with `edit` applied.
pub open spec fn apply_edit(e: EventView, edit: EventEdit) -> EventView {
    EventView {
        summary: match edit.summary {
            Some(s) => s@,
            None => e.summary,
        },
        all_day: match edit.all_day {
            Some(b) => b,
            None => e.all_day,
        },
        start: edit.start@,
        end: crate::ics::opt_dt(edit.end),
        description: if edit.clear_description {
            Seq::<char>::empty()
        } else {
            match edit.description {
                Some(d) => d@,
                None => e.description,
            }
        },
        uid: e.uid,
        rrule: e.rrule,
        extra: e.extra,
        start_raw: e.start_raw,
        end_raw: e.end_raw,
    }
}

/// UIDs compared character by character.
fn uid_is(event: &Event, uid: &Vec<char>) -> (r: bool)
    ensures
        r == (event@.uid == uid@),
{
    same_text(&chars_of(event.uid.as_str()), uid)
}

/// The first index with a UID is in range and has that UID.
pub proof fn lemma_first_with_uid(es: Seq<EventView>, uid: Seq<char>)
    ensures
        first_with_uid(es, uid) matches Some(i) ==> 0 <= i < es.len() && es[i].uid == uid,
    decreases es.len(),
{
    if es.len() > 0 {
        lemma_first_with_uid(es.drop_first(), uid);
    }
}

/// The index of the first event of `events` with UID `uid`.
pub fn position_of(events: &Vec<Event>, uid: &str) -> (r: Option<usize>)
    ensures
        match r {
            Some(i) => first_with_uid(events_view(events@), uid@) == Some(i as int),
            None => first_with_uid(events_view(events@), uid@) is None,
        },
{
    let target = chars_of(uid);
    let ghost ov = events_view(events@);
    let mut i: usize = 0;
    proof {
        assert(ov.skip(0) =~= ov);
    }
    while i < events.len()
        invariant
            i <= events.len(),
            ov == events_view(events@),
            target@ == uid@,
            first_with_uid(ov, uid@) == shift_index(first_with_uid(ov.skip(i as int), uid@), i as int),
        decreases events.len() - i,
    {
        proof {
            assert(ov.skip(i as int)[0] == events@[i as int]@);
            assert(ov.skip(i as int).drop_first() =~= ov.skip(i + 1));
        }
        if uid_is(&events[i], &target) {
            return Some(i);
        }
        i += 1;
    }
    proof {
        assert(ov.skip(i as int) =~= Seq::<EventView>::empty());
    }
    None
}

impl CalStore {
    /// A store with no events yet (the file does not exist).
    pub fn empty(path: String) -> (r: CalStore)
        ensures
            r.path == path,
            r.events@.len() == 0,
    {
        CalStore { path, events: Vec::new() }
    }

    /// A store holding the events of the ICS document `text`, in file order.
    pub fn from_text(path: String, text: &str) -> (r: CalStore)
        ensures
            r.path == path,
            events_view(r.events@) == parse_ics_spec(text@),
    {
        CalStore { path, events: parse_ics(text) }
    }

    /// The ICS document the store is saved as.
    pub fn to_text(&self) -> (r: String)
        ensures
            r@ == to_ics_spec(events_view(self.events@)),
    {
        to_ics(&self.events)
    }

    fn sort(&mut self)
        ensures
            final(self).path == old(self).path,
            final(self).events@ == sorted(old(self).events@),
    {
        let mut events: Vec<Event> = Vec::new();
        std::mem::swap(&mut events, &mut self.events);
        self.events = sort_by_key(events);
    }

    /// Insert an event; the events stay ordered by start, then summary.
    pub fn add(&mut self, event: Event)
        ensures
            final(self).path == old(self).path,
            final(self).events@ == sorted(old(self).events@.push(event)),
    {
        self.events.push(event);
        self.sort();
    }

    /// Remove every event with `uid`. Returns `true` when one was removed.
    pub fn remove(&mut self, uid: &str) -> (r: bool)
        ensures
            final(self).path == old(self).path,
            events_view(final(self).events@) == without_uid(events_view(old(self).events@), uid@),
            r == has_uid(events_view(old(self).events@), uid@),
    {
        let target = chars_of(uid);
        let ghost ov = events_view(self.events@);
        let mut events: Vec<Event> = Vec::new();
        std::mem::swap(&mut events, &mut self.events);
        let mut kept: Vec<Event> = Vec::new();
        let mut removed = false;
        let mut i: usize = 0;
        while i < events.len()
            invariant
                i <= events.len(),
                ov == events_view(events@),
                target@ == uid@,
                events_view(kept@) == without_uid(ov.take(i as int), uid@),
                removed == has_uid(ov.take(i as int), uid@),
            decreases events.len() - i,
        {
            proof {
                assert(ov.take(i + 1).drop_last() =~= ov.take(i as int));
                assert(ov.take(i + 1).last() == events@[i as int]@);
                if has_uid(ov.take(i as int), uid@) {
                    let j = choose|j: int| 0 <= j < i && #[trigger] ov.take(i as int)[j].uid == uid@;
                    assert(ov.take(i + 1)[j] == ov.take(i as int)[j]);
                }
                if has_uid(ov.take(i + 1), uid@) && events@[i as int]@.uid != uid@ {
                    let j = choose|j: int| 0 <= j < i + 1 && #[trigger] ov.take(i + 1)[j].uid == uid@;
                    assert(ov.take(i as int)[j] == ov.take(i + 1)[j]);
                }
                if events@[i as int]@.uid == uid@ {
                    assert(ov.take(i + 1)[i as int].uid == uid@);
                }
            }
            if uid_is(&events[i], &target) {
                removed = true;
            } else {
                let ghost before = kept@;
                let copy = events[i].duplicate();
                kept.push(copy);
                proof {
                    assert(events_view(kept@) =~= events_view(before).push(copy@));
                }
            }
            i += 1;
        }
        proof {
            assert(ov.take(events.len() as int) =~= ov);
        }
        self.events = kept;
        removed
    }

    /// Merge the events of the ICS document `text`, skipping events whose
    /// non-empty UID already exists, then order the store. Returns the number
    /// of newly added events.
    pub fn import(&mut self, text: &str) -> (r: usize)
        ensures
            final(self).path == old(self).path,
            events_view(final(self).events@) == sorted(
                import_into(events_view(old(self).events@), parse_ics_spec(text@)).0,
            ),
            r == import_into(events_view(old(self).events@), parse_ics_spec(text@)).1,
    {
        let incoming = parse_ics(text);
        let ghost iv = events_view(incoming@);
        let ghost start = self.events@;
        let mut added: usize = 0;
        let mut i: usize = 0;
        while i < incoming.len()
            invariant
                i <= incoming.len(),
                iv == events_view(incoming@),
                self.path == old(self).path,
                start == old(self).events@,
                events_view(self.events@) == import_into(events_view(start), iv.take(i as int)).0,
                added == import_into(events_view(start), iv.take(i as int)).1,
                added <= i,
            decreases incoming.len() - i,
        {
            proof {
                assert(iv.take(i + 1).drop_last() =~= iv.take(i as int));
                assert(iv.take(i + 1).last() == incoming@[i as int]@);
            }
            let event = &incoming[i];
            let mut present = false;
            let target = chars_of(event.uid.as_str());
            if target.len() > 0 {
                let ghost cur = events_view(self.events@);
                let mut j: usize = 0;
                while j < self.events.len()
                    invariant
                        j <= self.events.len(),
                        cur == events_view(self.events@),
                        target@ == event@.uid,
                        present == has_uid(cur.take(j as int), event@.uid),
                    decreases self.events.len() - j,
                {
                    proof {
                        if has_uid(cur.take(j as int), event@.uid) {
                            let k = choose|k: int|
                                0 <= k < j && #[trigger] cur.take(j as int)[k].uid == event@.uid;
                            assert(cur.take(j + 1)[k] == cur.take(j as int)[k]);
                        }
                        if has_uid(cur.take(j + 1), event@.uid) {
                            let k = choose|k: int|
                                0 <= k < j + 1 && #[trigger] cur.take(j + 1)[k].uid == event@.uid;
                            if k < j {
                                assert(cur.take(j as int)[k] == cur.take(j + 1)[k]);
                            }
                        }
                        assert(cur.take(j + 1)[j as int] == self.events@[j as int]@);
                    }
                    if uid_is(&self.events[j], &target) {
                        present = true;
                    }
                    j += 1;
                }
                proof {
                    assert(cur.take(self.events.len() as int) =~= cur);
                }
            }
            if !present {
                let ghost before = self.events@;
                let copy = event.duplicate();
                self.events.push(copy);
                added += 1;
                proof {
                    assert(events_view(self.events@) =~= events_view(before).push(copy@));
                }
            }
            i += 1;
        }
        proof {
            assert(iv.take(incoming.len() as int) =~= iv);
        }
        let ghost unsorted = self.events@;
        self.sort();
        proof {
            lemma_sorted_views(unsorted);
        }
        added
    }

    /// Apply `edit` to the first event with `uid`, then re-order the store.
    /// Returns `false` (and changes nothing) when no event has that UID.
    pub fn update(&mut self, uid: &str, edit: &EventEdit) -> (r: bool)
        ensures
            final(self).path == old(self).path,
            r == first_with_uid(events_view(old(self).events@), uid@) is Some,
            match first_with_uid(events_view(old(self).events@), uid@) {
                Some(i) => events_view(final(self).events@) == sorted(
                    events_view(old(self).events@).update(
                        i,
                        apply_edit(events_view(old(self).events@)[i], *edit),
                    ),
                ),
                None => final(self).events@ == old(self).events@,
            },
    {
        let target = chars_of(uid);
        let ghost ov = events_view(self.events@);
        let mut i: usize = 0;
        proof {
            assert(ov.skip(0) =~= ov);
        }
        while i < self.events.len()
            invariant
                i <= self.events.len(),
                ov == events_view(self.events@),
                target@ == uid@,
                first_with_uid(ov, uid@) == shift_index(first_with_uid(ov.skip(i as int), uid@), i as int),
            ensures
                i <= self.events.len(),
                first_with_uid(ov, uid@) == shift_index(first_with_uid(ov.skip(i as int), uid@), i as int),
                i < self.events.len() ==> self.events@[i as int]@.uid == uid@,
            decreases self.events.len() - i,
        {
            proof {
                assert(ov.skip(i as int)[0] == self.events@[i as int]@);
                assert(ov.skip(i as int).drop_first() =~= ov.skip(i + 1));
            }
            if uid_is(&self.events[i], &target) {
                break;
            }
            i += 1;
        }
        if i == self.events.len() {
            proof {
                assert(ov.skip(i as int) =~= Seq::<EventView>::empty());
            }
            return false;
        }
        proof {
            assert(ov.skip(i as int)[0] == self.events@[i as int]@);
            assert(first_with_uid(ov.skip(i as int), uid@) == Some(0int));
        }
        let ghost old_events = self.events@;
        let mut event = self.events[i].duplicate();
        if let Some(summary) = &edit.summary {
            event.summary = summary.clone();
        }
        if let Some(all_day) = edit.all_day {
            event.all_day = all_day;
        }
        event.start = edit.start;
        event.end = edit.end;
        if edit.clear_description {
            event.description = string_of(Vec::<char>::new().as_slice());
        } else if let Some(description) = &edit.description {
            event.description = description.clone();
        }
        proof {
            assert(event@ =~= apply_edit(old_events[i as int]@, *edit));
        }
        let ghost edited = event;
        self.events.set(i, event);
        proof {
            assert(events_view(self.events@) =~= events_view(old_events).update(
                i as int,
                apply_edit(events_view(old_events)[i as int], *edit),
            ));
        }
        let ghost unsorted = self.events@;
        self.sort();
        proof {
            lemma_sorted_views(unsorted);
        }
        true
    }
}

/// Sorting stored events and taking their views commute.
proof fn lemma_sorted_views(s: Seq<Event>)
    ensures
        events_view(sorted(s)) == sorted(events_view(s)),
{
    let f = |x: Event| x@;
    assert forall|a: Event, b: Event| #[trigger] a.precedes(&b) == f(a).precedes(&f(b)) by {}
    crate::sort::lemma_sorted_map(s, f);
    assert(events_view(s) == s.map_values(f));
}

/// After removing `uid` no event with that UID is left, and every other
/// event stays, in order.
pub proof fn law_remove_leaves_no_uid(es: Seq<EventView>, uid: Seq<char>)
    ensures
        !has_uid(without_uid(es, uid), uid),
        forall|i: int| 0 <= i < es.len() && es[i].uid != uid ==> without_uid(es, uid).contains(#[trigger] es[i]),
    decreases es.len(),
{
    if es.len() > 0 {
        let t = es.drop_last();
        law_remove_leaves_no_uid(t, uid);
        let r = without_uid(es, uid);
        let rt = without_uid(t, uid);
        if has_uid(r, uid) {
            let k = choose|k: int| 0 <= k < r.len() && #[trigger] r[k].uid == uid;
            if k < rt.len() {
                assert(r[k] == rt[k]);
            }
        }
        assert forall|i: int| 0 <= i < es.len() && es[i].uid != uid implies r.contains(#[trigger] es[i]) by {
            if i < t.len() {
                assert(t[i] == es[i]);
                let k = choose|k: int| 0 <= k < rt.len() && rt[k] == t[i];
                assert(r[k] == rt[k]);
            } else {
                assert(r[r.len() - 1] == es[i]);
            }
        }
    }
}

proof fn lemma_has_uid_push(es: Seq<EventView>, x: EventView, uid: Seq<char>)
    ensures
        has_uid(es, uid) ==> has_uid(es.push(x), uid),
        x.uid == uid ==> has_uid(es.push(x), uid),
{
    if has_uid(es, uid) {
        let k = choose|k: int| 0 <= k < es.len() && #[trigger] es[k].uid == uid;
        assert(es.push(x)[k] == es[k]);
    }
    if x.uid == uid {
        assert(es.push(x)[es.len() as int] == x);
    }
}

/// Importing only adds events: everything present before is still there.
proof fn lemma_import_keeps(es: Seq<EventView>, incoming: Seq<EventView>, uid: Seq<char>)
    ensures
        has_uid(es, uid) ==> has_uid(import_into(es, incoming).0, uid),
        import_into(es, incoming).1 <= incoming.len(),
    decreases incoming.len(),
{
    if incoming.len() > 0 {
        lemma_import_keeps(es, incoming.drop_last(), uid);
        let acc = import_into(es, incoming.drop_last()).0;
        lemma_has_uid_push(acc, incoming.last(), uid);
    }
}

/// After an import every incoming event's non-empty UID is in the store.
proof fn lemma_import_covers(es: Seq<EventView>, incoming: Seq<EventView>)
    ensures
        forall|i: int|
            0 <= i < incoming.len() && incoming[i].uid.len() > 0 ==> has_uid(
                import_into(es, incoming).0,
                (#[trigger] incoming[i]).uid,
            ),
    decreases incoming.len(),
{
    if incoming.len() > 0 {
        let t = incoming.drop_last();
        lemma_import_covers(es, t);
        let acc = import_into(es, t).0;
        let x = incoming.last();
        assert forall|i: int|
            0 <= i < incoming.len() && incoming[i].uid.len() > 0 implies has_uid(
            import_into(es, incoming).0,
            (#[trigger] incoming[i]).uid,
        ) by {
            lemma_has_uid_push(acc, x, incoming[i].uid);
            if i < t.len() {
                assert(t[i] == incoming[i]);
            }
        }
    }
}

/// The events of `incoming` that have no UID, in order.
pub open spec fn without_uids(incoming: Seq<EventView>) -> Seq<EventView>
    decreases incoming.len(),
{
    if incoming.len() == 0 {
        seq![]
    } else {
        without_uids(incoming.drop_last()) + if incoming.last().uid.len() == 0 {
            seq![incoming.last()]
        } else {
            seq![]
        }
    }
}

/// An import in which every non-empty incoming UID is already present adds
/// just the events without a UID, in order.
proof fn lemma_import_only_blank(es: Seq<EventView>, incoming: Seq<EventView>)
    requires
        forall|i: int| 0 <= i < incoming.len() && (#[trigger] incoming[i]).uid.len() > 0 ==> has_uid(es, incoming[i].uid),
    ensures
        import_into(es, incoming).0 == es + without_uids(incoming),
        import_into(es, incoming).1 == without_uids(incoming).len(),
    decreases incoming.len(),
{
    if incoming.len() == 0 {
        assert(es + Seq::<EventView>::empty() =~= es);
    } else {
        let t = incoming.drop_last();
        assert forall|i: int| 0 <= i < t.len() && (#[trigger] t[i]).uid.len() > 0 implies has_uid(es, t[i].uid) by {
            assert(t[i] == incoming[i]);
        }
        lemma_import_only_blank(es, t);
        let x = incoming.last();
        assert(x == incoming[incoming.len() - 1]);
        let acc = es + without_uids(t);
        if x.uid.len() > 0 {
            let k = choose|k: int| 0 <= k < es.len() && #[trigger] es[k].uid == x.uid;
            assert(acc[k] == es[k]);
            assert(has_uid(acc, x.uid));
            assert(without_uids(incoming) =~= without_uids(t));
        } else {
            assert(acc.push(x) =~= es + without_uids(incoming));
        }
    }
}

proof fn lemma_sorted_has_uid(es: Seq<EventView>, uid: Seq<char>)
    ensures
        has_uid(es, uid) ==> has_uid(sorted(es), uid),
{
    broadcast use vstd::seq_lib::to_multiset_contains;

    if has_uid(es, uid) {
        let k = choose|k: int| 0 <= k < es.len() && #[trigger] es[k].uid == uid;
        crate::sort::lemma_sorted_permutation(es);
        assert(es.contains(es[k]));
        assert(es.to_multiset().count(es[k]) > 0);
        assert(sorted(es).contains(es[k]));
        let j = choose|j: int| 0 <= j < sorted(es).len() && sorted(es)[j] == es[k];
        assert(sorted(es)[j].uid == uid);
    }
}

/// Importing the same events twice adds each event with a UID once: the
/// second import adds just the incoming events that have no UID (so nothing
/// when all have one), appended in order, and counts them.
pub proof fn law_import_twice(es: Seq<EventView>, incoming: Seq<EventView>)
    ensures
        import_into(sorted(import_into(es, incoming).0), incoming).0 == sorted(import_into(es, incoming).0)
            + without_uids(incoming),
        import_into(sorted(import_into(es, incoming).0), incoming).1 == without_uids(incoming).len(),
{
    let once = sorted(import_into(es, incoming).0);
    lemma_import_covers(es, incoming);
    assert forall|i: int| 0 <= i < incoming.len() && (#[trigger] incoming[i]).uid.len() > 0 implies has_uid(
        once,
        incoming[i].uid,
    ) by {
        lemma_sorted_has_uid(import_into(es, incoming).0, incoming[i].uid);
    }
    lemma_import_only_blank(once, incoming);
}

/// Editing never changes an event's UID, and re-ordering the store after an
/// edit keeps every event (the edited one included).
pub proof fn law_edit_keeps_uid(es: Seq<EventView>, i: int, edit: EventEdit)
    requires
        0 <= i < es.len(),
    ensures
        apply_edit(es[i], edit).uid == es[i].uid,
        sorted(es.update(i, apply_edit(es[i], edit))).to_multiset() == es.update(
            i,
            apply_edit(es[i], edit),
        ).to_multiset(),
        has_uid(sorted(es.update(i, apply_edit(es[i], edit))), es[i].uid),
{
    let u = es.update(i, apply_edit(es[i], edit));
    crate::sort::lemma_sorted_permutation(u);
    assert(u[i].uid == es[i].uid);
    lemma_sorted_has_uid(u, es[i].uid);
}


/// An edit changes only what it names: the summary, the all-day flag and
/// the description stay as they were unless the edit gives a new one (or
/// clears the description); the start and end become the edit's; the UID,
/// rule and kept lines never change.
pub proof fn law_edit_changes_only_what_it_names(e: EventView, edit: EventEdit)
    ensures
        edit.summary is None ==> apply_edit(e, edit).summary == e.summary,
        edit.summary matches Some(s) ==> apply_edit(e, edit).summary == s@,
        edit.all_day is None ==> apply_edit(e, edit).all_day == e.all_day,
        edit.all_day matches Some(b) ==> apply_edit(e, edit).all_day == b,
        !edit.clear_description && edit.description is None ==> apply_edit(e, edit).description
            == e.description,
        !edit.clear_description ==> (edit.description matches Some(d) ==> apply_edit(e, edit).description
            == d@),
        edit.clear_description ==> apply_edit(e, edit).description.len() == 0,
        apply_edit(e, edit).start == edit.start@,
        apply_edit(e, edit).end == crate::ics::opt_dt(edit.end),
        apply_edit(e, edit).uid == e.uid,
        apply_edit(e, edit).rrule == e.rrule,
        apply_edit(e, edit).extra == e.extra,
{
}
} // verus!
