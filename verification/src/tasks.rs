//! Optional bridge to Markdown task lists.
//!
//! Open checklist items with a due date (`- [ ] text due:YYYY-MM-DD`) become
//! [`TaskDue`]s. Reading the directory and the files is the caller's part; a
//! missing vault, missing directory or unreadable file simply yields no tasks.
use vstd::prelude::*;
use crate::date::{Date, chrono_parse_date, spec_parse_date};
use crate::sort::{SortKey, SortKeyExec, sort_by_key, sorted};
use crate::text::{
    trim, trim_start, trim_end_char, find_seq, lines, text_lt, chars_of, string_of, slice,
    trimmed, views, is_ws, lemma_trim_part, lemma_trim_end_char_part,
};

verus! {

/// A task with a due date, sourced from a Markdown checklist.
#[derive(Debug, Clone, PartialEq, Eq)]
pub struct TaskDue {
    pub text: String,
    pub due: Date,
    /// Path of the Markdown file the task comes from.
    pub source: String,
}

/// A task as plain values.
#[verifier::ext_equal]
pub struct TaskView {
    pub text: Seq<char>,
    pub due: int,
    pub source: Seq<char>,
}

impl View for TaskDue {
    type V = TaskView;

    open spec fn view(&self) -> TaskView {
        TaskView { text: self.text@, due: self.due@, source: self.source@ }
    }
}

pub open spec fn tasks_view(ts: Seq<TaskDue>) -> Seq<TaskView> {
    ts.map_values(|t: TaskDue| t@)
}

/// Tasks are ordered by due date, then by text.
pub open spec fn task_precedes(a: TaskView, b: TaskView) -> bool {
    a.due < b.due || (a.due == b.due && text_lt(a.text, b.text))
}

impl SortKey for TaskDue {
    open spec fn precedes(&self, other: &Self) -> bool {
        task_precedes(self@, other@)
    }
}

impl SortKeyExec for TaskDue {
    fn precedes_exec(&self, other: &Self) -> (r: bool) {
        let (a, b) = (self.due.days(), other.due.days());
        a < b || (a == b && crate::text::text_less(
            &chars_of(self.text.as_str()),
            &chars_of(other.text.as_str()),
        ))
    }
}

/// The text after an open checkbox (`- [ ]` or `* [ ]`), trimmed.
pub open spec fn task_rest(line: Seq<char>) -> Option<Seq<char>> {
    let t = trim_start(line);
    if t.len() >= 5 && (t.take(5) == "- [ ]"@ || t.take(5) == "* [ ]"@) {
        Some(trim(t.skip(5)))
    } else {
        None
    }
}

/// At most the first `n` characters.
pub open spec fn take_at_most(s: Seq<char>, n: int) -> Seq<char> {
    if s.len() <= n {
        s
    } else {
        s.take(n)
    }
}

/// The task on one line: an open checkbox, text, then `due:` and a
/// `YYYY-MM-DD` date (the ten characters after `due:`, trimmed); the text
/// before `due:` trimmed, trailing commas removed, trimmed again, not empty.
pub open spec fn task_of_line(line: Seq<char>, source: Seq<char>) -> Option<TaskView> {
    match task_rest(line) {
        None => None,
        Some(rest) => match find_seq(rest, "due:"@) {
            None => None,
            Some(p) => {
                let date_raw = take_at_most(trim(rest.skip(p + 4)), 10);
                match spec_parse_date(date_raw, "%Y-%m-%d"@) {
                    None => None,
                    Some(due) => {
                        let text = trim(trim_end_char(trim(rest.take(p)), ','));
                        if text.len() == 0 {
                            None
                        } else {
                            Some(TaskView { text, due, source })
                        }
                    },
                }
            },
        },
    }
}

/// The tasks on `ls`, in line order.
pub open spec fn tasks_of_lines(ls: Seq<Seq<char>>, source: Seq<char>) -> Seq<TaskView>
    decreases ls.len(),
{
    if ls.len() == 0 {
        seq![]
    } else {
        tasks_of_lines(ls.drop_last(), source) + match task_of_line(ls.last(), source) {
            Some(t) => seq![t],
            None => seq![],
        }
    }
}

/// The open tasks with a due date in a Markdown document.
pub open spec fn parse_due_tasks_spec(content: Seq<char>, source: Seq<char>) -> Seq<TaskView> {
    tasks_of_lines(lines(content), source)
}

fn task_of_line_exec(line: &Vec<char>, source: &str) -> (r: Option<TaskDue>)
    ensures
        match r {
            Some(t) => task_of_line(line@, source@) == Some(t@),
            None => task_of_line(line@, source@) is None,
        },
{
    let a = crate::text::trim_start_index(line, 0, line.len());
    let t = slice(line, a, line.len());
    proof {
        assert(line@.subrange(0, line.len() as int) == line@);
    }
    if t.len() < 5 {
        return None;
    }
    let head = slice(&t, 0, 5);
    proof {
        assert(head@ == t@.take(5));
    }
    if !crate::text::same_text(&head, &chars_of("- [ ]")) && !crate::text::same_text(
        &head,
        &chars_of("* [ ]"),
    ) {
        return None;
    }
    let rest = trimmed(&t, 5, t.len());
    proof {
        assert(t@.subrange(5, t.len() as int) == t@.skip(5));
    }
    let p = match crate::text::find_seq_exec(&rest, &chars_of("due:")) {
        Some(p) => p,
        None => return None,
    };
    proof {
        crate::text::lemma_find_seq_from(rest@, "due:"@, 0);
        reveal_strlit("due:");
        assert(p + 4 <= rest.len());
    }
    let after = trimmed(&rest, p + 4, rest.len());
    proof {
        assert(rest@.subrange(p + 4, rest.len() as int) == rest@.skip(p + 4));
    }
    let date_raw = if after.len() <= 10 {
        after
    } else {
        slice(&after, 0, 10)
    };
    let due = match chrono_parse_date(string_of(date_raw.as_slice()).as_str(), "%Y-%m-%d") {
        Some(d) => d,
        None => return None,
    };
    let before = trimmed(&rest, 0, p);
    proof {
        assert(rest@.subrange(0, p as int) == rest@.take(p as int));
    }
    let stripped = crate::text::trim_end_char_exec(&before, ',');
    let text = trimmed(&stripped, 0, stripped.len());
    proof {
        assert(stripped@.subrange(0, stripped.len() as int) == stripped@);
    }
    if text.len() == 0 {
        return None;
    }
    Some(
        TaskDue {
            text: string_of(text.as_slice()),
            due,
            source: string_of(chars_of(source).as_slice()),
        },
    )
}

/// Parse `- [ ] text due:YYYY-MM-DD` lines (open items only; `* [ ]` too).
pub fn parse_due_tasks(content: &str, source: &str) -> (r: Vec<TaskDue>)
    ensures
        tasks_view(r@) == parse_due_tasks_spec(content@, source@),
{
    let ls = crate::text::lines_exec(&chars_of(content));
    let ghost lv = views(ls@);
    let mut out: Vec<TaskDue> = Vec::new();
    let mut i: usize = 0;
    while i < ls.len()
        invariant
            lv == views(ls@),
            lv == lines(content@),
            i <= ls.len(),
            tasks_view(out@) == tasks_of_lines(lv.take(i as int), source@),
        decreases ls.len() - i,
    {
        proof {
            assert(lv.take(i + 1).drop_last() == lv.take(i as int));
            assert(lv.take(i + 1).last() == ls@[i as int]@);
        }
        match task_of_line_exec(&ls[i], source) {
            Some(t) => {
                out.push(t);
                proof {
                    assert(tasks_view(out@) == tasks_view(out@.drop_last()) + seq![t@]);
                }
            },
            None => {
                proof {
                    assert(tasks_view(out@) == tasks_view(out@) + Seq::<TaskView>::empty());
                }
            },
        }
        i += 1;
    }
    proof {
        assert(lv.take(ls.len() as int) == lv);
    }
    out
}


impl SortKey for TaskView {
    open spec fn precedes(&self, other: &Self) -> bool {
        task_precedes(*self, *other)
    }
}

/// A Markdown file of the tasks directory: its path and its text.
#[derive(Debug, Clone, PartialEq, Eq)]
pub struct MarkdownFile {
    pub path: String,
    pub content: String,
}

/// Files are read in path order.
impl SortKey for MarkdownFile {
    open spec fn precedes(&self, other: &Self) -> bool {
        text_lt(self.path@, other.path@)
    }
}

impl SortKeyExec for MarkdownFile {
    fn precedes_exec(&self, other: &Self) -> (r: bool) {
        crate::text::text_less(&chars_of(self.path.as_str()), &chars_of(other.path.as_str()))
    }
}

/// The tasks of `fs`, file after file.
pub open spec fn tasks_of_files(fs: Seq<MarkdownFile>) -> Seq<TaskView>
    decreases fs.len(),
{
    if fs.len() == 0 {
        seq![]
    } else {
        tasks_of_files(fs.drop_last()) + parse_due_tasks_spec(fs.last().content@, fs.last().path@)
    }
}

/// The due tasks of a directory's Markdown files: the files in path order,
/// their tasks sorted by due date then text (stable).
pub open spec fn due_tasks_spec(files: Seq<MarkdownFile>) -> Seq<TaskView> {
    sorted(tasks_of_files(sorted(files)))
}

/// Collect due tasks from the Markdown files of a tasks directory.
pub fn collect_due_tasks(files: Vec<MarkdownFile>) -> (r: Vec<TaskDue>)
    ensures
        tasks_view(r@) == due_tasks_spec(files@),
{
    let fs = sort_by_key(files);
    let ghost fv = fs@;
    let mut all: Vec<TaskDue> = Vec::new();
    let mut i: usize = 0;
    while i < fs.len()
        invariant
            fv == fs@,
            i <= fs.len(),
            tasks_view(all@) == tasks_of_files(fv.take(i as int)),
        decreases fs.len() - i,
    {
        proof {
            assert(fv.take(i + 1).drop_last() == fv.take(i as int));
            assert(fv.take(i + 1).last() == fs@[i as int]);
        }
        let mut found = parse_due_tasks(fs[i].content.as_str(), fs[i].path.as_str());
        let ghost a = tasks_view(all@);
        let ghost b = tasks_view(found@);
        all.append(&mut found);
        proof {
            assert(tasks_view(all@) =~= a + b);
        }
        i += 1;
    }
    proof {
        assert(fv.take(fs.len() as int) == fv);
    }
    let ghost unsorted = all@;
    let r = sort_by_key(all);
    proof {
        let f = |t: TaskDue| t@;
        assert forall|a: TaskDue, b: TaskDue| #[trigger] a.precedes(&b) == f(a).precedes(&f(b)) by {}
        crate::sort::lemma_sorted_map(unsorted, f);
        assert(tasks_view(unsorted) == unsorted.map_values(f));
        assert(tasks_view(r@) == sorted(unsorted).map_values(f));
    }
    r
}

/// Index of the last `c` in `s`.
pub open spec fn rfind_char(s: Seq<char>, c: char) -> Option<int>
    decreases s.len(),
{
    if s.len() == 0 {
        None
    } else if s.last() == c {
        Some(s.len() - 1)
    } else {
        rfind_char(s.drop_last(), c)
    }
}

/// `Path::extension` of a file name is `md`: text after the last `.`, where
/// something precedes that `.`.
pub open spec fn is_markdown_spec(name: Seq<char>) -> bool {
    match rfind_char(name, '.') {
        Some(i) => i > 0 && name.skip(i + 1) == "md"@,
        None => false,
    }
}

/// True when a directory entry named `name` is a Markdown file (`*.md`).
pub fn is_markdown(name: &str) -> (r: bool)
    ensures
        r == is_markdown_spec(name@),
{
    let v = chars_of(name);
    let mut j: usize = v.len();
    proof {
        assert(v@.take(v.len() as int) == v@);
    }
    while j > 0 && v[j - 1] != '.'
        invariant
            j <= v.len(),
            rfind_char(v@, '.') == rfind_char(v@.take(j as int), '.'),
        decreases j,
    {
        proof {
            assert(v@.take(j as int).drop_last() == v@.take(j - 1));
        }
        j -= 1;
    }
    if j == 0 {
        proof {
            assert(v@.take(0) == Seq::<char>::empty());
        }
        return false;
    }
    let i = j - 1;
    proof {
        assert(v@.take(j as int).last() == '.');
        assert(rfind_char(v@, '.') == Some(i as int));
    }
    let after = slice(&v, i + 1, v.len());
    proof {
        assert(after@ == v@.skip(i + 1));
    }
    i > 0 && crate::text::same_text(&after, &chars_of("md"))
}


/// Due date, then text, is a strict weak order on tasks.
proof fn lemma_task_order()
    ensures
        crate::sort::is_strict_weak_order::<TaskView>(),
{
    assert forall|a: TaskView, b: TaskView| #[trigger] a.precedes(&b) implies !b.precedes(&a) by {
        crate::text::lemma_text_lt_asymmetric(a.text, b.text);
    }
    assert forall|a: TaskView, b: TaskView, c: TaskView|
        #![trigger a.precedes(&b), b.precedes(&c)]
        !a.precedes(&b) && !b.precedes(&c) implies !a.precedes(&c) by {
        crate::text::lemma_text_lt_total(a.text, b.text);
        crate::text::lemma_text_lt_total(b.text, c.text);
        crate::text::lemma_text_lt_asymmetric(a.text, c.text);
        if a.due == c.due && text_lt(a.text, c.text) && a.due == b.due {
            if text_lt(b.text, a.text) {
                crate::text::lemma_text_lt_transitive(b.text, a.text, c.text);
            }
            if text_lt(c.text, b.text) {
                crate::text::lemma_text_lt_transitive(a.text, c.text, b.text);
            }
        }
    }
}

/// The tasks of a directory come sorted by due date, then text, and are
/// exactly the tasks of its Markdown files (read in path order), each once.
pub proof fn law_due_tasks_sorted(files: Seq<MarkdownFile>)
    ensures
        crate::sort::is_ordered(due_tasks_spec(files)),
        due_tasks_spec(files).to_multiset() == tasks_of_files(sorted(files)).to_multiset(),
{
    lemma_task_order();
    crate::sort::lemma_sorted_ordered(tasks_of_files(sorted(files)));
    crate::sort::lemma_sorted_permutation(tasks_of_files(sorted(files)));
}

/// What the text before `due:` becomes: a piece of it with only whitespace
/// taken off the front and only whitespace and commas taken off the end.
pub open spec fn kept_piece(before: Seq<char>, text: Seq<char>) -> bool {
    exists|a: int, b: int|
        0 <= a <= b <= before.len() && text == before.subrange(a, b) && (forall|i: int|
            0 <= i < a ==> is_ws(#[trigger] before[i])) && (forall|i: int|
            b <= i < before.len() ==> is_ws(#[trigger] before[i]) || before[i] == ',')
}

proof fn lemma_task_text_piece(before: Seq<char>)
    ensures
        kept_piece(before, trim(trim_end_char(trim(before), ','))),
        trim(trim_end_char(trim(before), ',')).len() > 0 ==> !is_ws(trim(trim_end_char(trim(before), ','))[0])
            && !is_ws(trim(trim_end_char(trim(before), ',')).last()),
{
    let x = trim(before);
    let y = trim_end_char(x, ',');
    let text = trim(y);
    lemma_trim_part(before);
    let (a1, b1) = choose|a: int, b: int|
        0 <= a <= b <= before.len() && x == before.subrange(a, b) && (forall|i: int| 0 <= i < a ==> is_ws(
            #[trigger] before[i],
        )) && (forall|i: int| b <= i < before.len() ==> is_ws(#[trigger] before[i]));
    lemma_trim_end_char_part(x, ',');
    let k = choose|k: int|
        0 <= k <= x.len() && y == x.take(k) && forall|i: int| k <= i < x.len() ==> #[trigger] x[i] == ',';
    lemma_trim_part(y);
    let (a2, b2) = choose|a: int, b: int|
        0 <= a <= b <= y.len() && text == y.subrange(a, b) && (forall|i: int| 0 <= i < a ==> is_ws(
            #[trigger] y[i],
        )) && (forall|i: int| b <= i < y.len() ==> is_ws(#[trigger] y[i]));
    let a = a1 + a2;
    let b = a1 + b2;
    assert(text =~= before.subrange(a, b));
    assert forall|i: int| 0 <= i < a implies is_ws(#[trigger] before[i]) by {
        if i >= a1 {
            assert(before[i] == y[i - a1]);
        }
    }
    assert forall|i: int| b <= i < before.len() implies is_ws(#[trigger] before[i]) || before[i] == ',' by {
        if i < a1 + k {
            assert(before[i] == y[i - a1]);
        } else if i < b1 {
            assert(before[i] == x[i - a1]);
        }
    }
}

/// A task's text is what stands between its checkbox and `due:`, with only
/// whitespace taken off the front and only whitespace and commas taken off
/// the end: a non-empty piece of that text, starting and ending with a
/// non-blank character, every character inside it kept.
pub proof fn law_task_text(line: Seq<char>, source: Seq<char>)
    ensures
        task_of_line(line, source) matches Some(t) ==> {
            &&& t.source == source
            &&& task_rest(line) matches Some(rest) && find_seq(rest, "due:"@) matches Some(p) && {
                &&& t.text.len() > 0
                &&& !is_ws(t.text[0])
                &&& !is_ws(t.text.last())
                &&& kept_piece(rest.take(p), t.text)
            }
        },
{
    if let Some(t) = task_of_line(line, source) {
        let rest = task_rest(line)->0;
        let p = find_seq(rest, "due:"@)->0;
        lemma_task_text_piece(rest.take(p));
    }
}


/// Only open checkboxes count: a line gives a task only when, after leading
/// whitespace, it starts with `- [ ]` or `* [ ]`, so a done item
/// (`- [x]`) never does.
pub proof fn law_only_open_items(line: Seq<char>, source: Seq<char>)
    ensures
        task_of_line(line, source) is Some ==> trim_start(line).len() >= 5 && (trim_start(line).take(5)
            == "- [ ]"@ || trim_start(line).take(5) == "* [ ]"@),
        trim_start(line).len() >= 5 && (trim_start(line).take(5) == "- [x]"@ || trim_start(line).take(5)
            == "* [x]"@ || trim_start(line).take(5) == "- [X]"@) ==> task_of_line(line, source) is None,
{
    reveal_strlit("- [ ]");
    reveal_strlit("* [ ]");
    reveal_strlit("- [x]");
    reveal_strlit("* [x]");
    reveal_strlit("- [X]");
    let h = trim_start(line);
    if h.len() >= 5 {
        assert("- [ ]"@[3] == ' ' && "* [ ]"@[3] == ' ');
        assert("- [x]"@[3] == 'x' && "* [x]"@[3] == 'x' && "- [X]"@[3] == 'X');
        if h.take(5) == "- [x]"@ || h.take(5) == "* [x]"@ || h.take(5) == "- [X]"@ {
            assert(h.take(5)[3] != ' ');
            assert(h.take(5) != "- [ ]"@);
            assert(h.take(5) != "* [ ]"@);
        }
    }
}
} // verus!
