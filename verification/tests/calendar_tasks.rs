use optioncalendar::date::Date;
use optioncalendar::{MarkdownFile, collect_due_tasks, is_markdown, parse_due_tasks};

#[test]
fn parses_open_tasks_with_due() {
    let content = "# Tasks\n\n- [ ] pay bill due:2026-09-03\n- [x] done due:2026-09-01\n- [ ] no date\n- [ ] bad date due:yesterday\n";
    let tasks = parse_due_tasks(content, "tasks/a.md");
    assert_eq!(tasks.len(), 1);
    assert_eq!(tasks[0].text, "pay bill");
    assert_eq!(tasks[0].due, Date::from_ymd(2026, 9, 3).unwrap());
}

#[test]
fn reads_md_files_sorted_by_due() {
    let entries = [
        ("b.md", "- [ ] late due:2026-09-10\n"),
        ("a.md", "- [ ] early due:2026-09-01\n"),
        ("ignore.txt", "- [ ] nope due:2026-01-01\n"),
    ];
    let files: Vec<MarkdownFile> = entries
        .iter()
        .filter(|(name, _)| is_markdown(name))
        .map(|(name, content)| MarkdownFile { path: name.to_string(), content: content.to_string() })
        .collect();
    let tasks = collect_due_tasks(files);
    assert_eq!(tasks.len(), 2);
    assert_eq!(tasks[0].text, "early");
    assert_eq!(tasks[1].text, "late");
}

#[test]
fn star_bullets_trailing_commas_and_long_dates() {
    let content = "  * [ ] call mom, due:2026-09-05 extra\n- [ ]  due:2026-09-05\n";
    let tasks = parse_due_tasks(content, "t.md");
    assert_eq!(tasks.len(), 1);
    assert_eq!(tasks[0].text, "call mom");
    assert_eq!(tasks[0].due, Date::from_ymd(2026, 9, 5).unwrap());
    assert_eq!(tasks[0].source, "t.md");
}

#[test]
fn markdown_names_need_a_stem() {
    assert!(is_markdown("notes.md"));
    assert!(!is_markdown(".md"));
    assert!(!is_markdown("notes.mdx"));
    assert!(!is_markdown("notes"));
}

#[test]
fn tasks_with_equal_due_dates_sort_by_text() {
    let files = vec![MarkdownFile {
        path: "a.md".into(),
        content: "- [ ] zebra due:2026-09-01\n- [ ] apple due:2026-09-01\n- [ ] early due:2026-08-01\n".into(),
    }];
    let tasks = collect_due_tasks(files);
    let names: Vec<&str> = tasks.iter().map(|t| t.text.as_str()).collect();
    assert_eq!(names, ["early", "apple", "zebra"]);
}
