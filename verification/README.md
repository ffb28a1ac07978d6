# optioncalendar

A quiet local calendar: events kept in one ICS file, day/week/month views,
reminders, a terminal month + agenda view, and a bridge to Markdown task
lists (`- [ ] text due:YYYY-MM-DD`). The `oca` command line drives it.

The library under `src/` is written in Verus and proved against its
contracts:

- `ics` parses and writes the calendar file. `roundtrip` proves that a
  saved file reads back as the events that were saved (`law_save_reload`,
  `law_export_import_roundtrip`) and that text escaping is undone by
  unescaping.
- `query` expands simple `RRULE`s and builds the day, week and month
  listings; `tasks` reads due tasks from Markdown.
- `store` holds the event list (add, remove, import, edit by UID);
  `notify` chooses due reminders and keeps the state file of sent ones,
  which reads back as the keys it kept.
- `cli` and `tui` hold the decisions of every command and of the key
  handling of the terminal view; `date`, `text`, `sort` and `week` are the
  shared building blocks.

Calendar arithmetic, date parsing and formatting come from `chrono`, called
through the small trusted wrappers at the end of `src/date.rs`.

`app/` is the program around the library: argument parsing, files,
terminal drawing and JSON output. The tests are under `tests/`.
