# mytodo

The engine of a desktop to-do widget, verified with Verus.

Tasks come in three kinds: daily tasks reset every day, limited tasks are due
on a day and expire after it, open tasks stay until done. Every function of the
engine takes "today" as an argument, so the whole life cycle is a function of
its inputs: `roll_over` brings a database forward to a new day, and bringing
it forward in one jump or day by day gives the same result (proved).

Layout:

- `src/day.rs` — calendar days as day numbers; calendar arithmetic through chrono.
- `src/text.rs` — trimming, decimal numerals and joining, over characters.
- `src/todo.rs` — the data model, the life cycle (`roll_over`), editing, the list order and its laws.
- `src/stats.rs` — today's counts, per-kind shares, the streak and the 30-day trend.
- `src/notify.rs` — the once-a-day due reminder and its text.
- `src/window.rs` — the decisions of the window shell (start geometry, ball mode).
- `src/commands.rs` — the refresh that every window command starts with.
- `app/` — the Tauri shell: commands, JSON storage, tray, window calls, notifications.
- `tests/` — scenarios and edge cases.
