//! Task engine of a desktop to-do widget: three kinds of tasks, a day-by-day
//! life cycle driven by an injected "today", statistics, due reminders and the
//! window-geometry decisions of the widget.

pub mod day;
pub mod text;
pub mod todo;
pub mod stats;
pub mod notify;
pub mod window;
pub mod commands;
