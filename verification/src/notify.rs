//! Due reminders: the decision is a function of the database and the day;
//! at most one grouped reminder a day, `last_notified_date` being the record.

use crate::day::{same_day_opt, Day};
use crate::text::{decimal, join_first, joined, texts, usize_to_text};
use crate::todo::{Database, Kind, Task};
use vstd::prelude::*;

verus! {

/// Whether to send a reminder, and with which task names.
#[derive(Debug, PartialEq)]
pub enum DueDecision {
    /// Reminded today already, reminders off, or nothing due today.
    Skip,
    /// One grouped reminder with the names of the tasks due today.
    Notify(Vec<String>),
}

/// Texts of the `Limited` tasks due on `today`, in list order.
pub open spec fn due_names(ts: Seq<Task>, today: Day) -> Seq<Seq<char>>
    decreases ts.len(),
{
    if ts.len() == 0 {
        seq![]
    } else {
        let rest = due_names(ts.drop_last(), today);
        let t = ts.last();
        if t.kind == Kind::Limited && t.due_date == Some(today) {
            rest.push(t.text@)
        } else {
            rest
        }
    }
}

/// The names a reminder on `today` carries; `None` for no reminder.
pub open spec fn reminder_of(db: Database, today: Day) -> Option<Seq<Seq<char>>> {
    if !db.reminders_enabled || db.last_notified_date == Some(today) || due_names(
        db.tasks@,
        today,
    ).len() == 0 {
        None
    } else {
        Some(due_names(db.tasks@, today))
    }
}

/// Decide the reminder for `today`.
pub fn due_decision(db: &Database, today: Day) -> (r: DueDecision)
    ensures
        match reminder_of(*db, today) {
            None => r == DueDecision::Skip,
            Some(names) => r matches DueDecision::Notify(v) && texts(v@) == names,
        },
{
    if !db.reminders_enabled {
        return DueDecision::Skip;
    }
    if same_day_opt(db.last_notified_date, Some(today)) {
        return DueDecision::Skip;
    }
    let mut names: Vec<String> = Vec::new();
    let mut i: usize = 0;
    while i < db.tasks.len()
        invariant
            i <= db.tasks@.len(),
            texts(names@) == due_names(db.tasks@.take(i as int), today),
        decreases db.tasks@.len() - i,
    {
        proof {
            assert(db.tasks@.take(i + 1).drop_last() =~= db.tasks@.take(i as int));
        }
        let t = &db.tasks[i];
        if t.kind == Kind::Limited && same_day_opt(t.due_date, Some(today)) {
            names.push(t.text.clone());
            proof {
                assert(texts(names@) =~= due_names(db.tasks@.take(i + 1), today));
            }
        }
        i = i + 1;
    }
    proof {
        assert(db.tasks@.take(i as int) =~= db.tasks@);
    }
    if names.len() == 0 {
        DueDecision::Skip
    } else {
        DueDecision::Notify(names)
    }
}

/// The body of the reminder: how many tasks are due, and the names of the
/// first three (with "等" where there are more).
pub open spec fn body_text(names: Seq<Seq<char>>) -> Seq<char> {
    let n = names.len();
    "今天有 "@ + decimal(n) + " 件任务到期"@ + "："@ + if n <= 3 {
        joined(names, "、"@)
    } else {
        joined(names.take(3), "、"@) + " 等"@
    }
}

/// The body of a reminder for the tasks `names`.
pub fn due_body(names: &[String]) -> (r: String)
    ensures
        r@ == body_text(texts(names@)),
{
    let mut s = String::from_str("今天有 ");
    let count = usize_to_text(names.len());
    s.append(count.as_str());
    s.append(" 件任务到期");
    s.append("：");
    let shown = if names.len() <= 3 {
        names.len()
    } else {
        3
    };
    let list = join_first(names, shown, "、");
    s.append(list.as_str());
    if names.len() > 3 {
        s.append(" 等");
    }
    proof {
        assert(names@.take(names@.len() as int) =~= names@);
        if names@.len() > 3 {
            assert(texts(names@.take(3)) =~= texts(names@).take(3));
        }
    }
    s
}

/// A reminder as the system shows it.
#[derive(Debug, Clone)]
pub struct DueToast {
    pub title: String,
    pub body: String,
}

/// The reminder for the tasks `names`.
pub fn build_toast(names: &[String]) -> (r: DueToast)
    ensures
        r.title@ == "MyToDo · 任务到期"@,
        r.body@ == body_text(texts(names@)),
{
    DueToast { title: String::from_str("MyToDo · 任务到期"), body: due_body(names) }
}

/// Record that today's reminder was sent.
pub fn mark_notified(db: &mut Database, today: Day)
    ensures
        *final(db) == (Database { last_notified_date: Some(today), ..*old(db) }),
{
    db.last_notified_date = Some(today);
}

/// Law: once the reminder of a day is recorded, no second one is decided for
/// that day.
pub proof fn law_one_reminder_a_day(db: Database, today: Day)
    ensures
        reminder_of(Database { last_notified_date: Some(today), ..db }, today) is None,
{
}

/// A task that a reminder on `today` is about.
pub open spec fn is_due_on(t: Task, today: Day) -> bool {
    t.kind == Kind::Limited && (t.due_date matches Some(d) && d.ce == today.ce)
}

/// Some task of `ts` due on `today` has the text `name`.
pub open spec fn names_due_task(ts: Seq<Task>, today: Day, name: Seq<char>) -> bool {
    exists|j: int| 0 <= j < ts.len() && is_due_on(#[trigger] ts[j], today) && ts[j].text@ == name
}

proof fn lemma_due_names(ts: Seq<Task>, today: Day)
    ensures
        forall|i: int|
            0 <= i < due_names(ts, today).len() ==> names_due_task(
                ts,
                today,
                #[trigger] due_names(ts, today)[i],
            ),
        forall|j: int|
            0 <= j < ts.len() && is_due_on(#[trigger] ts[j], today) ==> due_names(ts, today).contains(
                ts[j].text@,
            ),
        due_names(ts, today).len() <= ts.len(),
    decreases ts.len(),
{
    if ts.len() > 0 {
        let p = ts.drop_last();
        lemma_due_names(p, today);
        let rest = due_names(p, today);
        let names = due_names(ts, today);
        assert forall|i: int| 0 <= i < names.len() implies names_due_task(
            ts,
            today,
            #[trigger] names[i],
        ) by {
            if i < rest.len() {
                assert(names[i] == rest[i]);
                assert(names_due_task(p, today, rest[i]));
                let j = choose|j: int| 0 <= j < p.len() && is_due_on(#[trigger] p[j], today) && p[j].text@
                    == rest[i];
                assert(ts[j] == p[j]);
                assert(is_due_on(ts[j], today) && ts[j].text@ == names[i]);
            } else {
                let t = ts.last();
                assert(t.kind == Kind::Limited && t.due_date == Some(today));
                assert(names == rest.push(t.text@));
                assert(ts[ts.len() - 1] == t);
                assert(is_due_on(ts[ts.len() - 1], today) && ts[ts.len() - 1].text@ == names[i]);
            }
        }
        assert forall|j: int| 0 <= j < ts.len() && is_due_on(#[trigger] ts[j], today) implies names.contains(
            ts[j].text@,
        ) by {
            if j < p.len() {
                assert(p[j] == ts[j]);
                assert(rest.contains(ts[j].text@));
                let i = choose|i: int| 0 <= i < rest.len() && rest[i] == ts[j].text@;
                assert(names[i] == rest[i]);
            } else {
                assert(names[names.len() - 1] == ts.last().text@);
            }
        }
    } else {
        assert(due_names(ts, today).len() == 0);
    }
}

/// Law of the reminder, on the tasks' own fields: there is one on `today`
/// exactly when reminders are on, none was sent today, and some `Limited`
/// task is due exactly `today`; then every name it carries is the text of such
/// a task, and every such task is named.
pub proof fn law_reminder_names_tasks_due_today(db: Database, today: Day)
    ensures
        reminder_of(db, today) is Some <==> db.reminders_enabled && db.last_notified_date != Some(
            today,
        ) && exists|j: int| 0 <= j < db.tasks@.len() && is_due_on(#[trigger] db.tasks@[j], today),
        reminder_of(db, today) matches Some(names) ==> forall|i: int|
            0 <= i < names.len() ==> names_due_task(db.tasks@, today, #[trigger] names[i]),
        reminder_of(db, today) matches Some(names) ==> forall|j: int|
            0 <= j < db.tasks@.len() && is_due_on(#[trigger] db.tasks@[j], today) ==> names.contains(
                db.tasks@[j].text@,
            ),
{
    let ts = db.tasks@;
    lemma_due_names(ts, today);
    let names = due_names(ts, today);
    if exists|j: int| 0 <= j < ts.len() && is_due_on(#[trigger] ts[j], today) {
        let j = choose|j: int| 0 <= j < ts.len() && is_due_on(#[trigger] ts[j], today);
        assert(names.contains(ts[j].text@));
    }
    if names.len() > 0 {
        assert(names[0] == names[0]);
    }
}

} // verus!
