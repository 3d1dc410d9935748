//! The task engine. Every function here takes "today" from its caller and
//! never reads a clock, so the life cycle of a task over the days is a
//! function of its arguments.

use crate::day::{same_day_opt, Day};
use crate::text::trimmed;
use vstd::prelude::*;

verus! {

/// Version of the layout of the stored database.
pub const SCHEMA_VERSION: u32 = 1;

/// Kind of a task: reset every day, due on a day, or open-ended.
#[derive(Debug, Clone, Copy, PartialEq, Eq, Structural)]
pub enum Kind {
    Daily,
    Limited,
    Open,
}

/// A task of the list.
#[derive(Debug, Clone, PartialEq)]
pub struct Task {
    pub id: String,
    pub text: String,
    pub kind: Kind,
    /// Set for `Limited` tasks only.
    pub due_date: Option<Day>,
    pub created_date: Day,
    /// The day on which the task was ticked off in the current round.
    pub done_date: Option<Day>,
}

/// How a task left the list.
#[derive(Debug, Clone, Copy, PartialEq, Eq, Structural)]
pub enum Outcome {
    CompletedOn,
    ExpiredUnfinished,
    DeletedByUser,
}

/// A task that left the list, with how and on which day.
#[derive(Debug, Clone, PartialEq)]
pub struct ArchiveEntry {
    pub task: Task,
    pub outcome: Outcome,
    pub removed_date: Day,
}

/// Remembered geometry of the main window. The glass opacity is an `f32`
/// kept by its bit pattern (`f32::to_bits`); `None` means the default.
#[derive(Debug, Clone, Copy, PartialEq)]
pub struct WindowState {
    pub x: i32,
    pub y: i32,
    pub width: u32,
    pub height: u32,
    pub always_on_top: bool,
    pub opacity_bits: Option<u32>,
    pub ball_mode: bool,
}

/// The window state that stands for "nothing remembered yet".
pub open spec fn default_window() -> WindowState {
    WindowState {
        x: 0,
        y: 0,
        width: 0,
        height: 0,
        always_on_top: false,
        opacity_bits: None,
        ball_mode: false,
    }
}

impl Default for WindowState {
    fn default() -> (r: WindowState)
        ensures
            r == default_window(),
    {
        WindowState {
            x: 0,
            y: 0,
            width: 0,
            height: 0,
            always_on_top: false,
            opacity_bits: None,
            ball_mode: false,
        }
    }
}

/// Counts of one closed day: daily tasks done and present, all tasks done and
/// present, as they stood at the end of that day.
#[derive(Debug, Clone, Copy, PartialEq)]
pub struct DailyLogEntry {
    pub date: Day,
    pub done_daily: u32,
    pub total_daily: u32,
    pub done_all: u32,
    pub total_all: u32,
}

/// Everything the widget remembers.
#[derive(Debug, Clone, PartialEq)]
pub struct Database {
    pub schema_version: u32,
    /// The last day the engine has been brought to; `None` for a new database.
    pub last_active_date: Option<Day>,
    pub tasks: Vec<Task>,
    pub archive: Vec<ArchiveEntry>,
    pub window: Option<WindowState>,
    /// Geometry of the main window while it is folded into the ball.
    pub pre_ball: Option<WindowState>,
    pub daily_log: Vec<DailyLogEntry>,
    /// The day of the last due reminder.
    pub last_notified_date: Option<Day>,
    pub reminders_enabled: bool,
    /// Days after which an untouched open task counts as backlog.
    pub backlog_days: u32,
}

/// The default of `reminders_enabled` for a stored database that lacks it.
pub fn default_true() -> (r: bool)
    ensures
        r,
{
    true
}

/// The default of `backlog_days` for a stored database that lacks it.
pub fn default_backlog_days() -> (r: u32)
    ensures
        r == 3,
{
    3
}

/// A database with no task, no history and default settings.
pub fn new_database() -> (db: Database)
    ensures
        db.schema_version == SCHEMA_VERSION,
        db.last_active_date is None,
        db.tasks@.len() == 0,
        db.archive@.len() == 0,
        db.window is None,
        db.pre_ball is None,
        db.daily_log@.len() == 0,
        db.last_notified_date is None,
        db.reminders_enabled,
        db.backlog_days == 3,
        well_formed(db),
{
    Database {
        schema_version: SCHEMA_VERSION,
        last_active_date: None,
        tasks: Vec::new(),
        archive: Vec::new(),
        window: None,
        pre_ball: None,
        daily_log: Vec::new(),
        last_notified_date: None,
        reminders_enabled: default_true(),
        backlog_days: default_backlog_days(),
    }
}

pub open spec fn spec_always_on_top(db: Database) -> bool {
    match db.window {
        Some(w) => w.always_on_top,
        None => true,
    }
}

/// Whether the window stays on top; without a remembered window it does.
pub fn always_on_top(db: &Database) -> (r: bool)
    ensures
        r == spec_always_on_top(*db),
{
    match db.window {
        Some(w) => w.always_on_top,
        None => true,
    }
}

/// Why the engine refused a request.
#[derive(Debug, Clone, Copy, PartialEq, Eq, Structural)]
pub enum EngineError {
    EmptyText,
    DueDateRequired,
    TaskNotFound,
}

impl EngineError {
    /// The message shown to the user.
    pub fn message(&self) -> (r: String)
        ensures
            r@ == match *self {
                EngineError::EmptyText => "任务内容不能为空"@,
                EngineError::DueDateRequired => "限时任务需要选择到期日期"@,
                EngineError::TaskNotFound => "任务不存在"@,
            },
    {
        match self {
            EngineError::EmptyText => String::from_str("任务内容不能为空"),
            EngineError::DueDateRequired => String::from_str("限时任务需要选择到期日期"),
            EngineError::TaskNotFound => String::from_str("任务不存在"),
        }
    }
}

/// Only a `Limited` task has a due day, and every `Limited` task has one.
pub open spec fn task_well_formed(t: Task) -> bool {
    (t.kind == Kind::Limited) == (t.due_date is Some)
}

/// Every task of `ts` is well formed.
pub open spec fn all_well_formed(ts: Seq<Task>) -> bool {
    forall|i: int| 0 <= i < ts.len() ==> task_well_formed(#[trigger] ts[i])
}

/// What every operation of the engine keeps: tasks are well formed, and a
/// database that holds a task has a day anchor.
pub open spec fn well_formed(db: Database) -> bool {
    &&& all_well_formed(db.tasks@)
    &&& db.tasks@.len() > 0 ==> db.last_active_date is Some
}

// ---------------------------------------------------------------------------
// Finding a task by its id

/// `i` is the first position of `ts` whose task has the id `id`.
pub open spec fn first_with_id(ts: Seq<Task>, id: Seq<char>, i: int) -> bool {
    &&& 0 <= i < ts.len()
    &&& ts[i].id@ == id
    &&& forall|j: int| 0 <= j < i ==> #[trigger] ts[j].id@ != id
}

/// Some task of `ts` has the id `id`.
pub open spec fn has_id(ts: Seq<Task>, id: Seq<char>) -> bool {
    exists|i: int| 0 <= i < ts.len() && #[trigger] ts[i].id@ == id
}

/// The first position of a task with the id `id` (meaningful where `has_id`).
pub open spec fn id_position(ts: Seq<Task>, id: Seq<char>) -> int {
    choose|i: int| first_with_id(ts, id, i)
}

pub proof fn lemma_id_position(ts: Seq<Task>, id: Seq<char>, i: int)
    requires
        first_with_id(ts, id, i),
    ensures
        id_position(ts, id) == i,
        has_id(ts, id),
{
    let k = id_position(ts, id);
    assert(first_with_id(ts, id, k));
    if k < i {
        assert(ts[k].id@ != id);
    } else if k > i {
        assert(ts[i].id@ != id);
    }
}

fn position_of(tasks: &Vec<Task>, id: &str) -> (r: Option<usize>)
    ensures
        match r {
            Some(i) => first_with_id(tasks@, id@, i as int) && id_position(tasks@, id@) == i,
            None => !has_id(tasks@, id@),
        },
{
    let key = id.to_owned();
    let mut i: usize = 0;
    while i < tasks.len()
        invariant
            i <= tasks@.len(),
            key@ == id@,
            forall|j: int| 0 <= j < i ==> #[trigger] tasks@[j].id@ != id@,
        decreases tasks@.len() - i,
    {
        if tasks[i].id == key {
            proof {
                lemma_id_position(tasks@, id@, i as int);
            }
            return Some(i);
        }
        i = i + 1;
    }
    None
}


// ---------------------------------------------------------------------------
// Editing single tasks

/// `t` with its completion flipped: unticked if it was ticked, else ticked today.
pub open spec fn toggled(t: Task, today: Day) -> Task {
    Task { done_date: if t.done_date is Some { None } else { Some(today) }, ..t }
}

/// Tick a task off today, or untick it. The day it is ticked stays on the list
/// struck through; the next day `roll_over` deals with it.
pub fn toggle_done(db: &mut Database, today: Day, id: &str) -> (r: Result<(), EngineError>)
    ensures
        well_formed(*old(db)) ==> well_formed(*final(db)),
        r is Ok <==> has_id(old(db).tasks@, id@),
        r is Err ==> r == Err::<(), EngineError>(EngineError::TaskNotFound) && *final(db) == *old(db),
        r is Ok ==> *final(db) == (Database { tasks: final(db).tasks, ..*old(db) }) && final(db).tasks@
            == old(db).tasks@.update(
            id_position(old(db).tasks@, id@),
            toggled(old(db).tasks@[id_position(old(db).tasks@, id@)], today),
        ),
{
    match position_of(&db.tasks, id) {
        None => Err(EngineError::TaskNotFound),
        Some(i) => {
            let flipped = if db.tasks[i].done_date.is_some() {
                None
            } else {
                Some(today)
            };
            db.tasks[i].done_date = flipped;
            Ok(())
        },
    }
}


/// The due day that `set_kind` gives a task that becomes `Limited`: the new
/// one if given, else the one it had.
pub open spec fn kept_due(due_date: Option<Day>, t: Task) -> Option<Day> {
    match due_date {
        Some(d) => Some(d),
        None => t.due_date,
    }
}

/// `t` after its kind was changed to `kind`.
pub open spec fn rekinded(t: Task, kind: Kind, due_date: Option<Day>) -> Task {
    Task {
        kind,
        due_date: if kind == Kind::Limited { kept_due(due_date, t) } else { None },
        ..t
    }
}

/// Change the kind of a task. A `Limited` task needs a due day: the one given,
/// else the one the task had, else the request is refused. Any other kind
/// drops the due day. Completion and the archive are untouched.
pub fn set_kind(db: &mut Database, id: &str, kind: Kind, due_date: Option<Day>) -> (r: Result<
    (),
    EngineError,
>)
    ensures
        well_formed(*old(db)) ==> well_formed(*final(db)),
        r == Err::<(), EngineError>(EngineError::TaskNotFound) <==> !has_id(old(db).tasks@, id@),
        r == Err::<(), EngineError>(EngineError::DueDateRequired) <==> has_id(old(db).tasks@, id@)
            && kind == Kind::Limited && kept_due(
            due_date,
            old(db).tasks@[id_position(old(db).tasks@, id@)],
        ) is None,
        r is Ok <==> has_id(old(db).tasks@, id@) && !(kind == Kind::Limited && kept_due(
            due_date,
            old(db).tasks@[id_position(old(db).tasks@, id@)],
        ) is None),
        r is Err ==> *final(db) == *old(db),
        r is Ok ==> *final(db) == (Database { tasks: final(db).tasks, ..*old(db) }) && final(db).tasks@
            == old(db).tasks@.update(
            id_position(old(db).tasks@, id@),
            rekinded(old(db).tasks@[id_position(old(db).tasks@, id@)], kind, due_date),
        ),
        r is Ok ==> {
            let i = id_position(old(db).tasks@, id@);
            &&& final(db).tasks@[i].kind == kind
            &&& final(db).tasks@[i].due_date == if kind != Kind::Limited {
                None
            } else if due_date is Some {
                due_date
            } else {
                old(db).tasks@[i].due_date
            }
            &&& final(db).tasks@[i].done_date == old(db).tasks@[i].done_date
        },
{
    match position_of(&db.tasks, id) {
        None => Err(EngineError::TaskNotFound),
        Some(i) => {
            if kind == Kind::Limited {
                let due = match due_date {
                    Some(d) => Some(d),
                    None => db.tasks[i].due_date,
                };
                if due.is_none() {
                    return Err(EngineError::DueDateRequired);
                }
                db.tasks[i].due_date = due;
            } else {
                db.tasks[i].due_date = None;
            }
            db.tasks[i].kind = kind;
            Ok(())
        },
    }
}

/// Replace the text of a task by `text` without its surrounding white space;
/// an empty text is refused before the task is looked up.
pub fn edit_text(db: &mut Database, id: &str, text: &str) -> (r: Result<(), EngineError>)
    ensures
        well_formed(*old(db)) ==> well_formed(*final(db)),
        r == Err::<(), EngineError>(EngineError::EmptyText) <==> trimmed(text@).len() == 0,
        r == Err::<(), EngineError>(EngineError::TaskNotFound) <==> trimmed(text@).len() != 0
            && !has_id(old(db).tasks@, id@),
        r is Ok <==> trimmed(text@).len() != 0 && has_id(old(db).tasks@, id@),
        r is Err ==> *final(db) == *old(db),
        r is Ok ==> {
            let i = id_position(old(db).tasks@, id@);
            &&& *final(db) == (Database { tasks: final(db).tasks, ..*old(db) })
            &&& final(db).tasks@.len() == old(db).tasks@.len()
            &&& forall|j: int| 0 <= j < old(db).tasks@.len() && j != i ==> final(db).tasks@[j] == old(db).tasks@[j]
            &&& final(db).tasks@[i] == (Task { text: final(db).tasks@[i].text, ..old(db).tasks@[i] })
            &&& final(db).tasks@[i].text@ == trimmed(text@)
        },
{
    let text = crate::text::trim_str(text);
    if text.is_empty() {
        return Err(EngineError::EmptyText);
    }
    match position_of(&db.tasks, id) {
        None => Err(EngineError::TaskNotFound),
        Some(i) => {
            db.tasks[i].text = text.to_owned();
            Ok(())
        },
    }
}

/// Remove a task from the list into the archive as deleted by the user; a task
/// is never destroyed.
pub fn delete_task(db: &mut Database, today: Day, id: &str) -> (r: Result<(), EngineError>)
    ensures
        well_formed(*old(db)) ==> well_formed(*final(db)),
        r is Ok <==> has_id(old(db).tasks@, id@),
        r is Err ==> r == Err::<(), EngineError>(EngineError::TaskNotFound) && *final(db) == *old(db),
        r is Ok ==> {
            let i = id_position(old(db).tasks@, id@);
            &&& *final(db) == (Database { tasks: final(db).tasks, archive: final(db).archive, ..*old(db) })
            &&& final(db).tasks@ == old(db).tasks@.remove(i)
            &&& final(db).archive@ == old(db).archive@.push(
                ArchiveEntry { task: old(db).tasks@[i], outcome: Outcome::DeletedByUser, removed_date: today },
            )
        },
{
    match position_of(&db.tasks, id) {
        None => Err(EngineError::TaskNotFound),
        Some(pos) => {
            let task = db.tasks.remove(pos);
            db.archive.push(ArchiveEntry { outcome: Outcome::DeletedByUser, removed_date: today, task });
            Ok(())
        },
    }
}


// ---------------------------------------------------------------------------
// Adding tasks

pub open spec fn is_lower_hex(c: char) -> bool {
    ('0' <= c && c <= '9') || ('a' <= c && c <= 'f')
}

/// The text of a random (version 4) UUID as `uuid` writes it:
/// `xxxxxxxx-xxxx-4xxx-Nxxx-xxxxxxxxxxxx` in lower-case hex, `N` one of 8, 9, a, b.
pub open spec fn uuid_v4_text(s: Seq<char>) -> bool {
    &&& s.len() == 36
    &&& forall|i: int|
        0 <= i < 36 ==> if i == 8 || i == 13 || i == 18 || i == 23 {
            #[trigger] s[i] == '-'
        } else {
            is_lower_hex(s[i])
        }
    &&& s[14] == '4'
    &&& (s[19] == '8' || s[19] == '9' || s[19] == 'a' || s[19] == 'b')
}

/// Calls uuid's `Uuid::new_v4` and formats it with `to_string`. The value is
/// random: claimed is only its shape, a hyphenated lower-case version-4 UUID
/// (the version and variant bits are fixed by `new_v4`). That two calls give
/// different ids is not stated. `new_v4` panics where the system offers no
/// random bytes; that rests on the machine.
#[verifier::external_body]
fn new_task_id() -> (r: String)
    ensures
        uuid_v4_text(r@),
{
    uuid::Uuid::new_v4().to_string()
}

/// `new` is `old` with one task added at the end: id `id`, text `text` without
/// its surrounding white space, created `today`, not done, due only if it is
/// `Limited`; and the engine is anchored at `today` if it had no day yet.
pub open spec fn added_task(
    old: Database,
    new: Database,
    today: Day,
    text: Seq<char>,
    kind: Kind,
    due_date: Option<Day>,
    id: String,
) -> bool {
    &&& new == (Database { tasks: new.tasks, last_active_date: new.last_active_date, ..old })
    &&& new.last_active_date == (if old.last_active_date is None {
        Some(today)
    } else {
        old.last_active_date
    })
    &&& new.tasks@.len() == old.tasks@.len() + 1
    &&& new.tasks@.drop_last() == old.tasks@
    &&& new.tasks@.last() == (Task {
        id,
        text: new.tasks@.last().text,
        kind,
        due_date: if kind == Kind::Limited { due_date } else { None },
        created_date: today,
        done_date: None,
    })
    &&& new.tasks@.last().text@ == trimmed(text)
}

/// Add a task with the given id. An empty text (after trimming) is refused
/// first, then a `Limited` task without a due day.
pub fn add_task_with_id(
    db: &mut Database,
    today: Day,
    text: &str,
    kind: Kind,
    due_date: Option<Day>,
    id: String,
) -> (r: Result<String, EngineError>)
    ensures
        well_formed(*old(db)) ==> well_formed(*final(db)),
        trimmed(text@).len() == 0 ==> r == Err::<String, EngineError>(EngineError::EmptyText),
        trimmed(text@).len() != 0 && kind == Kind::Limited && due_date is None ==> r == Err::<
            String,
            EngineError,
        >(EngineError::DueDateRequired),
        trimmed(text@).len() != 0 && !(kind == Kind::Limited && due_date is None) ==> r == Ok::<
            String,
            EngineError,
        >(id),
        r is Err ==> *final(db) == *old(db),
        r is Ok ==> added_task(*old(db), *final(db), today, text@, kind, due_date, id),
{
    let text = crate::text::trim_str(text);
    if text.is_empty() {
        return Err(EngineError::EmptyText);
    }
    if kind == Kind::Limited && due_date.is_none() {
        return Err(EngineError::DueDateRequired);
    }
    // Invariant: a database with tasks has a day anchor, else the next
    // roll_over would take the first anchoring for a step forward.
    if db.last_active_date.is_none() {
        db.last_active_date = Some(today);
    }
    let stored_id = id.clone();
    db.tasks.push(
        Task {
            id: stored_id,
            text: text.to_owned(),
            kind,
            due_date: if kind == Kind::Limited { due_date } else { None },
            created_date: today,
            done_date: None,
        },
    );
    assert(db.tasks@.drop_last() =~= old(db).tasks@);
    Ok(id)
}

/// Add a task under a fresh random id and return that id. An empty text (after
/// trimming) is refused first, then a `Limited` task without a due day.
pub fn add_task(db: &mut Database, today: Day, text: &str, kind: Kind, due_date: Option<Day>) -> (r:
    Result<String, EngineError>)
    ensures
        well_formed(*old(db)) ==> well_formed(*final(db)),
        trimmed(text@).len() == 0 ==> r == Err::<String, EngineError>(EngineError::EmptyText),
        trimmed(text@).len() != 0 && kind == Kind::Limited && due_date is None ==> r == Err::<
            String,
            EngineError,
        >(EngineError::DueDateRequired),
        trimmed(text@).len() != 0 && !(kind == Kind::Limited && due_date is None) ==> r is Ok,
        r is Err ==> *final(db) == *old(db),
        r matches Ok(id) ==> uuid_v4_text(id@) && added_task(
            *old(db),
            *final(db),
            today,
            text@,
            kind,
            due_date,
            id,
        ),
{
    let trimmed_text = crate::text::trim_str(text);
    if trimmed_text.is_empty() {
        return Err(EngineError::EmptyText);
    }
    if kind == Kind::Limited && due_date.is_none() {
        return Err(EngineError::DueDateRequired);
    }
    let id = new_task_id();
    add_task_with_id(db, today, text, kind, due_date, id)
}


// ---------------------------------------------------------------------------
// Counting

/// Tasks of kind `k`.
pub open spec fn count_kind(ts: Seq<Task>, k: Kind) -> nat
    decreases ts.len(),
{
    if ts.len() == 0 {
        0
    } else {
        count_kind(ts.drop_last(), k) + if ts.last().kind == k { 1nat } else { 0nat }
    }
}

/// Tasks of kind `k` that are ticked off.
pub open spec fn count_kind_done(ts: Seq<Task>, k: Kind) -> nat
    decreases ts.len(),
{
    if ts.len() == 0 {
        0
    } else {
        count_kind_done(ts.drop_last(), k) + if ts.last().kind == k && ts.last().done_date is Some {
            1nat
        } else {
            0nat
        }
    }
}

/// Tasks that are ticked off.
pub open spec fn count_done(ts: Seq<Task>) -> nat
    decreases ts.len(),
{
    if ts.len() == 0 {
        0
    } else {
        count_done(ts.drop_last()) + if ts.last().done_date is Some { 1nat } else { 0nat }
    }
}

// ---------------------------------------------------------------------------
// The day-by-day life cycle

/// The engine's lists: the task list, the archive and the daily log.
#[verifier::ext_equal]
pub struct Ledger {
    pub tasks: Seq<Task>,
    pub archive: Seq<ArchiveEntry>,
    pub log: Seq<DailyLogEntry>,
}

pub open spec fn ledger(db: Database) -> Ledger {
    Ledger { tasks: db.tasks@, archive: db.archive@, log: db.daily_log@ }
}

/// The log record of a closing day `date` whose final task list is `ts`; a day
/// without any task leaves no record. Counts are kept as `u32`.
pub open spec fn day_record(ts: Seq<Task>, date: Day) -> Seq<DailyLogEntry> {
    if (ts.len() as u32) > 0 {
        seq![
            DailyLogEntry {
                date,
                done_daily: count_kind_done(ts, Kind::Daily) as u32,
                total_daily: count_kind(ts, Kind::Daily) as u32,
                done_all: count_done(ts) as u32,
                total_all: ts.len() as u32,
            },
        ]
    } else {
        seq![]
    }
}

/// The task was ticked off on a day before `day`.
pub open spec fn done_before(t: Task, day: Day) -> bool {
    t.done_date matches Some(done) && done.ce < day.ce
}

/// The task is `Limited`, not done, and its due day lies before `day`.
pub open spec fn overdue(t: Task, day: Day) -> bool {
    &&& t.kind == Kind::Limited
    &&& t.done_date is None
    &&& t.due_date matches Some(due) && due.ce < day.ce
}

/// First step of a new day `day`: of the tasks ticked off before it, daily
/// ones become undone again and the others leave for the archive as
/// completed. Returns the new list and the archive entries, in list order.
pub open spec fn clear_done(ts: Seq<Task>, day: Day) -> (Seq<Task>, Seq<ArchiveEntry>)
    decreases ts.len(),
{
    if ts.len() == 0 {
        (seq![], seq![])
    } else {
        let (kept, gone) = clear_done(ts.drop_last(), day);
        let t = ts.last();
        if done_before(t, day) {
            if t.kind == Kind::Daily {
                (kept.push(Task { done_date: None, ..t }), gone)
            } else {
                (
                    kept,
                    gone.push(ArchiveEntry { task: t, outcome: Outcome::CompletedOn, removed_date: day }),
                )
            }
        } else {
            (kept.push(t), gone)
        }
    }
}

/// Second step of a new day `day`: unfinished `Limited` tasks whose due day
/// has passed leave for the archive as expired.
pub open spec fn expire_due(ts: Seq<Task>, day: Day) -> (Seq<Task>, Seq<ArchiveEntry>)
    decreases ts.len(),
{
    if ts.len() == 0 {
        (seq![], seq![])
    } else {
        let (kept, gone) = expire_due(ts.drop_last(), day);
        let t = ts.last();
        if overdue(t, day) {
            (
                kept,
                gone.push(ArchiveEntry { task: t, outcome: Outcome::ExpiredUnfinished, removed_date: day }),
            )
        } else {
            (kept.push(t), gone)
        }
    }
}

/// Closing day `c` (a day number): record it in the log, then run both steps
/// of day `c + 1`.
pub open spec fn close_day(s: Ledger, c: int) -> Ledger {
    let next = Day { ce: (c + 1) as i32 };
    let cleared = clear_done(s.tasks, next);
    let expired = expire_due(cleared.0, next);
    Ledger {
        tasks: expired.0,
        archive: s.archive + cleared.1 + expired.1,
        log: s.log + day_record(s.tasks, Day { ce: c as i32 }),
    }
}

/// Closing the days `from`, `from + 1`, ..., `to - 1` one after the other.
pub open spec fn replay(s: Ledger, from: int, to: int) -> Ledger
    decreases to - from,
{
    if from >= to {
        s
    } else {
        replay(close_day(s, from), from + 1, to)
    }
}

/// What `roll_over` makes of the lists and of the last active day.
pub open spec fn advance(s: Ledger, last: Option<Day>, today: Day) -> (Ledger, Option<Day>) {
    match last {
        None => (s, Some(today)),
        Some(l) => if today.ce <= l.ce {
            (s, last)
        } else {
            (replay(s, l.ce as int, today.ce as int), Some(today))
        },
    }
}

/// Append the record of the closing day `date` to the log.
fn snapshot_daily_log(db: &mut Database, date: Day)
    ensures
        *final(db) == (Database { daily_log: final(db).daily_log, ..*old(db) }),
        final(db).daily_log@ == old(db).daily_log@ + day_record(old(db).tasks@, date),
{
    let mut done_daily: usize = 0;
    let mut total_daily: usize = 0;
    let mut done_all: usize = 0;
    let mut i: usize = 0;
    while i < db.tasks.len()
        invariant
            i <= db.tasks@.len(),
            done_daily == count_kind_done(db.tasks@.take(i as int), Kind::Daily),
            total_daily == count_kind(db.tasks@.take(i as int), Kind::Daily),
            done_all == count_done(db.tasks@.take(i as int)),
            done_daily <= i && total_daily <= i && done_all <= i,
        decreases db.tasks@.len() - i,
    {
        proof {
            assert(db.tasks@.take(i + 1).drop_last() =~= db.tasks@.take(i as int));
        }
        if db.tasks[i].kind == Kind::Daily {
            total_daily = total_daily + 1;
            if db.tasks[i].done_date.is_some() {
                done_daily = done_daily + 1;
            }
        }
        if db.tasks[i].done_date.is_some() {
            done_all = done_all + 1;
        }
        i = i + 1;
    }
    proof {
        assert(db.tasks@.take(i as int) =~= db.tasks@);
    }
    let total_all = db.tasks.len() as u32;
    // A day without any task is not recorded.
    if total_all > 0 {
        db.daily_log.push(
            DailyLogEntry {
                date,
                done_daily: done_daily as u32,
                total_daily: total_daily as u32,
                done_all: done_all as u32,
                total_all,
            },
        );
    }
    proof {
        if total_all == 0 {
            assert(db.daily_log@ =~= old(db).daily_log@ + day_record(old(db).tasks@, date));
        }
    }
}

/// First step of day `day` on the lists.
fn clear_done_tasks(tasks: &mut Vec<Task>, archive: &mut Vec<ArchiveEntry>, day: Day)
    ensures
        final(tasks)@ == clear_done(old(tasks)@, day).0,
        final(archive)@ == old(archive)@ + clear_done(old(tasks)@, day).1,
{
    let ghost orig = tasks@;
    let ghost arch0 = archive@;
    let ghost mut k: int = 0;
    let mut i: usize = 0;
    while i < tasks.len()
        invariant
            i <= tasks@.len(),
            0 <= k <= orig.len(),
            tasks@.take(i as int) == clear_done(orig.take(k), day).0,
            tasks@.skip(i as int) == orig.skip(k),
            archive@ == arch0 + clear_done(orig.take(k), day).1,
        decreases tasks@.len() - i,
    {
        let ghost before = tasks@;
        let ghost i0 = i as int;
        let ghost k0 = k;
        proof {
            assert(tasks@.skip(i as int).len() > 0);
            assert(orig.skip(k).len() == orig.len() - k);
            assert(tasks@.skip(i as int)[0] == orig.skip(k)[0]);
            assert(orig.take(k + 1).drop_last() =~= orig.take(k));
            assert(orig.take(k + 1).last() == before[i as int]);
        }
        let expired_done = match tasks[i].done_date {
            Some(done) => done.ce < day.ce,
            None => false,
        };
        if expired_done {
            match tasks[i].kind {
                Kind::Daily => {
                    tasks[i].done_date = None;
                    i = i + 1;
                },
                Kind::Open | Kind::Limited => {
                    let task = tasks.remove(i);
                    archive.push(ArchiveEntry { outcome: Outcome::CompletedOn, removed_date: day, task });
                },
            }
        } else {
            i = i + 1;
        }
        proof {
            k = k + 1;
            assert(before.take(i0).push(before[i0]) =~= before.take(i0 + 1));
            assert(tasks@.take(i as int) =~= clear_done(orig.take(k), day).0);
            assert(tasks@.len() - i == before.len() - i0 - 1);
            assert forall|j: int| 0 <= j < tasks@.len() - i implies #[trigger] tasks@.skip(i as int)[j]
                == orig.skip(k)[j] by {
                assert(before.skip(i0)[j + 1] == orig.skip(k0)[j + 1]);
            }
            assert(tasks@.skip(i as int) =~= orig.skip(k));
            assert(archive@ =~= arch0 + clear_done(orig.take(k), day).1);
        }
    }
    proof {
        assert(orig.take(k) =~= orig);
        assert(tasks@.take(i as int) =~= tasks@);
    }
}

/// Second step of day `day` on the lists.
fn expire_due_tasks(tasks: &mut Vec<Task>, archive: &mut Vec<ArchiveEntry>, day: Day)
    ensures
        final(tasks)@ == expire_due(old(tasks)@, day).0,
        final(archive)@ == old(archive)@ + expire_due(old(tasks)@, day).1,
{
    let ghost orig = tasks@;
    let ghost arch0 = archive@;
    let ghost mut k: int = 0;
    let mut i: usize = 0;
    while i < tasks.len()
        invariant
            i <= tasks@.len(),
            0 <= k <= orig.len(),
            tasks@.take(i as int) == expire_due(orig.take(k), day).0,
            tasks@.skip(i as int) == orig.skip(k),
            archive@ == arch0 + expire_due(orig.take(k), day).1,
        decreases tasks@.len() - i,
    {
        let ghost before = tasks@;
        let ghost i0 = i as int;
        let ghost k0 = k;
        proof {
            assert(tasks@.skip(i as int).len() > 0);
            assert(orig.skip(k).len() == orig.len() - k);
            assert(tasks@.skip(i as int)[0] == orig.skip(k)[0]);
            assert(orig.take(k + 1).drop_last() =~= orig.take(k));
            assert(orig.take(k + 1).last() == before[i as int]);
        }
        let due_passed = tasks[i].kind == Kind::Limited && tasks[i].done_date.is_none() && match tasks[i].due_date {
            Some(due) => due.ce < day.ce,
            None => false,
        };
        if due_passed {
            let task = tasks.remove(i);
            archive.push(ArchiveEntry { outcome: Outcome::ExpiredUnfinished, removed_date: day, task });
        } else {
            i = i + 1;
        }
        proof {
            k = k + 1;
            assert(before.take(i0).push(before[i0]) =~= before.take(i0 + 1));
            assert(tasks@.take(i as int) =~= expire_due(orig.take(k), day).0);
            assert(tasks@.len() - i == before.len() - i0 - 1);
            assert forall|j: int| 0 <= j < tasks@.len() - i implies #[trigger] tasks@.skip(i as int)[j]
                == orig.skip(k)[j] by {
                assert(before.skip(i0)[j + 1] == orig.skip(k0)[j + 1]);
            }
            assert(tasks@.skip(i as int) =~= orig.skip(k));
            assert(archive@ =~= arch0 + expire_due(orig.take(k), day).1);
        }
    }
    proof {
        assert(orig.take(k) =~= orig);
        assert(tasks@.take(i as int) =~= tasks@);
    }
}


/// Bring the database forward to `today`. Each new day `d` after the last
/// active day first records the day before it in the log, then (1) clears the
/// tasks ticked off before `d` (daily ones reset, others archived as
/// completed on `d`) and (2) archives unfinished `Limited` tasks due before
/// `d` as expired on `d`. A new database is only anchored at `today`.
/// Returns whether anything moved.
pub fn roll_over(db: &mut Database, today: Day) -> (r: bool)
    requires
        today.valid(),
        old(db).last_active_date matches Some(last) ==> last.valid(),
    ensures
        well_formed(*old(db)) ==> well_formed(*final(db)),
        r == match old(db).last_active_date {
            None => true,
            Some(last) => last.ce < today.ce,
        },
        (ledger(*final(db)), final(db).last_active_date) == advance(
            ledger(*old(db)),
            old(db).last_active_date,
            today,
        ),
        *final(db) == (Database {
            tasks: final(db).tasks,
            archive: final(db).archive,
            daily_log: final(db).daily_log,
            last_active_date: final(db).last_active_date,
            ..*old(db)
        }),
{
    let last = match db.last_active_date {
        None => {
            db.last_active_date = Some(today);
            return true;
        },
        Some(last) => last,
    };
    if today.ce <= last.ce {
        return false;
    }
    let mut d = last;
    while d.ce < today.ce
        invariant
            last.valid(),
            today.valid(),
            last.ce <= d.ce <= today.ce,
            old(db).last_active_date == Some(last),
            replay(ledger(*db), d.ce as int, today.ce as int) == replay(
                ledger(*old(db)),
                last.ce as int,
                today.ce as int,
            ),
            *db == (Database {
                tasks: db.tasks,
                archive: db.archive,
                daily_log: db.daily_log,
                ..*old(db)
            }),
        decreases today.ce - d.ce,
    {
        let ghost before = ledger(*db);
        let ghost closing = d.ce as int;
        // Close the day `d`: its final task list goes to the log first.
        snapshot_daily_log(db, d);
        d = d.succ_opt().expect("date overflow");
        clear_done_tasks(&mut db.tasks, &mut db.archive, d);
        expire_due_tasks(&mut db.tasks, &mut db.archive, d);
        proof {
            assert(ledger(*db) =~= close_day(before, closing));
        }
    }
    db.last_active_date = Some(today);
    proof {
        if well_formed(*old(db)) {
            assert(all_well_formed(ledger(*old(db)).tasks));
            lemma_replay_well_formed(ledger(*old(db)), last.ce as int, today.ce as int);
            assert(all_well_formed(db.tasks@));
        }
    }
    true
}


// ---------------------------------------------------------------------------
// Laws of the life cycle

proof fn lemma_clear_done_conserves(ts: Seq<Task>, day: Day)
    ensures
        clear_done(ts, day).0.len() + clear_done(ts, day).1.len() == ts.len(),
        count_kind(clear_done(ts, day).0, Kind::Daily) == count_kind(ts, Kind::Daily),
    decreases ts.len(),
{
    if ts.len() > 0 {
        lemma_clear_done_conserves(ts.drop_last(), day);
        let (kept, gone) = clear_done(ts.drop_last(), day);
        let t = ts.last();
        if done_before(t, day) && t.kind == Kind::Daily {
            assert(kept.push(Task { done_date: None, ..t }).drop_last() =~= kept);
        } else if !done_before(t, day) {
            assert(kept.push(t).drop_last() =~= kept);
        }
    }
}

proof fn lemma_expire_due_conserves(ts: Seq<Task>, day: Day)
    ensures
        expire_due(ts, day).0.len() + expire_due(ts, day).1.len() == ts.len(),
        count_kind(expire_due(ts, day).0, Kind::Daily) == count_kind(ts, Kind::Daily),
    decreases ts.len(),
{
    if ts.len() > 0 {
        lemma_expire_due_conserves(ts.drop_last(), day);
        let (kept, gone) = expire_due(ts.drop_last(), day);
        let t = ts.last();
        if !overdue(t, day) {
            assert(kept.push(t).drop_last() =~= kept);
        }
    }
}

proof fn lemma_clear_done_well_formed(ts: Seq<Task>, day: Day)
    requires
        all_well_formed(ts),
    ensures
        all_well_formed(clear_done(ts, day).0),
    decreases ts.len(),
{
    if ts.len() > 0 {
        assert(all_well_formed(ts.drop_last()));
        lemma_clear_done_well_formed(ts.drop_last(), day);
        assert(task_well_formed(ts[ts.len() - 1]));
    }
}

proof fn lemma_expire_due_well_formed(ts: Seq<Task>, day: Day)
    requires
        all_well_formed(ts),
    ensures
        all_well_formed(expire_due(ts, day).0),
    decreases ts.len(),
{
    if ts.len() > 0 {
        assert(all_well_formed(ts.drop_last()));
        lemma_expire_due_well_formed(ts.drop_last(), day);
        assert(task_well_formed(ts[ts.len() - 1]));
    }
}

proof fn lemma_replay_well_formed(s: Ledger, from: int, to: int)
    requires
        all_well_formed(s.tasks),
    ensures
        all_well_formed(replay(s, from, to).tasks),
    decreases to - from,
{
    if from < to {
        let next = Day { ce: (from + 1) as i32 };
        lemma_clear_done_well_formed(s.tasks, next);
        lemma_expire_due_well_formed(clear_done(s.tasks, next).0, next);
        lemma_replay_well_formed(close_day(s, from), from + 1, to);
    }
}

/// Law: closing days in two stretches, `from..mid` then `mid..to`, gives what
/// closing `from..to` at once gives.
pub proof fn lemma_replay_split(s: Ledger, from: int, mid: int, to: int)
    requires
        from <= mid <= to,
    ensures
        replay(replay(s, from, mid), mid, to) == replay(s, from, to),
    decreases mid - from,
{
    if from < mid {
        lemma_replay_split(close_day(s, from), from + 1, mid, to);
    }
}

/// Law (the ground of catching up after sleep): bringing the engine forward
/// to `t1` and then to a later `t2` gives exactly what bringing it to `t2` at
/// once gives, once the engine has a day anchor.
pub proof fn law_roll_over_span_equals_stepwise(s: Ledger, last: Day, t1: Day, t2: Day)
    requires
        t1.ce <= t2.ce,
    ensures
        ({
            let step = advance(s, Some(last), t1);
            advance(step.0, step.1, t2)
        }) == advance(s, Some(last), t2),
{
    if last.ce < t1.ce {
        lemma_replay_split(s, last.ce as int, t1.ce as int, t2.ce as int);
    }
}

/// Law: bringing the engine to the same day twice changes nothing the second
/// time.
pub proof fn law_roll_over_idempotent(s: Ledger, last: Option<Day>, today: Day)
    ensures
        ({
            let step = advance(s, last, today);
            advance(step.0, step.1, today)
        }) == advance(s, last, today),
{
}

/// Law: closing days destroys no task. The archive only grows at its end, the
/// tasks that leave the list are exactly the new archive entries, and daily
/// tasks never leave the list.
pub proof fn law_replay_keeps_every_task(s: Ledger, from: int, to: int)
    ensures
        replay(s, from, to).archive.len() >= s.archive.len(),
        replay(s, from, to).archive.take(s.archive.len() as int) == s.archive,
        replay(s, from, to).tasks.len() + replay(s, from, to).archive.len() == s.tasks.len()
            + s.archive.len(),
        count_kind(replay(s, from, to).tasks, Kind::Daily) == count_kind(s.tasks, Kind::Daily),
    decreases to - from,
{
    if from < to {
        let next = Day { ce: (from + 1) as i32 };
        lemma_clear_done_conserves(s.tasks, next);
        lemma_expire_due_conserves(clear_done(s.tasks, next).0, next);
        let c = close_day(s, from);
        law_replay_keeps_every_task(c, from + 1, to);
        let r = replay(c, from + 1, to);
        assert forall|j: int| 0 <= j < s.archive.len() implies #[trigger] r.archive[j] == s.archive[j] by {
            assert(r.archive.take(c.archive.len() as int)[j] == c.archive[j]);
        }
        assert(r.archive.take(s.archive.len() as int) =~= s.archive);
    } else {
        assert(s.archive.take(s.archive.len() as int) =~= s.archive);
    }
}


// ---------------------------------------------------------------------------
// Where every task goes when days close

/// `k` is the task `t` itself, or the daily task `t` made undone again.
pub open spec fn kept_as(k: Task, t: Task) -> bool {
    k == t || (t.kind == Kind::Daily && k == Task { done_date: None, ..t })
}

/// A task with the completion of a daily task forgotten.
pub open spec fn norm(t: Task) -> Task {
    if t.kind == Kind::Daily {
        Task { done_date: None, ..t }
    } else {
        t
    }
}

pub open spec fn normed(ts: Seq<Task>) -> Seq<Task> {
    ts.map_values(|t: Task| norm(t))
}

/// The tasks of archive entries.
pub open spec fn tasks_of(a: Seq<ArchiveEntry>) -> Seq<Task> {
    a.map_values(|e: ArchiveEntry| e.task)
}

/// `f` places each task of `small` at increasing positions of `big`, where it
/// stands unchanged or as the same daily task made undone.
pub open spec fn embeds(small: Seq<Task>, big: Seq<Task>, f: Seq<int>) -> bool {
    &&& f.len() == small.len()
    &&& forall|i: int| 0 <= i < f.len() ==> 0 <= #[trigger] f[i] < big.len() && kept_as(small[i], big[f[i]])
    &&& forall|i: int, j: int| 0 <= i < j < f.len() ==> #[trigger] f[i] < #[trigger] f[j]
}

/// The list `ts` became `kept`, and `gone` was archived, with no task lost or
/// made up: `kept` keeps its tasks in order, changed at most by a daily task
/// made undone; every task that left is archived unchanged, exactly once; and
/// nothing else is archived.
pub open spec fn tracks(ts: Seq<Task>, kept: Seq<Task>, gone: Seq<ArchiveEntry>) -> bool {
    &&& exists|f: Seq<int>| embeds(kept, ts, f)
    &&& normed(ts).to_multiset() == normed(kept).to_multiset().add(tasks_of(gone).to_multiset())
    &&& forall|j: int|
        0 <= j < gone.len() ==> (#[trigger] gone[j]).task.kind != Kind::Daily && ts.contains(
            gone[j].task,
        )
}

proof fn lemma_tracks_step(
    ts: Seq<Task>,
    kept: Seq<Task>,
    gone: Seq<ArchiveEntry>,
    f: Seq<int>,
    new_kept: Seq<Task>,
    new_gone: Seq<ArchiveEntry>,
    new_f: Seq<int>,
    t: Task,
)
    requires
        embeds(kept, ts, f),
        normed(ts).to_multiset() == normed(kept).to_multiset().add(tasks_of(gone).to_multiset()),
        forall|j: int|
            0 <= j < gone.len() ==> (#[trigger] gone[j]).task.kind != Kind::Daily && ts.contains(
                gone[j].task,
            ),
        ({
            ||| exists|x: Task|
                kept_as(x, t) && new_kept == kept.push(x) && new_gone == gone && new_f == f.push(
                    ts.len() as int,
                )
            ||| t.kind != Kind::Daily && new_kept == kept && new_f == f && exists|e: ArchiveEntry|
                e.task == t && new_gone == gone.push(e)
        }),
    ensures
        embeds(new_kept, ts.push(t), new_f),
        normed(ts.push(t)).to_multiset() == normed(new_kept).to_multiset().add(
            tasks_of(new_gone).to_multiset(),
        ),
        forall|j: int|
            0 <= j < new_gone.len() ==> (#[trigger] new_gone[j]).task.kind != Kind::Daily && ts.push(
                t,
            ).contains(new_gone[j].task),
{
    broadcast use vstd::seq_lib::group_to_multiset_ensures;
    broadcast use vstd::multiset::group_multiset_axioms;

    let big = ts.push(t);
    assert(normed(big) =~= normed(ts).push(norm(t)));
    assert forall|j: int| 0 <= j < gone.len() implies big.contains(#[trigger] gone[j].task) by {
        let i = choose|i: int| 0 <= i < ts.len() && ts[i] == gone[j].task;
        assert(big[i] == ts[i]);
    }
    if exists|x: Task|
        kept_as(x, t) && new_kept == kept.push(x) && new_gone == gone && new_f == f.push(ts.len() as int) {
        let x = choose|x: Task|
            kept_as(x, t) && new_kept == kept.push(x) && new_gone == gone && new_f == f.push(
                ts.len() as int,
            );
        assert(normed(new_kept) =~= normed(kept).push(norm(x)));
        assert(norm(x) == norm(t));
        assert(forall|i: int| 0 <= i < f.len() ==> big[#[trigger] f[i]] == ts[f[i]]);
        assert(normed(big).to_multiset() =~= normed(new_kept).to_multiset().add(
            tasks_of(new_gone).to_multiset(),
        ));
    } else {
        let e = choose|e: ArchiveEntry| e.task == t && new_gone == gone.push(e);
        assert(tasks_of(new_gone) =~= tasks_of(gone).push(t));
        assert(forall|i: int| 0 <= i < f.len() ==> big[#[trigger] f[i]] == ts[f[i]]);
        assert(normed(big).to_multiset() =~= normed(new_kept).to_multiset().add(
            tasks_of(new_gone).to_multiset(),
        ));
        assert(new_gone[gone.len() as int] == e);
        assert(big[ts.len() as int] == t);
    }
}

proof fn lemma_clear_done_tracks(ts: Seq<Task>, day: Day) -> (f: Seq<int>)
    ensures
        embeds(clear_done(ts, day).0, ts, f),
        normed(ts).to_multiset() == normed(clear_done(ts, day).0).to_multiset().add(
            tasks_of(clear_done(ts, day).1).to_multiset(),
        ),
        forall|j: int|
            0 <= j < clear_done(ts, day).1.len() ==> (#[trigger] clear_done(ts, day).1[j]).task.kind
                != Kind::Daily && ts.contains(clear_done(ts, day).1[j].task),
    decreases ts.len(),
{
    broadcast use vstd::seq_lib::group_to_multiset_ensures;
    broadcast use vstd::multiset::group_multiset_axioms;

    if ts.len() == 0 {
        assert(normed(ts).to_multiset() =~= normed(clear_done(ts, day).0).to_multiset().add(
            tasks_of(clear_done(ts, day).1).to_multiset(),
        ));
        Seq::empty()
    } else {
        let p = ts.drop_last();
        let t = ts.last();
        let f0 = lemma_clear_done_tracks(p, day);
        let (kept, gone) = clear_done(p, day);
        assert(p.push(t) =~= ts);
        if done_before(t, day) && t.kind != Kind::Daily {
            let e = ArchiveEntry { task: t, outcome: Outcome::CompletedOn, removed_date: day };
            lemma_tracks_step(p, kept, gone, f0, kept, gone.push(e), f0, t);
            f0
        } else {
            let x = if done_before(t, day) {
                Task { done_date: None, ..t }
            } else {
                t
            };
            let f = f0.push(p.len() as int);
            lemma_tracks_step(p, kept, gone, f0, kept.push(x), gone, f, t);
            f
        }
    }
}

proof fn lemma_expire_due_tracks(ts: Seq<Task>, day: Day) -> (f: Seq<int>)
    ensures
        embeds(expire_due(ts, day).0, ts, f),
        normed(ts).to_multiset() == normed(expire_due(ts, day).0).to_multiset().add(
            tasks_of(expire_due(ts, day).1).to_multiset(),
        ),
        forall|j: int|
            0 <= j < expire_due(ts, day).1.len() ==> (#[trigger] expire_due(ts, day).1[j]).task.kind
                != Kind::Daily && ts.contains(expire_due(ts, day).1[j].task),
    decreases ts.len(),
{
    broadcast use vstd::seq_lib::group_to_multiset_ensures;
    broadcast use vstd::multiset::group_multiset_axioms;

    if ts.len() == 0 {
        assert(normed(ts).to_multiset() =~= normed(expire_due(ts, day).0).to_multiset().add(
            tasks_of(expire_due(ts, day).1).to_multiset(),
        ));
        Seq::empty()
    } else {
        let p = ts.drop_last();
        let t = ts.last();
        let f0 = lemma_expire_due_tracks(p, day);
        let (kept, gone) = expire_due(p, day);
        assert(p.push(t) =~= ts);
        if overdue(t, day) {
            let e = ArchiveEntry { task: t, outcome: Outcome::ExpiredUnfinished, removed_date: day };
            lemma_tracks_step(p, kept, gone, f0, kept, gone.push(e), f0, t);
            f0
        } else {
            let f = f0.push(p.len() as int);
            lemma_tracks_step(p, kept, gone, f0, kept.push(t), gone, f, t);
            f
        }
    }
}

proof fn lemma_tracks_compose(
    ts: Seq<Task>,
    k1: Seq<Task>,
    g1: Seq<ArchiveEntry>,
    k2: Seq<Task>,
    g2: Seq<ArchiveEntry>,
)
    requires
        tracks(ts, k1, g1),
        tracks(k1, k2, g2),
    ensures
        tracks(ts, k2, g1 + g2),
{
    broadcast use vstd::multiset::group_multiset_axioms;

    let f1 = choose|f: Seq<int>| embeds(k1, ts, f);
    let f2 = choose|f: Seq<int>| embeds(k2, k1, f);
    let f = Seq::new(f2.len(), |i: int| f1[f2[i]]);
    assert forall|i: int| 0 <= i < f.len() implies 0 <= #[trigger] f[i] < ts.len() && kept_as(
        k2[i],
        ts[f[i]],
    ) by {
        assert(kept_as(k2[i], k1[f2[i]]));
        assert(kept_as(k1[f2[i]], ts[f1[f2[i]]]));
    }
    assert forall|i: int, j: int| 0 <= i < j < f.len() implies #[trigger] f[i] < #[trigger] f[j] by {
        assert(f2[i] < f2[j]);
    }
    assert(embeds(k2, ts, f));
    assert(tasks_of(g1 + g2) =~= tasks_of(g1) + tasks_of(g2));
    vstd::seq_lib::lemma_multiset_commutative(tasks_of(g1), tasks_of(g2));
    assert(normed(ts).to_multiset() =~= normed(k2).to_multiset().add(tasks_of(g1 + g2).to_multiset()));
    let g = g1 + g2;
    assert forall|j: int| 0 <= j < g.len() implies (#[trigger] g[j]).task.kind != Kind::Daily
        && ts.contains(g[j].task) by {
        if j < g1.len() {
            assert(g[j] == g1[j]);
        } else {
            let j2 = j - g1.len();
            assert(g[j] == g2[j2]);
            assert(g2[j2].task.kind != Kind::Daily && k1.contains(g2[j2].task));
            let i = choose|i: int| 0 <= i < k1.len() && k1[i] == g2[j2].task;
            assert(0 <= f1[i] < ts.len() && kept_as(k1[i], ts[f1[i]]));
            assert(ts[f1[i]] == k1[i]);
        }
    }
}

proof fn lemma_close_day_tracks(s: Ledger, c: int)
    ensures
        tracks(s.tasks, close_day(s, c).tasks, close_day(s, c).archive.skip(s.archive.len() as int)),
        close_day(s, c).archive.take(s.archive.len() as int) == s.archive,
{
    let next = Day { ce: (c + 1) as i32 };
    let cleared = clear_done(s.tasks, next);
    let expired = expire_due(cleared.0, next);
    let f1 = lemma_clear_done_tracks(s.tasks, next);
    let f2 = lemma_expire_due_tracks(cleared.0, next);
    lemma_tracks_compose(s.tasks, cleared.0, cleared.1, expired.0, expired.1);
    let a = close_day(s, c).archive;
    assert(a.skip(s.archive.len() as int) =~= cleared.1 + expired.1);
    assert(a.take(s.archive.len() as int) =~= s.archive);
}

/// Law: closing days loses no task and makes none up. The archive keeps what
/// it had; the list keeps its remaining tasks in order, changed at most by a
/// daily task made undone; every task that left the list is archived
/// unchanged, exactly once (as multisets, counting daily tasks without their
/// completion); and nothing else is archived.
pub proof fn law_replay_tracks_every_task(s: Ledger, from: int, to: int)
    ensures
        replay(s, from, to).archive.take(s.archive.len() as int) == s.archive,
        tracks(
            s.tasks,
            replay(s, from, to).tasks,
            replay(s, from, to).archive.skip(s.archive.len() as int),
        ),
    decreases to - from,
{
    broadcast use vstd::multiset::group_multiset_axioms;

    if from >= to {
        let f = Seq::new(s.tasks.len(), |i: int| i);
        assert(embeds(s.tasks, s.tasks, f));
        assert(s.archive.skip(s.archive.len() as int) =~= Seq::<ArchiveEntry>::empty());
        assert(tasks_of(s.archive.skip(s.archive.len() as int)) =~= Seq::<Task>::empty());
        assert(tasks_of(s.archive.skip(s.archive.len() as int)).to_multiset().len() == 0) by {
            broadcast use vstd::seq_lib::group_to_multiset_ensures;
        }
        assert(normed(s.tasks).to_multiset() =~= normed(s.tasks).to_multiset().add(
            tasks_of(s.archive.skip(s.archive.len() as int)).to_multiset(),
        ));
        assert(s.archive.take(s.archive.len() as int) =~= s.archive);
    } else {
        let c = close_day(s, from);
        lemma_close_day_tracks(s, from);
        law_replay_tracks_every_task(c, from + 1, to);
        law_replay_keeps_every_task(c, from + 1, to);
        let r = replay(c, from + 1, to);
        lemma_tracks_compose(
            s.tasks,
            c.tasks,
            c.archive.skip(s.archive.len() as int),
            r.tasks,
            r.archive.skip(c.archive.len() as int),
        );
        assert(c.archive.len() >= s.archive.len());
        assert(r.archive.skip(s.archive.len() as int) =~= c.archive.skip(s.archive.len() as int)
            + r.archive.skip(c.archive.len() as int)) by {
            assert forall|j: int| 0 <= j < c.archive.len() implies #[trigger] r.archive[j] == c.archive[j] by {
                assert(r.archive.take(c.archive.len() as int)[j] == c.archive[j]);
            }
        }
        assert forall|j: int| 0 <= j < s.archive.len() implies #[trigger] r.archive[j] == s.archive[j] by {
            assert(r.archive.take(c.archive.len() as int)[j] == c.archive[j]);
            assert(c.archive.take(s.archive.len() as int)[j] == s.archive[j]);
        }
        assert(r.archive.take(s.archive.len() as int) =~= s.archive);
    }
}

// ---------------------------------------------------------------------------
// Order of the list

pub open spec fn spec_kind_rank(kind: Kind) -> int {
    match kind {
        Kind::Limited => 0,
        Kind::Open => 1,
        Kind::Daily => 2,
    }
}

/// Rank of a kind in the list: `Limited` first, then `Open`, then `Daily`.
pub fn kind_rank(kind: Kind) -> (r: u8)
    ensures
        r as int == spec_kind_rank(kind),
{
    match kind {
        Kind::Limited => 0,
        Kind::Open => 1,
        Kind::Daily => 2,
    }
}

/// Rank of a task in the list: undone tasks by kind, done tasks last.
pub open spec fn task_rank(t: Task) -> int {
    if t.done_date is Some {
        3
    } else {
        spec_kind_rank(t.kind)
    }
}

/// Order of optional days: no day first, then by date.
pub open spec fn opt_day_lt(x: Option<Day>, y: Option<Day>) -> bool {
    match (x, y) {
        (None, Some(_)) => true,
        (Some(p), Some(q)) => p.ce < q.ce,
        _ => false,
    }
}

/// The day by which a task is ordered within its rank: the day it was ticked
/// off for a done task, the due day for an undone one.
pub open spec fn order_day(t: Task) -> Option<Day> {
    if t.done_date is Some {
        t.done_date
    } else {
        t.due_date
    }
}

/// Task `a` at position `ia` of the list comes before task `b` at position
/// `ib` in the view: by rank; then done tasks by the day they were ticked
/// off and undone ones by due day; then by creation day; and finally by
/// position (the sort is stable).
pub open spec fn precedes(a: Task, ia: int, b: Task, ib: int) -> bool {
    if task_rank(a) != task_rank(b) {
        task_rank(a) < task_rank(b)
    } else if order_day(a) != order_day(b) {
        opt_day_lt(order_day(a), order_day(b))
    } else if a.created_date.ce != b.created_date.ce {
        a.created_date.ce < b.created_date.ce
    } else {
        ia < ib
    }
}

pub proof fn lemma_precedes_strict_total(a: Task, ia: int, b: Task, ib: int, c: Task, ic: int)
    ensures
        !precedes(a, ia, a, ia),
        precedes(a, ia, b, ib) ==> !precedes(b, ib, a, ia),
        ia != ib ==> precedes(a, ia, b, ib) || precedes(b, ib, a, ia),
        precedes(a, ia, b, ib) && precedes(b, ib, c, ic) ==> precedes(a, ia, c, ic),
{
}

/// `p` lists the positions of `ts` in view order: each position once, and
/// every earlier entry precedes every later one.
pub open spec fn is_sorting(ts: Seq<Task>, p: Seq<usize>) -> bool {
    &&& p.len() == ts.len()
    &&& forall|k: int| 0 <= k < p.len() ==> #[trigger] p[k] < ts.len()
    &&& forall|x: usize| x < ts.len() ==> #[trigger] p.contains(x)
    &&& forall|k: int, l: int|
        0 <= k < l < p.len() ==> precedes(ts[#[trigger] p[k] as int], p[k] as int, ts[#[trigger] p[l] as int], p[l] as int)
}

fn day_opt_lt(x: Option<Day>, y: Option<Day>) -> (r: bool)
    ensures
        r == opt_day_lt(x, y),
{
    match (x, y) {
        (None, Some(_)) => true,
        (Some(p), Some(q)) => p.ce < q.ce,
        _ => false,
    }
}

fn rank_of(t: &Task) -> (r: u8)
    ensures
        r as int == task_rank(*t),
{
    if t.done_date.is_some() {
        3
    } else {
        kind_rank(t.kind)
    }
}

fn task_precedes(a: &Task, ia: usize, b: &Task, ib: usize) -> (r: bool)
    ensures
        r == precedes(*a, ia as int, *b, ib as int),
{
    let ra = rank_of(a);
    let rb = rank_of(b);
    if ra != rb {
        return ra < rb;
    }
    // Done tasks (rank 3) go by the day they were ticked off, undone ones by
    // their due day.
    let (da, db) = if ra == 3 {
        (a.done_date, b.done_date)
    } else {
        (a.due_date, b.due_date)
    };
    if !same_day_opt(da, db) {
        return day_opt_lt(da, db);
    }
    if a.created_date.ce != b.created_date.ce {
        return a.created_date.ce < b.created_date.ce;
    }
    ia < ib
}

/// Positions of the tasks in view order (a stable insertion sort).
fn sort_order(tasks: &Vec<Task>) -> (p: Vec<usize>)
    ensures
        is_sorting(tasks@, p@),
{
    let ghost ts = tasks@;
    let mut p: Vec<usize> = Vec::new();
    let mut i: usize = 0;
    while i < tasks.len()
        invariant
            ts == tasks@,
            i <= ts.len(),
            p@.len() == i,
            forall|k: int| 0 <= k < p@.len() ==> #[trigger] p@[k] < i,
            forall|x: usize| x < i ==> #[trigger] p@.contains(x),
            forall|k: int, l: int|
                0 <= k < l < p@.len() ==> precedes(
                    ts[#[trigger] p@[k] as int],
                    p@[k] as int,
                    ts[#[trigger] p@[l] as int],
                    p@[l] as int,
                ),
        decreases ts.len() - i,
    {
        // Find the first entry that the new task precedes.
        let mut j: usize = 0;
        while j < p.len()
            invariant
                ts == tasks@,
                i < ts.len(),
                j <= p@.len(),
                forall|k: int| 0 <= k < p@.len() ==> #[trigger] p@[k] < i,
                forall|m: int|
                    0 <= m < j ==> precedes(ts[#[trigger] p@[m] as int], p@[m] as int, ts[i as int], i as int),
            ensures
                j <= p@.len(),
                forall|m: int|
                    0 <= m < j ==> precedes(ts[#[trigger] p@[m] as int], p@[m] as int, ts[i as int], i as int),
                j < p@.len() ==> precedes(ts[i as int], i as int, ts[p@[j as int] as int], p@[j as int] as int),
            decreases p@.len() - j,
        {
            let pj = p[j];
            if task_precedes(&tasks[i], i, &tasks[pj], pj) {
                break;
            }
            proof {
                lemma_precedes_strict_total(ts[i as int], i as int, ts[pj as int], pj as int, ts[0], 0);
            }
            j = j + 1;
        }
        let ghost old_p = p@;
        proof {
            if j < old_p.len() {
                assert forall|l: int| j <= l < old_p.len() implies precedes(
                    ts[i as int],
                    i as int,
                    ts[#[trigger] old_p[l] as int],
                    old_p[l] as int,
                ) by {
                    if l > j {
                        lemma_precedes_strict_total(
                            ts[i as int],
                            i as int,
                            ts[old_p[j as int] as int],
                            old_p[j as int] as int,
                            ts[old_p[l] as int],
                            old_p[l] as int,
                        );
                    }
                }
            }
        }
        p.insert(j, i);
        proof {
            let np = p@;
            assert(np.len() == old_p.len() + 1);
            assert forall|k: int| 0 <= k < np.len() implies #[trigger] np[k] < i + 1 by {
                if k < j {
                    assert(np[k] == old_p[k]);
                } else if k > j {
                    assert(np[k] == old_p[k - 1]);
                }
            }
            assert forall|x: usize| x < i + 1 implies #[trigger] np.contains(x) by {
                if x == i {
                    assert(np[j as int] == i);
                } else {
                    assert(old_p.contains(x));
                    let k = choose|k: int| 0 <= k < old_p.len() && old_p[k] == x;
                    if k < j {
                        assert(np[k] == old_p[k]);
                    } else {
                        assert(np[k + 1] == old_p[k]);
                    }
                }
            }
            assert forall|k: int, l: int| 0 <= k < l < np.len() implies precedes(
                ts[#[trigger] np[k] as int],
                np[k] as int,
                ts[#[trigger] np[l] as int],
                np[l] as int,
            ) by {
                if l < j {
                    assert(np[k] == old_p[k] && np[l] == old_p[l]);
                } else if l == j {
                    assert(np[k] == old_p[k]);
                } else if k < j {
                    assert(np[k] == old_p[k] && np[l] == old_p[l - 1]);
                    lemma_precedes_strict_total(
                        ts[old_p[k] as int],
                        old_p[k] as int,
                        ts[i as int],
                        i as int,
                        ts[old_p[l - 1] as int],
                        old_p[l - 1] as int,
                    );
                } else if k == j {
                    assert(np[l] == old_p[l - 1]);
                } else {
                    assert(np[k] == old_p[k - 1] && np[l] == old_p[l - 1]);
                }
            }
        }
        i = i + 1;
    }
    p
}

/// The tasks in view order: undone before done; undone ones `Limited` (by
/// due day), then `Open`, then `Daily`; done ones, whatever their kind, by
/// the day they were ticked off; ties by creation day, then by position in
/// the list.
pub fn sorted_tasks(db: &Database) -> (r: Vec<&Task>)
    ensures
        exists|p: Seq<usize>|
            is_sorting(db.tasks@, p) && r@.len() == p.len() && forall|k: int|
                0 <= k < p.len() ==> *#[trigger] r@[k] == db.tasks@[p[k] as int],
{
    let order = sort_order(&db.tasks);
    let mut v: Vec<&Task> = Vec::new();
    let mut k: usize = 0;
    while k < order.len()
        invariant
            is_sorting(db.tasks@, order@),
            k <= order@.len(),
            v@.len() == k,
            forall|m: int| 0 <= m < k ==> *#[trigger] v@[m] == db.tasks@[order@[m] as int],
        decreases order@.len() - k,
    {
        let pos = order[k];
        v.push(&db.tasks[pos]);
        k = k + 1;
    }
    assert(is_sorting(db.tasks@, order@) && v@.len() == order@.len());
    v
}


/// A task as the list shows it.
#[derive(Debug)]
pub struct TaskView {
    pub id: String,
    pub text: String,
    pub kind: Kind,
    pub due_date: Option<Day>,
    pub due_today: bool,
    pub done: bool,
}

pub open spec fn task_view(t: Task, today: Day) -> TaskView {
    TaskView {
        id: t.id,
        text: t.text,
        kind: t.kind,
        due_date: t.due_date,
        due_today: t.due_date == Some(today),
        done: t.done_date is Some,
    }
}

/// `v` is the list `ts` as shown on `today`, in view order.
pub open spec fn is_view_of(ts: Seq<Task>, today: Day, v: Seq<TaskView>) -> bool {
    exists|p: Seq<usize>|
        is_sorting(ts, p) && v.len() == p.len() && forall|k: int|
            0 <= k < p.len() ==> #[trigger] v[k] == task_view(ts[p[k] as int], today)
}

/// The list as shown on `today`, in view order.
pub fn build_view(db: &Database, today: Day) -> (r: Vec<TaskView>)
    ensures
        is_view_of(db.tasks@, today, r@),
{
    let order = sort_order(&db.tasks);
    let mut v: Vec<TaskView> = Vec::new();
    let mut k: usize = 0;
    while k < order.len()
        invariant
            is_sorting(db.tasks@, order@),
            k <= order@.len(),
            v@.len() == k,
            forall|m: int| 0 <= m < k ==> #[trigger] v@[m] == task_view(db.tasks@[order@[m] as int], today),
        decreases order@.len() - k,
    {
        let t = &db.tasks[order[k]];
        v.push(
            TaskView {
                id: t.id.clone(),
                text: t.text.clone(),
                kind: t.kind,
                due_date: t.due_date,
                due_today: same_day_opt(t.due_date, Some(today)),
                done: t.done_date.is_some(),
            },
        );
        k = k + 1;
    }
    assert(is_sorting(db.tasks@, order@) && v@.len() == order@.len());
    v
}

/// Law of the view order: in any view order, an undone task never follows a
/// done one; among undone tasks `Limited` come before `Open`, which come
/// before `Daily`, and `Limited` ones come by due day; done tasks, whatever
/// their kind, come by the day they were ticked off; and tasks alike in rank,
/// ordering day and creation day keep the order in which they were added.
pub proof fn law_view_order(ts: Seq<Task>, p: Seq<usize>, k: int, l: int)
    requires
        is_sorting(ts, p),
        0 <= k < l < p.len(),
    ensures
        ({
            let a = ts[p[k] as int];
            let b = ts[p[l] as int];
            &&& a.done_date is Some ==> b.done_date is Some
            &&& a.done_date is None && b.done_date is None ==> spec_kind_rank(a.kind) <= spec_kind_rank(b.kind)
            &&& a.done_date is None && b.done_date is None && a.kind == Kind::Limited && b.kind
                == Kind::Limited ==> !opt_day_lt(b.due_date, a.due_date)
            &&& a.done_date is Some && b.done_date is Some ==> !opt_day_lt(b.done_date, a.done_date)
            &&& task_rank(a) == task_rank(b) && order_day(a) == order_day(b) && a.created_date
                == b.created_date ==> p[k] < p[l]
        }),
{
    assert(precedes(ts[p[k] as int], p[k] as int, ts[p[l] as int], p[l] as int));
}


/// Law of the view order, on the tasks' own fields: in any view order, for a
/// task `a` listed before a task `b`,
/// - a done `a` means a done `b`;
/// - when both are undone: an `Open` `a` is not followed by a `Limited` `b`,
///   a `Daily` `a` only by a `Daily` `b`; of the same kind, a due `a` means a
///   due `b`, due no earlier; of the same kind and due day, `a` was created
///   no later than `b` (earlier created first);
/// - when both are done: `a` was ticked off no later than `b`, and on the same
///   day `a` was created no later than `b`;
/// - when they agree on all of that and were created the same day, `a` stands
///   earlier in the list.
pub proof fn law_view_order_fields(ts: Seq<Task>, p: Seq<usize>, k: int, l: int)
    requires
        is_sorting(ts, p),
        0 <= k < l < p.len(),
    ensures
        ts[p[k] as int].done_date is Some ==> ts[p[l] as int].done_date is Some,
        ts[p[k] as int].done_date is None && ts[p[l] as int].done_date is None ==> !(ts[p[k] as int].kind
            == Kind::Open && ts[p[l] as int].kind == Kind::Limited) && !(ts[p[k] as int].kind
            == Kind::Daily && ts[p[l] as int].kind != Kind::Daily),
        ts[p[k] as int].done_date is None && ts[p[l] as int].done_date is None && ts[p[k] as int].kind
            == ts[p[l] as int].kind && ts[p[k] as int].due_date is Some ==> (ts[p[l] as int].due_date is Some
            && ts[p[k] as int].due_date->0.ce <= ts[p[l] as int].due_date->0.ce),
        ts[p[k] as int].done_date is None && ts[p[l] as int].done_date is None && ts[p[k] as int].kind
            == ts[p[l] as int].kind && ts[p[k] as int].due_date == ts[p[l] as int].due_date
            ==> ts[p[k] as int].created_date.ce <= ts[p[l] as int].created_date.ce,
        ts[p[k] as int].done_date is Some && ts[p[l] as int].done_date is Some ==> ts[p[k] as int].done_date->0.ce
            <= ts[p[l] as int].done_date->0.ce,
        ts[p[k] as int].done_date is Some && ts[p[k] as int].done_date == ts[p[l] as int].done_date
            ==> ts[p[k] as int].created_date.ce <= ts[p[l] as int].created_date.ce,
        ts[p[k] as int].done_date is None && ts[p[l] as int].done_date is None && ts[p[k] as int].kind
            == ts[p[l] as int].kind && ts[p[k] as int].due_date == ts[p[l] as int].due_date
            && ts[p[k] as int].created_date == ts[p[l] as int].created_date ==> p[k] < p[l],
        ts[p[k] as int].done_date is Some && ts[p[k] as int].done_date == ts[p[l] as int].done_date
            && ts[p[k] as int].created_date == ts[p[l] as int].created_date ==> p[k] < p[l],
{
    assert(precedes(ts[p[k] as int], p[k] as int, ts[p[l] as int], p[l] as int));
}

/// Law of `set_kind`'s effect on the task: it gets the kind asked for; a
/// `Limited` task gets the due day given, or keeps its own when none is
/// given; any other kind has no due day; id, text, creation and completion
/// stay.
pub proof fn law_set_kind_due_day(t: Task, kind: Kind, due_date: Option<Day>)
    ensures
        rekinded(t, kind, due_date).kind == kind,
        kind == Kind::Limited && due_date is Some ==> rekinded(t, kind, due_date).due_date == due_date,
        kind == Kind::Limited && due_date is None ==> rekinded(t, kind, due_date).due_date
            == t.due_date,
        kind != Kind::Limited ==> rekinded(t, kind, due_date).due_date is None,
        rekinded(t, kind, due_date).id == t.id && rekinded(t, kind, due_date).text == t.text,
        rekinded(t, kind, due_date).created_date == t.created_date,
        rekinded(t, kind, due_date).done_date == t.done_date,
{
}

/// Law: ticking a task off and unticking it on the same day gives the task
/// back as it was (and the other way round).
pub proof fn law_toggle_twice_restores(t: Task, today: Day)
    requires
        t.done_date is None || t.done_date == Some(today),
    ensures
        toggled(toggled(t, today), today) == t,
{
}

/// Law: changing a task's kind never touches its completion, and only a
/// `Limited` task keeps a due day.
pub proof fn law_set_kind_keeps_completion(t: Task, kind: Kind, due_date: Option<Day>)
    ensures
        rekinded(t, kind, due_date).done_date == t.done_date,
        rekinded(t, kind, due_date).id == t.id,
        rekinded(t, kind, due_date).created_date == t.created_date,
        kind != Kind::Limited ==> rekinded(t, kind, due_date).due_date is None,
{
}


proof fn lemma_sorting_prefix(ts: Seq<Task>, p: Seq<usize>, q: Seq<usize>, n: int)
    requires
        is_sorting(ts, p),
        is_sorting(ts, q),
        0 <= n <= p.len(),
    ensures
        forall|j: int| 0 <= j < n ==> p[j] == q[j],
    decreases n,
{
    if n > 0 {
        lemma_sorting_prefix(ts, p, q, n - 1);
        let k = n - 1;
        if p[k] != q[k] {
            assert(q.contains(p[k]));
            let m = choose|m: int| 0 <= m < q.len() && q[m] == p[k];
            assert(p.contains(q[k]));
            let m2 = choose|m2: int| 0 <= m2 < p.len() && p[m2] == q[k];
            if m < k {
                assert(p[m] == q[m]);
                lemma_precedes_strict_total(ts[p[m] as int], p[m] as int, ts[p[k] as int], p[k] as int, ts[0], 0);
            } else if m2 < k {
                assert(p[m2] == q[m2]);
                lemma_precedes_strict_total(ts[q[m2] as int], q[m2] as int, ts[q[k] as int], q[k] as int, ts[0], 0);
            } else {
                assert(precedes(ts[q[k] as int], q[k] as int, ts[q[m] as int], q[m] as int));
                assert(precedes(ts[p[k] as int], p[k] as int, ts[p[m2] as int], p[m2] as int));
                lemma_precedes_strict_total(ts[p[k] as int], p[k] as int, ts[q[k] as int], q[k] as int, ts[0], 0);
            }
        }
    }
}

/// Law: the view order of a task list is unique, so `sorted_tasks` and
/// `build_view` are determined by the list.
pub proof fn law_view_order_unique(ts: Seq<Task>, p: Seq<usize>, q: Seq<usize>)
    requires
        is_sorting(ts, p),
        is_sorting(ts, q),
    ensures
        p == q,
{
    lemma_sorting_prefix(ts, p, q, p.len() as int);
    assert(p =~= q);
}

/// Entries of a view that are not done.
pub open spec fn count_open_entries(v: Seq<TaskView>) -> nat
    decreases v.len(),
{
    if v.len() == 0 {
        0
    } else {
        count_open_entries(v.drop_last()) + if v.last().done { 0nat } else { 1nat }
    }
}

/// Undone tasks of `ts` at the positions `q`.
pub open spec fn undone_at(ts: Seq<Task>, q: Seq<usize>) -> nat
    decreases q.len(),
{
    if q.len() == 0 {
        0
    } else {
        undone_at(ts, q.drop_last()) + if ts[q.last() as int].done_date is None { 1nat } else { 0nat }
    }
}

proof fn lemma_open_entries(ts: Seq<Task>, today: Day, v: Seq<TaskView>, p: Seq<usize>)
    requires
        v.len() == p.len(),
        forall|k: int| 0 <= k < p.len() ==> #[trigger] v[k] == task_view(ts[p[k] as int], today),
    ensures
        count_open_entries(v) == undone_at(ts, p),
    decreases p.len(),
{
    if p.len() > 0 {
        let v0 = v.drop_last();
        let p0 = p.drop_last();
        assert forall|k: int| 0 <= k < p0.len() implies #[trigger] v0[k] == task_view(ts[p0[k] as int], today) by {
            assert(v0[k] == v[k] && p0[k] == p[k]);
        }
        lemma_open_entries(ts, today, v0, p0);
        assert(v.last() == task_view(ts[p.last() as int], today));
    }
}

proof fn lemma_undone_remove(ts: Seq<Task>, q: Seq<usize>, m: int)
    requires
        0 <= m < q.len(),
    ensures
        undone_at(ts, q) == undone_at(ts, q.remove(m)) + if ts[q[m] as int].done_date is None {
            1nat
        } else {
            0nat
        },
    decreases q.len(),
{
    if m < q.len() - 1 {
        assert(q.remove(m).drop_last() =~= q.drop_last().remove(m));
        assert(q.remove(m).last() == q.last());
        lemma_undone_remove(ts, q.drop_last(), m);
    } else {
        assert(q.remove(m) =~= q.drop_last());
    }
}

proof fn lemma_count_done_bounded(ts: Seq<Task>)
    ensures
        count_done(ts) <= ts.len(),
    decreases ts.len(),
{
    if ts.len() > 0 {
        lemma_count_done_bounded(ts.drop_last());
    }
}

proof fn lemma_undone_permutation(ts: Seq<Task>, q: Seq<usize>, n: int)
    requires
        0 <= n <= ts.len(),
        n <= usize::MAX,
        q.len() == n,
        forall|k: int| 0 <= k < q.len() ==> #[trigger] q[k] < n,
        forall|k: int, l: int| 0 <= k < l < q.len() ==> #[trigger] q[k] != #[trigger] q[l],
        forall|x: usize| x < n ==> #[trigger] q.contains(x),
    ensures
        undone_at(ts, q) + count_done(ts.take(n)) == n,
    decreases n,
{
    if n > 0 {
        let last = (n - 1) as usize;
        assert(q.contains(last));
        let m = choose|m: int| 0 <= m < q.len() && q[m] == last;
        let q2 = q.remove(m);
        lemma_undone_remove(ts, q, m);
        assert forall|k: int| 0 <= k < q2.len() implies #[trigger] q2[k] < n - 1 by {
            if k < m {
                assert(q2[k] == q[k] && q[k] != q[m]);
            } else {
                assert(q2[k] == q[k + 1] && q[k + 1] != q[m]);
            }
        }
        assert forall|k: int, l: int| 0 <= k < l < q2.len() implies #[trigger] q2[k] != #[trigger] q2[l] by {
            let k1 = if k < m { k } else { k + 1 };
            let l1 = if l < m { l } else { l + 1 };
            assert(q2[k] == q[k1] && q2[l] == q[l1]);
        }
        assert forall|x: usize| x < n - 1 implies #[trigger] q2.contains(x) by {
            assert(q.contains(x));
            let k = choose|k: int| 0 <= k < q.len() && q[k] == x;
            if k < m {
                assert(q2[k] == x);
            } else {
                assert(k != m);
                assert(q2[k - 1] == x);
            }
        }
        lemma_undone_permutation(ts, q2, n - 1);
        assert(ts.take(n).drop_last() =~= ts.take(n - 1));
        assert(ts.take(n).last() == ts[n - 1]);
        assert(q[m] as int == n - 1);
    }
}

/// Law: the entries of the view that are not done are exactly the tasks that
/// the statistics count as not done today, `today_total - today_done`.
pub proof fn law_view_matches_stats(ts: Seq<Task>, today: Day, v: Seq<TaskView>)
    requires
        ts.len() <= usize::MAX,
        is_view_of(ts, today, v),
    ensures
        count_open_entries(v) == ts.len() - count_done(ts),
        ts.len() <= u32::MAX ==> count_open_entries(v) == (ts.len() as u32) - (count_done(ts) as u32),
{
    let p = choose|p: Seq<usize>|
        is_sorting(ts, p) && v.len() == p.len() && forall|k: int|
            0 <= k < p.len() ==> #[trigger] v[k] == task_view(ts[p[k] as int], today);
    lemma_open_entries(ts, today, v, p);
    assert forall|k: int, l: int| 0 <= k < l < p.len() implies #[trigger] p[k] != #[trigger] p[l] by {
        assert(precedes(ts[p[k] as int], p[k] as int, ts[p[l] as int], p[l] as int));
        lemma_precedes_strict_total(ts[p[k] as int], p[k] as int, ts[p[k] as int], p[k] as int, ts[0], 0);
    }
    lemma_undone_permutation(ts, p, ts.len() as int);
    assert(ts.take(ts.len() as int) =~= ts);
    lemma_count_done_bounded(ts);
}

/// Law: when days close (the exact effect of `roll_over` beyond its first
/// anchoring), no task is lost or made up; see `tracks`.
pub proof fn law_roll_over_tracks_every_task(s: Ledger, last: Option<Day>, today: Day)
    ensures
        advance(s, last, today).0.archive.take(s.archive.len() as int) == s.archive,
        tracks(
            s.tasks,
            advance(s, last, today).0.tasks,
            advance(s, last, today).0.archive.skip(s.archive.len() as int),
        ),
{
    match last {
        Some(l) => if today.ce > l.ce {
            law_replay_tracks_every_task(s, l.ce as int, today.ce as int);
        } else {
            law_replay_tracks_every_task(s, 0, 0);
        },
        None => {
            law_replay_tracks_every_task(s, 0, 0);
        },
    }
}

} // verus!
