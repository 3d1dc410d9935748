//! Statistics over the database; every function here only reads it.
//! - today: tasks done / tasks on the list, as they stand now;
//! - per kind: done / present, `None` where the kind has no task;
//! - streak: consecutive days whose daily tasks were all done, counting today
//!   once all of today's daily tasks are done; `None` without daily tasks;
//! - trend: the logged counts of the last 30 days.

use crate::day::{Day, MIN_CE};
use crate::todo::{count_done, count_kind, count_kind_done, DailyLogEntry, Database, Kind, Task};
use std::collections::HashMap;
use vstd::prelude::*;

verus! {

/// One day of the trend: tasks done and present at the end of that day.
#[derive(Debug, Clone, Copy, PartialEq)]
pub struct TrendDay {
    pub date: Day,
    pub done: u32,
    pub total: u32,
}

/// Tasks of one kind: how many are done and how many there are. The share
/// `done / total` is shown as a percentage.
#[derive(Debug, Clone, Copy, PartialEq)]
pub struct KindRate {
    pub done: usize,
    pub total: usize,
}

/// The statistics page.
#[derive(Debug, Clone)]
pub struct StatsDto {
    pub today_done: u32,
    pub today_total: u32,
    /// `None` where no task has this kind (which differs from 0 %).
    pub rate_daily: Option<KindRate>,
    pub rate_limited: Option<KindRate>,
    pub rate_open: Option<KindRate>,
    /// `None` without daily tasks.
    pub streak: Option<u32>,
    pub trend: Vec<TrendDay>,
    pub archive_count: u32,
}

/// The last log entry of day number `ce` (a later entry of a day overrides an
/// earlier one).
pub open spec fn log_find(log: Seq<DailyLogEntry>, ce: int) -> Option<DailyLogEntry>
    decreases log.len(),
{
    if log.len() == 0 {
        None
    } else if log.last().date.ce == ce {
        Some(log.last())
    } else {
        log_find(log.drop_last(), ce)
    }
}

/// The log keyed by day number: a later entry of a day replaces an earlier
/// one.
pub open spec fn log_map(log: Seq<DailyLogEntry>) -> Map<i32, DailyLogEntry>
    decreases log.len(),
{
    if log.len() == 0 {
        Map::empty()
    } else {
        log_map(log.drop_last()).insert(log.last().date.ce, log.last())
    }
}

proof fn lemma_log_map_find(log: Seq<DailyLogEntry>, k: i32)
    ensures
        log_map(log).contains_key(k) <==> log_find(log, k as int) is Some,
        log_map(log).contains_key(k) ==> log_find(log, k as int) == Some(log_map(log)[k]),
    decreases log.len(),
{
    if log.len() > 0 {
        lemma_log_map_find(log.drop_last(), k);
    }
}

/// The log in a hash map keyed by day number.
fn index_log(log: &Vec<DailyLogEntry>) -> (m: HashMap<i32, DailyLogEntry>)
    ensures
        m@ == log_map(log@),
{
    broadcast use vstd::std_specs::hash::group_hash_axioms;

    let mut m: HashMap<i32, DailyLogEntry> = HashMap::new();
    let mut i: usize = 0;
    while i < log.len()
        invariant
            i <= log@.len(),
            m@ == log_map(log@.take(i as int)),
        decreases log@.len() - i,
    {
        proof {
            assert(log@.take(i + 1).drop_last() =~= log@.take(i as int));
        }
        m.insert(log[i].date.ce, log[i]);
        i = i + 1;
    }
    proof {
        assert(log@.take(i as int) =~= log@);
    }
    m
}

/// The entry of `day` in the indexed log.
fn entry_of(by_date: &HashMap<i32, DailyLogEntry>, log: Ghost<Seq<DailyLogEntry>>, day: Day) -> (r:
    Option<DailyLogEntry>)
    requires
        by_date@ == log_map(log@),
    ensures
        r == log_find(log@, day.ce as int),
{
    broadcast use vstd::std_specs::hash::group_hash_axioms;

    proof {
        lemma_log_map_find(log@, day.ce);
    }
    match by_date.get(&day.ce) {
        Some(e) => Some(*e),
        None => None,
    }
}

/// Day number `ce` was logged with all of its daily tasks done.
pub open spec fn full_day(log: Seq<DailyLogEntry>, ce: int) -> bool {
    match log_find(log, ce) {
        Some(e) => e.total_daily > 0 && e.done_daily == e.total_daily,
        None => false,
    }
}

/// Consecutive full days just before day number `t`; `None` where the run
/// reaches back past the first day of the calendar.
pub open spec fn run_before(log: Seq<DailyLogEntry>, t: int) -> Option<int>
    decreases t - MIN_CE,
{
    if t <= MIN_CE {
        None
    } else if full_day(log, t - 1) {
        match run_before(log, t - 1) {
            Some(k) => Some(k + 1),
            None => None,
        }
    } else {
        Some(0)
    }
}

/// The streak on `today`.
pub open spec fn streak_of(db: Database, today: Day) -> Option<int> {
    let total = count_kind(db.tasks@, Kind::Daily);
    let done = count_kind_done(db.tasks@, Kind::Daily);
    if total == 0 {
        None
    } else {
        match run_before(db.daily_log@, today.ce as int) {
            Some(k) => Some(k + if done == total { 1int } else { 0int }),
            None => None,
        }
    }
}

proof fn lemma_run_before_bounded(log: Seq<DailyLogEntry>, t: int)
    ensures
        run_before(log, t) matches Some(k) ==> 0 <= k <= t - MIN_CE,
    decreases t - MIN_CE,
{
    if t > MIN_CE && full_day(log, t - 1) {
        lemma_run_before_bounded(log, t - 1);
    }
}

/// Tasks of kind `k`: (done, present).
fn count_of_kind(tasks: &Vec<Task>, k: Kind) -> (r: (usize, usize))
    ensures
        r.0 == count_kind_done(tasks@, k),
        r.1 == count_kind(tasks@, k),
{
    let mut done: usize = 0;
    let mut total: usize = 0;
    let mut i: usize = 0;
    while i < tasks.len()
        invariant
            i <= tasks@.len(),
            done == count_kind_done(tasks@.take(i as int), k),
            total == count_kind(tasks@.take(i as int), k),
            done <= i && total <= i,
        decreases tasks@.len() - i,
    {
        proof {
            assert(tasks@.take(i + 1).drop_last() =~= tasks@.take(i as int));
        }
        if tasks[i].kind == k {
            total = total + 1;
            if tasks[i].done_date.is_some() {
                done = done + 1;
            }
        }
        i = i + 1;
    }
    proof {
        assert(tasks@.take(i as int) =~= tasks@);
    }
    (done, total)
}

/// Tasks that are ticked off.
fn count_done_tasks(tasks: &Vec<Task>) -> (r: usize)
    ensures
        r == count_done(tasks@),
{
    let mut done: usize = 0;
    let mut i: usize = 0;
    while i < tasks.len()
        invariant
            i <= tasks@.len(),
            done == count_done(tasks@.take(i as int)),
            done <= i,
        decreases tasks@.len() - i,
    {
        proof {
            assert(tasks@.take(i + 1).drop_last() =~= tasks@.take(i as int));
        }
        if tasks[i].done_date.is_some() {
            done = done + 1;
        }
        i = i + 1;
    }
    proof {
        assert(tasks@.take(i as int) =~= tasks@);
    }
    done
}

/// Days in a row whose daily tasks were all done, read back from today
/// through the log. Today counts once all of today's daily tasks are done; an
/// unfinished today neither counts nor breaks the run. `None` without daily
/// tasks (and where the run reaches back past the first day of the calendar).
pub fn compute_streak(db: &Database, today: Day) -> (r: Option<u32>)
    requires
        today.valid(),
    ensures
        r is None <==> streak_of(*db, today) is None,
        r matches Some(v) ==> streak_of(*db, today) == Some(v as int),
{
    let daily_exists_now = count_of_kind(&db.tasks, Kind::Daily).1 > 0;
    if !daily_exists_now && db.daily_log.len() == 0 {
        return None;
    }
    // Today as it stands now.
    let (today_done, today_total) = count_of_kind(&db.tasks, Kind::Daily);
    if today_total == 0 {
        return None;
    }
    let ghost base: int = if today_done == today_total { 1 } else { 0 };
    let mut streak: u32 = if today_done == today_total { 1 } else { 0 };
    // The log by day, replayed backwards from today.
    let by_date = index_log(&db.daily_log);
    let mut day = today;
    proof {
        lemma_run_before_bounded(db.daily_log@, today.ce as int);
    }
    loop
        invariant
            today.valid(),
            day.valid(),
            day.ce <= today.ce,
            base == (if today_done == today_total { 1int } else { 0int }),
            streak == base + (today.ce - day.ce),
            today_total == count_kind(db.tasks@, Kind::Daily),
            today_done == count_kind_done(db.tasks@, Kind::Daily),
            today_total > 0,
            by_date@ == log_map(db.daily_log@),
            run_before(db.daily_log@, today.ce as int) == match run_before(db.daily_log@, day.ce as int) {
                Some(k) => Some(k + (today.ce - day.ce)),
                None => None::<int>,
            },
        ensures
            streak == base + (today.ce - day.ce),
            today_total == count_kind(db.tasks@, Kind::Daily),
            today_done == count_kind_done(db.tasks@, Kind::Daily),
            today_total > 0,
            run_before(db.daily_log@, today.ce as int) == Some(streak - base),
        decreases day.ce - MIN_CE,
    {
        let prev = match day.pred_opt() {
            None => {
                return None;
            },
            Some(p) => p,
        };
        let full = match entry_of(&by_date, Ghost(db.daily_log@), prev) {
            Some(e) => e.total_daily > 0 && e.done_daily == e.total_daily,
            None => false,
        };
        if full {
            streak = streak + 1;
            day = prev;
        } else {
            assert(!full_day(db.daily_log@, prev.ce as int));
            break;
        }
    }
    Some(streak)
}

/// The trend day of day number `ce`, zero where the log has no entry.
pub open spec fn trend_day(log: Seq<DailyLogEntry>, ce: int) -> TrendDay {
    match log_find(log, ce) {
        Some(e) => TrendDay { date: Day { ce: ce as i32 }, done: e.done_all, total: e.total_all },
        None => TrendDay { date: Day { ce: ce as i32 }, done: 0, total: 0 },
    }
}

/// How many days the trend of `days` days ending `today` has: fewer only at
/// the start of the calendar.
pub open spec fn trend_len(today: Day, days: int) -> int {
    if days <= today.ce - MIN_CE + 1 {
        days
    } else {
        today.ce - MIN_CE + 1
    }
}

/// The last `days` days up to `today`, oldest first.
pub open spec fn trend_of(log: Seq<DailyLogEntry>, today: Day, days: int) -> Seq<TrendDay> {
    let n = trend_len(today, days);
    Seq::new(n as nat, |k: int| trend_day(log, today.ce - (n - 1 - k)))
}

fn compute_trend(db: &Database, today: Day, days: u32) -> (r: Vec<TrendDay>)
    requires
        today.valid(),
    ensures
        r@ == trend_of(db.daily_log@, today, days as int),
{
    let by_date = index_log(&db.daily_log);
    let mut out: Vec<TrendDay> = Vec::new();
    let mut day = today;
    let mut c: u32 = 0;
    while c < days
        invariant_except_break
            day.valid(),
            day.ce == today.ce - c,
        invariant
            today.valid(),
            c <= days,
            out@.len() == c,
            by_date@ == log_map(db.daily_log@),
            forall|k: int| 0 <= k < c ==> #[trigger] out@[k] == trend_day(db.daily_log@, today.ce - k),
        ensures
            out@.len() == trend_len(today, days as int),
            forall|k: int| 0 <= k < out@.len() ==> #[trigger] out@[k] == trend_day(db.daily_log@, today.ce - k),
        decreases days - c,
    {
        let entry = match entry_of(&by_date, Ghost(db.daily_log@), day) {
            Some(e) => TrendDay { date: day, done: e.done_all, total: e.total_all },
            None => TrendDay { date: day, done: 0, total: 0 },
        };
        out.push(entry);
        match day.pred_opt() {
            Some(d) => {
                day = d;
                c = c + 1;
            },
            None => {
                c = c + 1;
                break;
            },
        }
    }
    // Oldest first.
    let n = out.len();
    let mut r: Vec<TrendDay> = Vec::new();
    let mut i: usize = 0;
    while i < n
        invariant
            n == out@.len(),
            n == trend_len(today, days as int),
            i <= n,
            r@.len() == i,
            forall|k: int| 0 <= k < out@.len() ==> #[trigger] out@[k] == trend_day(db.daily_log@, today.ce - k),
            forall|k: int| 0 <= k < i ==> #[trigger] r@[k] == trend_day(db.daily_log@, today.ce - (n - 1 - k)),
        decreases n - i,
    {
        r.push(out[n - 1 - i]);
        i = i + 1;
    }
    assert(r@ =~= trend_of(db.daily_log@, today, days as int));
    r
}

/// The share of one kind, `None` where no task has it.
pub open spec fn rate_of(ts: Seq<Task>, k: Kind) -> Option<KindRate> {
    if count_kind(ts, k) == 0 {
        None
    } else {
        Some(KindRate { done: count_kind_done(ts, k) as usize, total: count_kind(ts, k) as usize })
    }
}

fn rate(tasks: &Vec<Task>, kind: Kind) -> (r: Option<KindRate>)
    ensures
        r == rate_of(tasks@, kind),
{
    let (done, total) = count_of_kind(tasks, kind);
    if total == 0 {
        None
    } else {
        Some(KindRate { done, total })
    }
}

/// The statistics on `today`.
pub fn compute_stats(db: &Database, today: Day) -> (r: StatsDto)
    requires
        today.valid(),
    ensures
        r.today_total == db.tasks@.len() as u32,
        r.today_done == count_done(db.tasks@) as u32,
        r.rate_daily == rate_of(db.tasks@, Kind::Daily),
        r.rate_limited == rate_of(db.tasks@, Kind::Limited),
        r.rate_open == rate_of(db.tasks@, Kind::Open),
        r.streak is None <==> streak_of(*db, today) is None,
        r.streak matches Some(v) ==> streak_of(*db, today) == Some(v as int),
        r.trend@ == trend_of(db.daily_log@, today, 30),
        r.archive_count == db.archive@.len() as u32,
{
    let today_total = db.tasks.len() as u32;
    let today_done = count_done_tasks(&db.tasks) as u32;
    let streak = compute_streak(db, today);
    let trend = compute_trend(db, today, 30);
    StatsDto {
        today_done,
        today_total,
        rate_daily: rate(&db.tasks, Kind::Daily),
        rate_limited: rate(&db.tasks, Kind::Limited),
        rate_open: rate(&db.tasks, Kind::Open),
        streak,
        trend,
        archive_count: db.archive.len() as u32,
    }
}

/// A run of `k` days just before day number `t`, read back through the log:
/// each of them was logged with at least one daily task and all of them done,
/// and the day before the run was not.
proof fn lemma_run_before_days(log: Seq<DailyLogEntry>, t: int)
    ensures
        run_before(log, t) matches Some(k) ==> {
            &&& 0 <= k
            &&& forall|j: int|
                1 <= j <= k ==> (#[trigger] log_find(log, t - j) matches Some(e) && e.total_daily > 0
                    && e.done_daily == e.total_daily)
            &&& !(log_find(log, t - k - 1) matches Some(e) && e.total_daily > 0 && e.done_daily
                == e.total_daily)
        },
    decreases t - MIN_CE,
{
    if t > MIN_CE && full_day(log, t - 1) {
        lemma_run_before_days(log, t - 1);
        if let Some(k) = run_before(log, t - 1) {
            assert forall|j: int| 1 <= j <= k + 1 implies (#[trigger] log_find(log, t - j) matches Some(
                e,
            ) && e.total_daily > 0 && e.done_daily == e.total_daily) by {
                if j > 1 {
                    assert(log_find(log, (t - 1) - (j - 1)) == log_find(log, t - j));
                }
            }
            assert(log_find(log, (t - 1) - k - 1) == log_find(log, t - (k + 1) - 1));
        }
    }
}

/// Law of the streak, on the log's own counts: with no daily task there is
/// no streak. Otherwise a streak of `n` counts today when all of today's daily
/// tasks are done, plus the days just before today, each logged with at least
/// one daily task and all of them done; the day before those was not such a
/// day (a day without daily tasks, or without a log entry, ends the run).
pub proof fn law_streak_counts_full_days(db: Database, today: Day)
    ensures
        count_kind(db.tasks@, Kind::Daily) == 0 ==> streak_of(db, today) is None,
        streak_of(db, today) matches Some(n) ==> {
            let base = if count_kind_done(db.tasks@, Kind::Daily) == count_kind(db.tasks@, Kind::Daily) {
                1int
            } else {
                0int
            };
            let run = n - base;
            &&& count_kind(db.tasks@, Kind::Daily) > 0
            &&& 0 <= run
            &&& forall|j: int|
                1 <= j <= run ==> (#[trigger] log_find(db.daily_log@, today.ce - j) matches Some(e)
                    && e.total_daily > 0 && e.done_daily == e.total_daily)
            &&& !(log_find(db.daily_log@, today.ce - run - 1) matches Some(e) && e.total_daily > 0
                && e.done_daily == e.total_daily)
        },
{
    lemma_run_before_days(db.daily_log@, today.ce as int);
}

/// Law of the trend, on the log's own counts: it covers `days` consecutive
/// days ending `today` (fewer only at the start of the calendar), oldest
/// first; a logged day shows that entry's counts of all tasks, done and
/// present; a day without an entry shows zero.
pub proof fn law_trend_shows_logged_counts(log: Seq<DailyLogEntry>, today: Day, days: int, k: int)
    requires
        today.valid(),
        days >= 0,
        0 <= k < trend_of(log, today, days).len(),
    ensures
        trend_of(log, today, days).len() == if days <= today.ce - MIN_CE + 1 {
            days
        } else {
            today.ce - MIN_CE + 1
        },
        ({
            let n = trend_of(log, today, days).len();
            let c = today.ce - (n - 1 - k);
            let t = trend_of(log, today, days)[k];
            &&& t.date.ce == c
            &&& log_find(log, c) matches Some(e) ==> t.done == e.done_all && t.total == e.total_all
            &&& log_find(log, c) is None ==> t.done == 0 && t.total == 0
        }),
{
}

} // verus!
