use mytodo::day::Day;
use mytodo::stats::{compute_stats, KindRate};
use mytodo::todo::{add_task, new_database, roll_over, toggle_done, DailyLogEntry, Kind};

fn d(y: i32, m: u32, day: u32) -> Day {
    Day::from_ymd(y, m, day).unwrap()
}

/// The share of a kind as the statistics page shows it.
fn share(r: Option<KindRate>) -> Option<f32> {
    r.map(|r| r.done as f32 / r.total as f32)
}

// ── C2/C3 summary and per-kind rates ──────────
#[test]
fn c2_c3_summary_and_kind_rates_with_none_semantics() {
    let mut db = new_database();
    let daily = add_task(&mut db, d(2026, 9, 24), "每日A", Kind::Daily, None).unwrap();
    add_task(&mut db, d(2026, 9, 24), "每日B", Kind::Daily, None).unwrap();
    let lim = add_task(&mut db, d(2026, 9, 24), "限时", Kind::Limited, Some(d(2026, 9, 30)))
        .unwrap();
    add_task(&mut db, d(2026, 9, 24), "不限时", Kind::Open, None).unwrap();
    toggle_done(&mut db, d(2026, 9, 24), &daily).unwrap();
    toggle_done(&mut db, d(2026, 9, 24), &lim).unwrap();

    let s = compute_stats(&db, d(2026, 9, 24));
    assert_eq!(s.today_total, 4);
    assert_eq!(s.today_done, 2);
    assert_eq!(share(s.rate_daily), Some(0.5));
    assert_eq!(share(s.rate_limited), Some(1.0));
    assert_eq!(share(s.rate_open), Some(0.0), "存在但未勾 = 0%，不是 None");
    assert_eq!(s.streak, Some(0), "今天未全勾且无历史 → 0 天（有每日任务，不是 None）");

    let mut db2 = new_database();
    add_task(&mut db2, d(2026, 9, 24), "只有不限时", Kind::Open, None).unwrap();
    let s2 = compute_stats(&db2, d(2026, 9, 24));
    assert_eq!(share(s2.rate_daily), None);
    assert_eq!(share(s2.rate_limited), None);
    assert_eq!(share(s2.rate_open), Some(0.0));
}

// ── C4 the three shapes of a streak ───────────
#[test]
fn c4_streak_running_yesterday_full_today_in_progress() {
    let mut db = new_database();
    let id = add_task(&mut db, d(2026, 9, 20), "刷题", Kind::Daily, None).unwrap();
    for day in [20, 21, 22] {
        toggle_done(&mut db, d(2026, 9, day), &id).unwrap();
        roll_over(&mut db, d(2026, 9, day + 1));
    }
    let s = compute_stats(&db, d(2026, 9, 23));
    assert_eq!(s.streak, Some(3), "昨天为止连续 3 天，今天进行中不加分不断链");
}

#[test]
fn c4_streak_break_resets_to_zero() {
    let mut db = new_database();
    let id = add_task(&mut db, d(2026, 9, 20), "刷题", Kind::Daily, None).unwrap();
    for day in [20, 21, 22] {
        toggle_done(&mut db, d(2026, 9, day), &id).unwrap();
        roll_over(&mut db, d(2026, 9, day + 1));
    }
    roll_over(&mut db, d(2026, 9, 24));
    let s = compute_stats(&db, d(2026, 9, 24));
    assert_eq!(s.streak, Some(0), "昨日未全勾 → 归零");
}

#[test]
fn c4_streak_today_full_counts_and_none_without_daily() {
    let mut db = new_database();
    let id = add_task(&mut db, d(2026, 9, 20), "刷题", Kind::Daily, None).unwrap();
    toggle_done(&mut db, d(2026, 9, 24), &id).unwrap();
    let s = compute_stats(&db, d(2026, 9, 24));
    assert_eq!(s.streak, Some(1), "今天全勾（无历史）= 1 天");

    let mut db2 = new_database();
    add_task(&mut db2, d(2026, 9, 24), "不限时", Kind::Open, None).unwrap();
    assert_eq!(compute_stats(&db2, d(2026, 9, 24)).streak, None);
}

// ── C5 statistics change nothing ──────────────
#[test]
fn c5_compute_stats_is_pure() {
    let mut db = new_database();
    add_task(&mut db, d(2026, 9, 24), "t", Kind::Daily, None).unwrap();
    let before = format!("{:?}", db);
    let _ = compute_stats(&db, d(2026, 9, 24));
    let _ = compute_stats(&db, d(2026, 9, 24));
    assert_eq!(before, format!("{:?}", db), "统计不得改动任何状态");
}

// ── C6 the trend takes the last 30 days ───────
#[test]
fn c6_trend_uses_latest_30_days() {
    let mut db = new_database();
    let start = d(2026, 8, 1);
    for i in 0..35 {
        let date = Day::from_ce(start.ce + i).unwrap();
        let done = (i % 3) as u32;
        db.daily_log.push(DailyLogEntry {
            date,
            done_daily: done,
            total_daily: 2,
            done_all: done,
            total_all: 2,
        });
    }
    let s = compute_stats(&db, d(2026, 9, 4)); // 9/4 and the 29 days before: 8/6..9/4
    assert_eq!(s.trend.len(), 30);
    assert_eq!(s.trend[0].date, d(2026, 8, 6));
    assert_eq!(s.trend[29].date, d(2026, 9, 4));
    // 8/6 is entry i = 5: done = 5 % 3 = 2
    assert_eq!((s.trend[0].done, s.trend[0].total), (2, 2));
    assert_eq!(s.archive_count, 0);
}
