use mytodo::day::Day;
use mytodo::notify::{due_body, due_decision, DueDecision};
use mytodo::todo::{add_task, new_database, Kind};

fn d(y: i32, m: u32, day: u32) -> Day {
    Day::from_ymd(y, m, day).unwrap()
}

// ── D1: due today, not yet reminded → notify ──
#[test]
fn d1_due_today_notifies_with_names() {
    let mut db = new_database();
    add_task(&mut db, d(2026, 9, 24), "交报告", Kind::Limited, Some(d(2026, 9, 26))).unwrap();
    add_task(&mut db, d(2026, 9, 24), "交作业", Kind::Limited, Some(d(2026, 9, 26))).unwrap();
    assert_eq!(
        due_decision(&db, d(2026, 9, 26)),
        DueDecision::Notify(vec!["交报告".into(), "交作业".into()])
    );
    assert_eq!(due_body(&["交报告".into(), "交作业".into()]), "今天有 2 件任务到期：交报告、交作业");
}

// ── D2: once a day; a new due task the next day ─
#[test]
fn d2_same_day_dedup_next_day_fresh() {
    let mut db = new_database();
    add_task(&mut db, d(2026, 9, 24), "A", Kind::Limited, Some(d(2026, 9, 26))).unwrap();
    assert!(matches!(due_decision(&db, d(2026, 9, 26)), DueDecision::Notify(_)));
    db.last_notified_date = Some(d(2026, 9, 26));
    assert_eq!(due_decision(&db, d(2026, 9, 26)), DueDecision::Skip, "同日不轰炸");
    assert_eq!(due_decision(&db, d(2026, 9, 27)), DueDecision::Skip, "无新到期也不发");
    add_task(&mut db, d(2026, 9, 26), "B", Kind::Limited, Some(d(2026, 9, 27))).unwrap();
    assert!(matches!(due_decision(&db, d(2026, 9, 27)), DueDecision::Notify(_)));
}

// ── D3: nothing due / reminders off → silence ──
#[test]
fn d3_no_due_or_disabled_means_silence() {
    let mut db = new_database();
    add_task(&mut db, d(2026, 9, 24), "不限时", Kind::Open, None).unwrap();
    add_task(&mut db, d(2026, 9, 24), "每日", Kind::Daily, None).unwrap();
    assert_eq!(due_decision(&db, d(2026, 9, 26)), DueDecision::Skip);

    add_task(&mut db, d(2026, 9, 24), "到期A", Kind::Limited, Some(d(2026, 9, 26))).unwrap();
    db.reminders_enabled = false;
    assert_eq!(due_decision(&db, d(2026, 9, 26)), DueDecision::Skip, "总开关关闭");
}

#[test]
fn d1_body_lists_first_three_when_many() {
    let names: Vec<String> = ["一", "二", "三", "四"].iter().map(|s| s.to_string()).collect();
    assert_eq!(due_body(&names), "今天有 4 件任务到期：一、二、三 等");
}
