use mytodo::day::Day;
use mytodo::todo::{
    add_task, build_view, delete_task, new_database, roll_over, set_kind, toggle_done, Database,
    EngineError, Kind, Outcome,
};

fn d(y: i32, m: u32, day: u32) -> Day {
    Day::from_ymd(y, m, day).unwrap()
}

fn base() -> Day {
    d(2026, 9, 24)
}

// ── B1 adding ──────────────────────────────────
#[test]
fn b1_add_defaults_open_trim_and_rejections() {
    let mut db = new_database();
    let id = add_task(&mut db, base(), "  写周报  ", Kind::Open, None).unwrap();
    let t = &db.tasks[0];
    assert_eq!(t.id, id);
    assert_eq!(t.text, "写周报");
    assert_eq!(t.kind, Kind::Open);
    assert_eq!(t.due_date, None);
    assert_eq!(t.done_date, None);
    assert_eq!(t.created_date, base());

    assert_eq!(
        add_task(&mut db, base(), "x", Kind::Limited, None),
        Err(EngineError::DueDateRequired)
    );
    assert_eq!(
        add_task(&mut db, base(), "   ", Kind::Open, None),
        Err(EngineError::EmptyText)
    );
}

// ── B2 ticking ─────────────────────────────────
#[test]
fn b2_toggle_marks_and_unmarks_today() {
    let mut db = new_database();
    let id = add_task(&mut db, base(), "t", Kind::Open, None).unwrap();
    toggle_done(&mut db, base(), &id).unwrap();
    assert_eq!(db.tasks[0].done_date, Some(base()));
    toggle_done(&mut db, base(), &id).unwrap();
    assert_eq!(db.tasks[0].done_date, None);
}

// ── B3 daily tasks across days ────────────────
#[test]
fn b3_daily_resets_next_day_and_stays() {
    let mut db = new_database();
    let id = add_task(&mut db, base(), "刷题", Kind::Daily, None).unwrap();
    toggle_done(&mut db, base(), &id).unwrap();
    roll_over(&mut db, base().succ_opt().unwrap());
    assert_eq!(db.tasks.len(), 1);
    assert_eq!(db.tasks[0].id, id);
    assert_eq!(db.tasks[0].done_date, None);
    assert!(db.archive.is_empty());
}

#[test]
fn b3_daily_unchecked_persists_30_days() {
    let mut db = new_database();
    add_task(&mut db, base(), "刷题", Kind::Daily, None).unwrap();
    roll_over(&mut db, d(2026, 10, 24));
    assert_eq!(db.tasks.len(), 1);
    assert!(db.archive.is_empty());
}

// ── B4 limited tasks ───────────────────────────
#[test]
fn b4_limited_visible_on_due_day_then_expired() {
    let mut db = new_database();
    let due = d(2026, 9, 26);
    let id = add_task(&mut db, base(), "交报告", Kind::Limited, Some(due)).unwrap();
    roll_over(&mut db, due);
    assert!(db.tasks.iter().any(|t| t.id == id), "到期日当天必须还在");
    let next = due.succ_opt().unwrap();
    roll_over(&mut db, next);
    assert!(db.tasks.is_empty());
    assert_eq!(db.archive.len(), 1);
    assert_eq!(db.archive[0].outcome, Outcome::ExpiredUnfinished);
    assert_eq!(db.archive[0].removed_date, next);
}

#[test]
fn b4_limited_completed_early_archives_completed_next_day() {
    let mut db = new_database();
    let due = d(2026, 9, 30);
    let id = add_task(&mut db, base(), "提前做完", Kind::Limited, Some(due)).unwrap();
    toggle_done(&mut db, base(), &id).unwrap();
    roll_over(&mut db, base().succ_opt().unwrap());
    assert!(db.tasks.is_empty(), "完成即次日清除，不等到期日");
    assert_eq!(db.archive[0].outcome, Outcome::CompletedOn);
}

// ── B5 open tasks ──────────────────────────────
#[test]
fn b5_open_done_archives_next_day_undone_persists() {
    let mut db = new_database();
    let a = add_task(&mut db, base(), "做完就消", Kind::Open, None).unwrap();
    let b = add_task(&mut db, base(), "一直放着", Kind::Open, None).unwrap();
    toggle_done(&mut db, base(), &a).unwrap();
    roll_over(&mut db, base().succ_opt().unwrap());
    assert_eq!(db.tasks.len(), 1);
    assert_eq!(db.tasks[0].id, b);
    assert_eq!(db.archive[0].outcome, Outcome::CompletedOn);
}

// ── B6 order (done tasks last, by completion) ──
#[test]
fn b6_order_limited_by_due_then_open_then_daily_stable() {
    let mut db = new_database();
    let daily = add_task(&mut db, base(), "每日", Kind::Daily, None).unwrap();
    let open1 = add_task(&mut db, base(), "不限时1", Kind::Open, None).unwrap();
    let open2 = add_task(&mut db, base(), "不限时2", Kind::Open, None).unwrap();
    let lim_far = add_task(&mut db, base(), "远期", Kind::Limited, Some(d(2026, 10, 1))).unwrap();
    let lim_today = add_task(&mut db, base(), "今天到期", Kind::Limited, Some(base())).unwrap();

    let view = build_view(&db, base());
    let ids: Vec<&str> = view.iter().map(|t| t.id.as_str()).collect();
    assert_eq!(
        ids,
        vec![
            lim_today.as_str(),
            lim_far.as_str(),
            open1.as_str(),
            open2.as_str(),
            daily.as_str()
        ]
    );
}

#[test]
fn b6_done_tasks_sink_to_bottom_ordered_by_completion() {
    let mut db = new_database();
    let d1 = add_task(&mut db, base(), "每日", Kind::Daily, None).unwrap();
    let o1 = add_task(&mut db, base(), "不限时", Kind::Open, None).unwrap();
    let l1 = add_task(&mut db, base(), "限时", Kind::Limited, Some(base())).unwrap();
    // Done on the same day: the order of creation decides.
    toggle_done(&mut db, base(), &o1).unwrap();
    toggle_done(&mut db, base(), &d1).unwrap();
    toggle_done(&mut db, base(), &l1).unwrap();

    let view = build_view(&db, base());
    let ids: Vec<&str> = view.iter().map(|t| t.id.as_str()).collect();
    assert_eq!(ids, vec![d1.as_str(), o1.as_str(), l1.as_str()]);

    // Done on different days: the earlier one first.
    let mut db2 = new_database();
    let _a = add_task(&mut db2, base(), "先完成", Kind::Open, None).unwrap();
    let b = add_task(&mut db2, base(), "后完成", Kind::Open, None).unwrap();
    toggle_done(&mut db2, base(), &b).unwrap();
    roll_over(&mut db2, base().succ_opt().unwrap());
    let mut db3 = new_database();
    let c1 = add_task(&mut db3, base(), "C", Kind::Open, None).unwrap();
    let c2 = add_task(&mut db3, base(), "D", Kind::Open, None).unwrap();
    toggle_done(&mut db3, base(), &c2).unwrap();
    let t = db3.tasks.iter_mut().find(|t| t.id == c1).unwrap();
    t.done_date = Some(base().pred_opt().unwrap());
    let view = build_view(&db3, base());
    assert_eq!(view[0].id, c1, "更早完成的排更前");
}

#[test]
fn b6_undone_come_before_done_across_kinds() {
    let mut db = new_database();
    let done_daily = add_task(&mut db, base(), "已完成每日", Kind::Daily, None).unwrap();
    toggle_done(&mut db, base(), &done_daily).unwrap();
    let undone_limited =
        add_task(&mut db, base(), "未完成限时", Kind::Limited, Some(d(2026, 10, 1))).unwrap();

    let view = build_view(&db, base());
    assert_eq!(view[0].id, undone_limited, "未完成限时优先于已完成每日");
    assert_eq!(view[1].id, done_daily);
}

// ── B7 changing kinds ──────────────────────────
#[test]
fn b7_kind_conversions_follow_contract() {
    let mut db = new_database();
    let id = add_task(&mut db, base(), "任务", Kind::Open, None).unwrap();

    set_kind(&mut db, &id, Kind::Daily, None).unwrap();
    assert_eq!(db.tasks[0].kind, Kind::Daily);

    assert_eq!(
        set_kind(&mut db, &id, Kind::Limited, None),
        Err(EngineError::DueDateRequired),
        "每日转限时必须补到期日"
    );
    set_kind(&mut db, &id, Kind::Limited, Some(d(2026, 9, 30))).unwrap();
    assert_eq!(db.tasks[0].due_date, Some(d(2026, 9, 30)));

    set_kind(&mut db, &id, Kind::Open, None).unwrap();
    assert_eq!(db.tasks[0].due_date, None, "转非限时清除到期日");

    toggle_done(&mut db, base(), &id).unwrap();
    set_kind(&mut db, &id, Kind::Daily, None).unwrap();
    assert_eq!(db.tasks[0].done_date, Some(base()), "完成态跨转换保留");
    assert!(db.archive.is_empty(), "类型修改不产生归档");
}

// ── B8 deleting archives ───────────────────────
#[test]
fn b8_delete_archives_never_destroys() {
    let mut db = new_database();
    let id = add_task(&mut db, base(), "删我", Kind::Open, None).unwrap();
    delete_task(&mut db, base(), &id).unwrap();
    assert!(db.tasks.is_empty());
    assert_eq!(db.archive.len(), 1);
    assert_eq!(db.archive[0].outcome, Outcome::DeletedByUser);
    assert_eq!(
        delete_task(&mut db, base(), &id),
        Err(EngineError::TaskNotFound)
    );
}

// ── B9 idempotence and catching up after sleep ─
#[test]
fn b9_roll_over_idempotent_within_same_day() {
    let mut db = new_database();
    let id = add_task(&mut db, base(), "t", Kind::Daily, None).unwrap();
    toggle_done(&mut db, base(), &id).unwrap();
    assert!(!roll_over(&mut db, base()), "同日重复推进应为 no-op");
    assert_eq!(db.tasks[0].done_date, Some(base()), "同日不重置");
}

#[test]
fn b9_sleep_span_equals_sequential_replay() {
    let build = |jump: bool| {
        let mut db = new_database();
        add_task(&mut db, base(), "限时未完成", Kind::Limited, Some(d(2026, 9, 26))).unwrap();
        let daily = add_task(&mut db, base(), "每日", Kind::Daily, None).unwrap();
        let open = add_task(&mut db, base(), "不限时", Kind::Open, None).unwrap();
        toggle_done(&mut db, base(), &daily).unwrap();
        toggle_done(&mut db, base(), &open).unwrap();
        let target = d(2026, 9, 28);
        if jump {
            roll_over(&mut db, target);
        } else {
            for day in [25, 26, 27, 28] {
                roll_over(&mut db, d(2026, 9, day));
            }
        }
        db
    };
    let jumped = build(true);
    let sequential = build(false);

    // Ids are random: compare the shape, not the whole database.
    let shape = |db: &Database| {
        (
            db.tasks
                .iter()
                .map(|t| (t.kind, t.due_date, t.done_date, t.created_date))
                .collect::<Vec<_>>(),
            db.archive
                .iter()
                .map(|a| (a.outcome, a.removed_date))
                .collect::<Vec<_>>(),
        )
    };
    assert_eq!(
        shape(&jumped),
        shape(&sequential),
        "一次跨 3 天必须与逐日重放完全等价"
    );
    assert_eq!(jumped.last_active_date, sequential.last_active_date);

    assert_eq!(jumped.tasks.len(), 1);
    assert_eq!(jumped.tasks[0].kind, Kind::Daily);
    assert_eq!(jumped.tasks[0].done_date, None);
    let outcomes: Vec<Outcome> = jumped.archive.iter().map(|a| a.outcome).collect();
    assert!(outcomes.contains(&Outcome::ExpiredUnfinished));
    assert!(outcomes.contains(&Outcome::CompletedOn));
}
