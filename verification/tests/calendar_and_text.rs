use mytodo::day::{Day, MAX_CE, MAX_YEAR, MIN_CE, MIN_YEAR};
use mytodo::notify::{build_toast, due_body};
use mytodo::todo::{add_task, edit_text, new_database, EngineError, Kind};

fn d(y: i32, m: u32, day: u32) -> Day {
    Day::from_ymd(y, m, day).unwrap()
}

#[test]
fn day_numbers_follow_the_gregorian_calendar() {
    assert_eq!(d(1, 1, 1).ce, 1);
    assert_eq!(d(0, 12, 31).ce, 0);
    assert_eq!(d(1999, 9, 3).ce, 730_000);
    assert_eq!(d(2026, 9, 24).ce, 739_883);
    assert_eq!(d(2026, 10, 1).ce - d(2026, 9, 24).ce, 7);
    assert_eq!(d(2024, 3, 1).ce - d(2024, 2, 28).ce, 2);
    assert_eq!(d(2100, 3, 1).ce - d(2100, 2, 28).ce, 1);
    assert!(Day::from_ymd(2015, 2, 29).is_none());
    assert!(Day::from_ymd(2016, 2, 29).is_some());
    assert!(Day::from_ymd(-4, 2, 29).is_some());
    assert!(Day::from_ymd(2015, 0, 14).is_none());
    assert!(Day::from_ymd(2015, 4, 31).is_none());
    assert!(Day::from_ymd(400_000, 1, 1).is_none());
    assert!(Day::from_ymd(-400_000, 1, 1).is_none());
}

#[test]
fn calendar_bounds() {
    assert_eq!(d(MIN_YEAR, 1, 1).ce, MIN_CE);
    assert_eq!(d(MAX_YEAR, 12, 31).ce, MAX_CE);
    assert!(Day::from_ymd(MIN_YEAR - 1, 12, 31).is_none());
    assert!(Day::from_ymd(MAX_YEAR + 1, 1, 1).is_none());
    assert_eq!(Day::from_ce(MAX_CE + 1), None);
    assert_eq!(Day::from_ce(MIN_CE - 1), None);
    assert_eq!(Day::from_ce(5), Some(Day { ce: 5 }));
    assert_eq!(d(MAX_YEAR, 12, 31).succ_opt(), None);
    assert_eq!(d(MIN_YEAR, 1, 1).pred_opt(), None);
    assert_eq!(d(2026, 12, 31).succ_opt(), Some(d(2027, 1, 1)));
    assert_eq!(d(2024, 3, 1).pred_opt(), Some(d(2024, 2, 29)));
}

#[test]
fn text_is_trimmed_of_unicode_white_space() {
    let mut db = new_database();
    let today = d(2026, 9, 24);
    add_task(&mut db, today, "\u{3000}\t读书 \u{a0}\n", Kind::Open, None).unwrap();
    assert_eq!(db.tasks[0].text, "读书");
    assert_eq!(
        add_task(&mut db, today, "\u{2028}\u{85} \u{205f}", Kind::Daily, None),
        Err(EngineError::EmptyText)
    );
    // Inner white space stays.
    let id = add_task(&mut db, today, " a  b ", Kind::Open, None).unwrap();
    edit_text(&mut db, &id, "\u{2003}c d\u{2009}").unwrap();
    assert_eq!(db.tasks[1].text, "c d");
}

#[test]
fn task_ids_are_random_uuids() {
    let mut db = new_database();
    let today = d(2026, 9, 24);
    let a = add_task(&mut db, today, "a", Kind::Open, None).unwrap();
    let b = add_task(&mut db, today, "b", Kind::Open, None).unwrap();
    for id in [&a, &b] {
        let c: Vec<char> = id.chars().collect();
        assert_eq!(c.len(), 36);
        for (i, ch) in c.iter().enumerate() {
            if [8, 13, 18, 23].contains(&i) {
                assert_eq!(*ch, '-');
            } else {
                assert!(ch.is_ascii_hexdigit() && !ch.is_ascii_uppercase());
            }
        }
        assert_eq!(c[14], '4');
        assert!(['8', '9', 'a', 'b'].contains(&c[19]));
    }
    assert_ne!(a, b);
}

#[test]
fn reminder_body_counts_in_decimal() {
    let names: Vec<String> = (0..12).map(|i| format!("t{}", i)).collect();
    assert_eq!(due_body(&names), "今天有 12 件任务到期：t0、t1、t2 等");
    assert_eq!(due_body(&[]), "今天有 0 件任务到期：");
    assert_eq!(due_body(&["一".to_string()]), "今天有 1 件任务到期：一");
    let three: Vec<String> = ["a", "b", "c"].iter().map(|s| s.to_string()).collect();
    assert_eq!(due_body(&three), "今天有 3 件任务到期：a、b、c");
    let toast = build_toast(&three);
    assert_eq!(toast.title, "MyToDo · 任务到期");
    assert_eq!(toast.body, "今天有 3 件任务到期：a、b、c");
}

#[test]
fn error_messages() {
    assert_eq!(EngineError::EmptyText.message(), "任务内容不能为空");
    assert_eq!(EngineError::DueDateRequired.message(), "限时任务需要选择到期日期");
    assert_eq!(EngineError::TaskNotFound.message(), "任务不存在");
}
