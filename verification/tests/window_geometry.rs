use mytodo::todo::{always_on_top, new_database, WindowState};
use mytodo::window::{
    clamp_to_monitor, enter_ball, expand_target, glass_opacity_bits, leave_ball, record_geometry,
    set_opacity_bits, set_pinned, startup_geometry, top_right_x, Placement, DEFAULT_H, DEFAULT_W,
    MIN_VALID_W,
};

fn ws(x: i32, y: i32, width: u32, height: u32) -> WindowState {
    WindowState { x, y, width, height, always_on_top: false, opacity_bits: Some(0.7f32.to_bits()), ball_mode: false }
}

#[test]
fn startup_uses_usable_memory_else_top_right() {
    let g = startup_geometry(Some(ws(10, 20, 300, 500)));
    assert_eq!(g.placement, Placement::Saved { x: 10, y: 20, width: 300, height: 500 });
    assert!(!g.always_on_top);
    let g = startup_geometry(Some(ws(10, 20, MIN_VALID_W - 1, 500)));
    assert_eq!(g.placement, Placement::TopRight);
    let g = startup_geometry(Some(ws(10, 20, 300, 0)));
    assert_eq!(g.placement, Placement::TopRight);
    let g = startup_geometry(None);
    assert_eq!(g.placement, Placement::TopRight);
    assert!(g.always_on_top);
    assert_eq!(top_right_x(1920, 300, 16), 1604);
}

#[test]
fn geometry_is_remembered_except_in_ball_mode() {
    let mut db = new_database();
    assert!(record_geometry(&mut db, 5, 6, 310, 520));
    let w = db.window.unwrap();
    assert_eq!((w.x, w.y, w.width, w.height, w.always_on_top, w.opacity_bits), (5, 6, 310, 520, false, None));
    set_pinned(&mut db, true);
    set_opacity_bits(&mut db, 0.3f32.to_bits());
    assert!(record_geometry(&mut db, 7, 8, 320, 530));
    let w = db.window.unwrap();
    assert!(w.always_on_top);
    assert_eq!(w.opacity_bits, Some(0.3f32.to_bits()));
    assert_eq!(glass_opacity_bits(&db), Some(0.3f32.to_bits()));
    db.window = Some(WindowState { ball_mode: true, ..w });
    let before = db.clone();
    assert!(!record_geometry(&mut db, 0, 0, 56, 56));
    assert_eq!(db, before);
}

#[test]
fn ball_folds_and_unfolds() {
    let mut db = new_database();
    set_pinned(&mut db, false);
    assert!(!always_on_top(&db));
    enter_ball(&mut db, 100, 200, 300, 520);
    let pre = db.pre_ball.unwrap();
    assert_eq!((pre.x, pre.y, pre.width, pre.height, pre.always_on_top), (100, 200, 300, 520, false));
    assert_eq!(expand_target(&db), (300, 520, None));
    leave_ball(&mut db);
    assert_eq!(db.pre_ball, None);
    assert!(!db.window.unwrap().ball_mode);
    // Nothing usable remembered: the default size.
    let mut db2 = new_database();
    enter_ball(&mut db2, 0, 0, 56, 56);
    assert!(db2.window.is_some());
    assert_eq!(expand_target(&db2), (DEFAULT_W, DEFAULT_H, None));
}

#[test]
fn unfolded_window_stays_on_the_monitor() {
    assert_eq!(clamp_to_monitor(1800, 900, 1920, 1080, 300, 520), (1620, 560));
    assert_eq!(clamp_to_monitor(-30, -5, 1920, 1080, 300, 520), (0, 0));
    assert_eq!(clamp_to_monitor(50, 60, 1920, 1080, 300, 520), (50, 60));
    assert_eq!(clamp_to_monitor(50, 60, 200, 300, 300, 520), (0, 0));
}
