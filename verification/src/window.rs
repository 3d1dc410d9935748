//! Decisions of the window shell: where the main window starts, which
//! geometry is remembered, and how the floating ball folds and unfolds. The
//! calls into the windowing system stay with the caller.

use crate::todo::{default_window, Database, WindowState};
use vstd::prelude::*;

verus! {

/// Narrower remembered widths are taken for leftovers of the ball and ignored.
pub const MIN_VALID_W: u32 = 150;

/// Side of the floating ball window.
pub const BALL_SIZE: u32 = 64;

/// Size of the main window when nothing usable is remembered.
pub const DEFAULT_W: u32 = 300;

pub const DEFAULT_H: u32 = 520;

/// Where the main window goes at start.
#[derive(Debug, Clone, Copy, PartialEq, Eq)]
pub enum Placement {
    /// The remembered position and size.
    Saved { x: i32, y: i32, width: u32, height: u32 },
    /// The top right corner of the primary monitor, with a margin.
    TopRight,
}

/// Placement and stay-on-top flag of the main window at start.
#[derive(Debug, Clone, Copy, PartialEq, Eq)]
pub struct StartupGeometry {
    pub placement: Placement,
    pub always_on_top: bool,
}

/// The start geometry: the remembered one where its size is usable, else the
/// top right corner; on top as remembered, and on top by default.
pub fn startup_geometry(saved: Option<WindowState>) -> (r: StartupGeometry)
    ensures
        r.placement == match saved {
            Some(ws) => if ws.width >= MIN_VALID_W && ws.height > 0 {
                Placement::Saved { x: ws.x, y: ws.y, width: ws.width, height: ws.height }
            } else {
                Placement::TopRight
            },
            None => Placement::TopRight,
        },
        r.always_on_top == match saved {
            Some(ws) => ws.always_on_top,
            None => true,
        },
{
    let placement = match saved {
        Some(ws) => {
            if ws.width >= MIN_VALID_W && ws.height > 0 {
                Placement::Saved { x: ws.x, y: ws.y, width: ws.width, height: ws.height }
            } else {
                Placement::TopRight
            }
        },
        None => Placement::TopRight,
    };
    let always_on_top = match saved {
        Some(ws) => ws.always_on_top,
        None => true,
    };
    StartupGeometry { placement, always_on_top }
}

/// Left edge that puts a window of width `window_width` at the right edge of
/// a monitor of width `monitor_width`, `margin` pixels in. Widths are read as
/// `i32` the way the window system's `as i32` reads them.
pub fn top_right_x(monitor_width: u32, window_width: u32, margin: i32) -> (r: i32)
    requires
        i32::MIN <= monitor_width as i32 - window_width as i32 <= i32::MAX,
        i32::MIN <= monitor_width as i32 - window_width as i32 - margin <= i32::MAX,
    ensures
        r == monitor_width as i32 - window_width as i32 - margin,
{
    monitor_width as i32 - window_width as i32 - margin
}

/// The remembered window, or the default one.
pub open spec fn window_or_default(db: Database) -> WindowState {
    match db.window {
        Some(w) => w,
        None => default_window(),
    }
}

/// Remember a moved or resized main window, keeping its other settings.
/// While the ball is shown nothing is remembered. Returns whether the
/// database changed (and is to be saved).
pub fn record_geometry(db: &mut Database, x: i32, y: i32, width: u32, height: u32) -> (r: bool)
    ensures
        r == !(old(db).window matches Some(w) && w.ball_mode),
        !r ==> *final(db) == *old(db),
        r ==> *final(db) == (Database {
            window: Some(WindowState { x, y, width, height, ..window_or_default(*old(db)) }),
            ..*old(db)
        }),
{
    if let Some(w) = db.window {
        if w.ball_mode {
            return false;
        }
    }
    let mut ws = match db.window {
        Some(w) => w,
        None => WindowState::default(),
    };
    ws.x = x;
    ws.y = y;
    ws.width = width;
    ws.height = height;
    db.window = Some(ws);
    true
}

/// Fold the main window into the ball: remember its real geometry (with its
/// stay-on-top and opacity settings) for the way back. A missing window
/// record is created with defaults.
pub fn enter_ball(db: &mut Database, x: i32, y: i32, width: u32, height: u32)
    ensures
        *final(db) == (Database {
            window: Some(window_or_default(*old(db))),
            pre_ball: Some(
                WindowState {
                    x,
                    y,
                    width,
                    height,
                    always_on_top: window_or_default(*old(db)).always_on_top,
                    opacity_bits: window_or_default(*old(db)).opacity_bits,
                    ball_mode: false,
                },
            ),
            ..*old(db)
        }),
{
    let ws = match db.window {
        Some(w) => w,
        None => WindowState::default(),
    };
    db.window = Some(ws);
    db.pre_ball = Some(
        WindowState {
            x,
            y,
            width,
            height,
            always_on_top: ws.always_on_top,
            opacity_bits: ws.opacity_bits,
            ball_mode: false,
        },
    );
}

/// Size and opacity of the main window when the ball unfolds: the geometry
/// remembered on folding where it is usable, else the default size with the
/// window's own opacity.
pub fn expand_target(db: &Database) -> (r: (u32, u32, Option<u32>))
    ensures
        r == match db.pre_ball {
            Some(pre) => if pre.width >= MIN_VALID_W {
                (pre.width, pre.height, pre.opacity_bits)
            } else {
                (DEFAULT_W, DEFAULT_H, window_or_default(*db).opacity_bits)
            },
            None => (DEFAULT_W, DEFAULT_H, window_or_default(*db).opacity_bits),
        },
{
    match db.pre_ball {
        Some(pre) => {
            if pre.width >= MIN_VALID_W {
                return (pre.width, pre.height, pre.opacity_bits);
            }
        },
        None => {},
    }
    let ws = match db.window {
        Some(w) => w,
        None => WindowState::default(),
    };
    (DEFAULT_W, DEFAULT_H, ws.opacity_bits)
}

pub open spec fn clamp_spec(v: int, lo: int, hi: int) -> int {
    if v < lo {
        lo
    } else if v > hi {
        hi
    } else {
        v
    }
}

/// Largest left (or top) edge that keeps a window of extent `target` on a
/// monitor of extent `monitor`; 0 where the window is the larger one.
pub open spec fn max_edge(monitor: u32, target: u32) -> int {
    let room = monitor as i32 - target as i32;
    if room > 0 {
        room as int
    } else {
        0
    }
}

/// Position of the unfolded main window: the ball's position, held so that
/// the window does not reach past the right or bottom edge of the monitor.
pub fn clamp_to_monitor(
    ball_x: i32,
    ball_y: i32,
    monitor_w: u32,
    monitor_h: u32,
    target_w: u32,
    target_h: u32,
) -> (r: (i32, i32))
    requires
        i32::MIN <= monitor_w as i32 - target_w as i32 <= i32::MAX,
        i32::MIN <= monitor_h as i32 - target_h as i32 <= i32::MAX,
    ensures
        r.0 == clamp_spec(ball_x as int, 0, max_edge(monitor_w, target_w)),
        r.1 == clamp_spec(ball_y as int, 0, max_edge(monitor_h, target_h)),
{
    let m_w = monitor_w as i32;
    let m_h = monitor_h as i32;
    let room_w = m_w - target_w as i32;
    let room_h = m_h - target_h as i32;
    let hi_x = if room_w > 0 {
        room_w
    } else {
        0
    };
    let hi_y = if room_h > 0 {
        room_h
    } else {
        0
    };
    let x = if ball_x < 0 {
        0
    } else if ball_x > hi_x {
        hi_x
    } else {
        ball_x
    };
    let y = if ball_y < 0 {
        0
    } else if ball_y > hi_y {
        hi_y
    } else {
        ball_y
    };
    (x, y)
}

/// The ball has unfolded: the window is out of ball mode and the remembered
/// geometry of the fold is dropped.
pub fn leave_ball(db: &mut Database)
    ensures
        *final(db) == (Database {
            window: match old(db).window {
                Some(w) => Some(WindowState { ball_mode: false, ..w }),
                None => None,
            },
            pre_ball: None,
            ..*old(db)
        }),
{
    if let Some(w) = db.window {
        db.window = Some(WindowState { ball_mode: false, ..w });
    }
    db.pre_ball = None;
}

/// Switch stay-on-top, creating the window record with defaults if missing.
pub fn set_pinned(db: &mut Database, on: bool)
    ensures
        *final(db) == (Database {
            window: Some(WindowState { always_on_top: on, ..window_or_default(*old(db)) }),
            ..*old(db)
        }),
{
    let mut ws = match db.window {
        Some(w) => w,
        None => WindowState::default(),
    };
    ws.always_on_top = on;
    db.window = Some(ws);
}

/// Store the glass opacity (an `f32` given by its bits, already clamped by
/// the caller), creating the window record with defaults if missing.
pub fn set_opacity_bits(db: &mut Database, bits: u32)
    ensures
        *final(db) == (Database {
            window: Some(WindowState { opacity_bits: Some(bits), ..window_or_default(*old(db)) }),
            ..*old(db)
        }),
{
    let mut ws = match db.window {
        Some(w) => w,
        None => WindowState::default(),
    };
    ws.opacity_bits = Some(bits);
    db.window = Some(ws);
}

/// The remembered glass opacity, by its bits; `None` means the default.
pub fn glass_opacity_bits(db: &Database) -> (r: Option<u32>)
    ensures
        r == match db.window {
            Some(w) => w.opacity_bits,
            None => None,
        },
{
    match db.window {
        Some(w) => w.opacity_bits,
        None => None,
    }
}

} // verus!
