//! From touch events to pointer actions.

use rustscreen::macos_host::touch::{
    inject, unit_point, LeftButton, MapError, MouseEvent, PointerAction, PointerStateMachine,
    UnitPoint,
};
use rustscreen::protocol::messages::{TouchEvent, TouchPhase};

#[derive(Debug, Clone, Copy, PartialEq)]
struct DisplayRect {
    x: f64,
    y: f64,
    w: f64,
    h: f64,
}

#[derive(Debug, Clone, Copy, PartialEq)]
struct CgPoint {
    x: f64,
    y: f64,
}

#[derive(Debug, Clone, Copy, PartialEq)]
enum Action {
    Down { at: CgPoint },
    Move { at: CgPoint },
    Up { at: CgPoint },
}

/// Scale a point of the unit square onto a display.
fn place(at: UnitPoint, rect: DisplayRect) -> CgPoint {
    CgPoint {
        x: rect.x + f32::from_bits(at.nx_bits) as f64 * rect.w,
        y: rect.y + f32::from_bits(at.ny_bits) as f64 * rect.h,
    }
}

fn map_normalized_to_global(nx: f32, ny: f32, rect: DisplayRect) -> Result<CgPoint, MapError> {
    unit_point(nx.to_bits(), ny.to_bits()).map(|at| place(at, rect))
}

fn placed(action: PointerAction) -> Action {
    match action {
        PointerAction::Down { at } => Action::Down { at: place(at, RECT) },
        PointerAction::Move { at } => Action::Move { at: place(at, RECT) },
        PointerAction::Up { at } => Action::Up { at: place(at, RECT) },
    }
}

fn step(sm: &mut PointerStateMachine, ev: &TouchEvent) -> Result<Option<Action>, MapError> {
    sm.step(ev).map(|action| action.map(placed))
}

#[test]
fn map_corners_no_y_flip() {
    let rect = DisplayRect {
        x: 1512.0,
        y: 0.0,
        w: 2400.0,
        h: 1080.0,
    };
    assert_eq!(
        map_normalized_to_global(0.0, 0.0, rect).unwrap(),
        CgPoint { x: 1512.0, y: 0.0 }
    );
    assert_eq!(
        map_normalized_to_global(1.0, 1.0, rect).unwrap(),
        CgPoint {
            x: 3912.0,
            y: 1080.0
        }
    );
    assert_eq!(map_normalized_to_global(0.5, 0.0, rect).unwrap().y, 0.0);
}

#[test]
fn map_center() {
    let rect = DisplayRect {
        x: 1512.0,
        y: 0.0,
        w: 2400.0,
        h: 1080.0,
    };
    assert_eq!(
        map_normalized_to_global(0.5, 0.5, rect).unwrap(),
        CgPoint {
            x: 1512.0 + 1200.0,
            y: 540.0
        }
    );
}

#[test]
fn map_negative_origin_rect() {
    let rect = DisplayRect {
        x: -2400.0,
        y: 0.0,
        w: 2400.0,
        h: 1080.0,
    };
    assert_eq!(map_normalized_to_global(0.0, 0.0, rect).unwrap().x, -2400.0);
    assert_eq!(map_normalized_to_global(1.0, 0.0, rect).unwrap().x, 0.0);
}

#[test]
fn map_non_unit_scale_rect() {
    let rect = DisplayRect {
        x: 0.0,
        y: 0.0,
        w: 2400.0,
        h: 1080.0,
    };
    assert_eq!(
        map_normalized_to_global(0.25, 0.75, rect).unwrap(),
        CgPoint { x: 600.0, y: 810.0 }
    );
}

#[test]
fn map_clamps_finite_out_of_range() {
    let rect = DisplayRect {
        x: 0.0,
        y: 0.0,
        w: 2400.0,
        h: 1080.0,
    };
    assert_eq!(
        map_normalized_to_global(-0.2, 1.3, rect).unwrap(),
        CgPoint { x: 0.0, y: 1080.0 }
    );
}

#[test]
fn map_rejects_nan() {
    let rect = DisplayRect {
        x: 0.0,
        y: 0.0,
        w: 2400.0,
        h: 1080.0,
    };
    assert_eq!(
        map_normalized_to_global(f32::NAN, 0.5, rect),
        Err(MapError::NotFinite)
    );
    assert_eq!(
        map_normalized_to_global(0.5, f32::NAN, rect),
        Err(MapError::NotFinite)
    );
}

#[test]
fn map_rejects_inf() {
    let rect = DisplayRect {
        x: 0.0,
        y: 0.0,
        w: 2400.0,
        h: 1080.0,
    };
    assert_eq!(
        map_normalized_to_global(f32::INFINITY, 0.5, rect),
        Err(MapError::NotFinite)
    );
    assert_eq!(
        map_normalized_to_global(0.5, f32::NEG_INFINITY, rect),
        Err(MapError::NotFinite)
    );
}

const RECT: DisplayRect = DisplayRect {
    x: 0.0,
    y: 0.0,
    w: 2400.0,
    h: 1080.0,
};

fn ev(id: u32, phase: TouchPhase, nx: f32, ny: f32) -> TouchEvent {
    TouchEvent {
        pointer_id: id,
        phase,
        nx_bits: nx.to_bits(),
        ny_bits: ny.to_bits(),
    }
}

#[test]
fn fsm_tap_is_down_then_up() {
    let mut sm = PointerStateMachine::new();
    let at = CgPoint { x: 600.0, y: 810.0 };
    let down = step(&mut sm, &ev(1, TouchPhase::Down, 0.25, 0.75)).unwrap();
    let up = step(&mut sm, &ev(1, TouchPhase::Up, 0.25, 0.75)).unwrap();
    assert_eq!(down, Some(Action::Down { at }));
    assert_eq!(up, Some(Action::Up { at }));
}

#[test]
fn fsm_drag_emits_down_moves_up() {
    let mut sm = PointerStateMachine::new();
    let a = step(&mut sm, &ev(1, TouchPhase::Down, 0.0, 0.0)).unwrap();
    let b = step(&mut sm, &ev(1, TouchPhase::Move, 0.5, 0.5)).unwrap();
    let c = step(&mut sm, &ev(1, TouchPhase::Move, 1.0, 1.0)).unwrap();
    let d = step(&mut sm, &ev(1, TouchPhase::Up, 1.0, 1.0)).unwrap();
    assert_eq!(
        a,
        Some(Action::Down {
            at: CgPoint { x: 0.0, y: 0.0 }
        })
    );
    assert_eq!(
        b,
        Some(Action::Move {
            at: CgPoint {
                x: 1200.0,
                y: 540.0
            }
        })
    );
    assert_eq!(
        c,
        Some(Action::Move {
            at: CgPoint {
                x: 2400.0,
                y: 1080.0
            }
        })
    );
    assert_eq!(
        d,
        Some(Action::Up {
            at: CgPoint {
                x: 2400.0,
                y: 1080.0
            }
        })
    );
}

#[test]
fn fsm_second_pointer_ignored_mid_gesture() {
    let mut sm = PointerStateMachine::new();
    step(&mut sm, &ev(1, TouchPhase::Down, 0.1, 0.1)).unwrap();
    assert_eq!(
        step(&mut sm, &ev(2, TouchPhase::Move, 0.9, 0.9)).unwrap(),
        None
    );
}

#[test]
fn fsm_second_pointer_down_ignored_mid_gesture() {
    let mut sm = PointerStateMachine::new();
    step(&mut sm, &ev(1, TouchPhase::Down, 0.1, 0.1)).unwrap();
    assert_eq!(
        step(&mut sm, &ev(2, TouchPhase::Down, 0.9, 0.9)).unwrap(),
        None
    );
    assert_eq!(
        step(&mut sm, &ev(1, TouchPhase::Move, 0.5, 0.5)).unwrap(),
        Some(Action::Move {
            at: CgPoint {
                x: 1200.0,
                y: 540.0
            }
        })
    );
}

#[test]
fn fsm_stray_move_without_down_is_noop() {
    let mut sm = PointerStateMachine::new();
    assert_eq!(
        step(&mut sm, &ev(1, TouchPhase::Move, 0.5, 0.5)).unwrap(),
        None
    );
}

#[test]
fn fsm_up_without_down_is_noop() {
    let mut sm = PointerStateMachine::new();
    assert_eq!(
        step(&mut sm, &ev(1, TouchPhase::Up, 0.5, 0.5)).unwrap(),
        None
    );
}

#[test]
fn fsm_propagates_map_error() {
    let mut sm = PointerStateMachine::new();
    assert_eq!(
        step(&mut sm, &ev(1, TouchPhase::Down, f32::NAN, 0.5)),
        Err(MapError::NotFinite)
    );
    assert_eq!(
        step(&mut sm, &ev(1, TouchPhase::Down, 0.0, 0.0)).unwrap(),
        Some(Action::Down {
            at: CgPoint { x: 0.0, y: 0.0 }
        })
    );
}

#[test]
fn fsm_recording_sink_drives_end_to_end() {
    let mut sm = PointerStateMachine::default();
    let mut sink: Vec<PointerAction> = Vec::new();
    let seq = [
        ev(1, TouchPhase::Down, 0.0, 0.0),
        ev(1, TouchPhase::Move, 0.5, 0.5),
        ev(2, TouchPhase::Move, 0.9, 0.9),
        ev(1, TouchPhase::Up, 1.0, 1.0),
    ];
    let mut dispatched = 0;
    for e in &seq {
        if inject(&mut sm, e, &mut sink).unwrap() {
            dispatched += 1;
        }
    }
    assert_eq!(dispatched, 3);
    let actions: Vec<Action> = sink.iter().map(|a| placed(*a)).collect();
    assert_eq!(
        actions,
        vec![
            Action::Down { at: CgPoint { x: 0.0, y: 0.0 } },
            Action::Move { at: CgPoint { x: 1200.0, y: 540.0 } },
            Action::Up { at: CgPoint { x: 2400.0, y: 1080.0 } },
        ]
    );
    let mut button = LeftButton::new();
    let events: Vec<MouseEvent> = sink.iter().map(|a| button.render(a)).collect();
    assert_eq!(events, vec![MouseEvent::LeftDown, MouseEvent::LeftDragged, MouseEvent::LeftUp]);
    assert!(!button.pressed);
}

#[test]
fn a_move_without_a_press_is_a_plain_move() {
    let at = unit_point(0, 0).unwrap();
    assert_eq!(LeftButton::new().render(&PointerAction::Move { at }), MouseEvent::Moved);
}

#[test]
fn a_rejected_event_does_not_end_the_gesture() {
    let mut sm = PointerStateMachine::new();
    step(&mut sm, &ev(1, TouchPhase::Down, 0.0, 0.0)).unwrap();
    assert_eq!(step(&mut sm, &ev(1, TouchPhase::Up, 0.5, f32::NAN)), Err(MapError::NotFinite));
    assert!(step(&mut sm, &ev(1, TouchPhase::Up, 0.5, 0.5)).unwrap().is_some());
}
