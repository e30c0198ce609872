//! From touch samples to touch events.

use rustscreen::android_client::touch::{action, normalize, phase_for_action, to_touch_event};
use rustscreen::protocol::messages::{TouchEvent, TouchPhase};

/// The normalized coordinate of a sample.
fn share(coord: f32, extent: f32) -> f32 {
    f32::from_bits(normalize(coord.to_bits(), extent.to_bits(), (coord / extent).to_bits()))
}

/// The event of a sample.
fn touch_event(
    masked_action: i32,
    pointer_id: u32,
    x: f32,
    y: f32,
    view_w: f32,
    view_h: f32,
) -> Option<TouchEvent> {
    let (nx, ny) = (share(x, view_w), share(y, view_h));
    to_touch_event(masked_action, pointer_id, nx.to_bits(), ny.to_bits())
}

#[test]
fn normalize_center_and_corners() {
    assert_eq!(share(0.0, 1080.0), 0.0);
    assert_eq!(share(1080.0, 1080.0), 1.0);
    assert_eq!(share(540.0, 1080.0), 0.5);
    assert_eq!(share(600.0, 2400.0), 0.25);
}

#[test]
fn normalize_clamps_out_of_range() {
    assert_eq!(share(-50.0, 1080.0), 0.0);
    assert_eq!(share(5000.0, 2400.0), 1.0);
}

#[test]
fn normalize_degenerate_extent_is_zero() {
    assert_eq!(share(100.0, 0.0), 0.0);
    assert_eq!(share(100.0, -10.0), 0.0);
    assert_eq!(share(100.0, f32::NAN), 0.0);
    assert_eq!(share(100.0, f32::INFINITY), 0.0);
}

#[test]
fn normalize_non_finite_coord_is_zero() {
    assert_eq!(share(f32::NAN, 1080.0), 0.0);
    assert_eq!(share(f32::INFINITY, 1080.0), 0.0);
    assert_eq!(share(f32::NEG_INFINITY, 1080.0), 0.0);
}

#[test]
fn phase_mapping_covers_all_single_pointer_actions() {
    assert_eq!(phase_for_action(action::DOWN), Some(TouchPhase::Down));
    assert_eq!(
        phase_for_action(action::POINTER_DOWN),
        Some(TouchPhase::Down)
    );
    assert_eq!(phase_for_action(action::MOVE), Some(TouchPhase::Move));
    assert_eq!(phase_for_action(action::UP), Some(TouchPhase::Up));
    assert_eq!(phase_for_action(action::POINTER_UP), Some(TouchPhase::Up));
    assert_eq!(phase_for_action(action::CANCEL), Some(TouchPhase::Up));
}

#[test]
fn phase_mapping_ignores_unhandled_actions() {
    assert_eq!(phase_for_action(7), None);
    assert_eq!(phase_for_action(8), None);
    assert_eq!(phase_for_action(-1), None);
}

#[test]
fn to_touch_event_normalizes_a_down_sample() {
    let ev = touch_event(action::DOWN, 1, 600.0, 810.0, 2400.0, 1080.0)
        .expect("DOWN maps to a TouchEvent");
    assert_eq!(
        ev,
        TouchEvent {
            pointer_id: 1,
            phase: TouchPhase::Down,
            nx_bits: 0.25f32.to_bits(),
            ny_bits: 0.75f32.to_bits(),
        }
    );
}

#[test]
fn to_touch_event_returns_none_for_unhandled_action() {
    assert!(touch_event(7, 0, 10.0, 10.0, 100.0, 100.0).is_none());
}

#[test]
fn to_touch_event_clamps_and_stays_finite_on_hostile_input() {
    let ev = touch_event(action::MOVE, 2, 9999.0, f32::NAN, 1000.0, 0.0)
        .expect("MOVE maps to a TouchEvent");
    assert_eq!(f32::from_bits(ev.nx_bits), 1.0);
    assert_eq!(f32::from_bits(ev.ny_bits), 0.0);
    assert_eq!(ev.phase, TouchPhase::Move);
    assert_eq!(ev.pointer_id, 2);
}

#[test]
fn an_overflowing_share_is_clamped() {
    assert_eq!(share(f32::MAX, f32::MIN_POSITIVE), 1.0);
    assert_eq!(share(f32::MIN, f32::MIN_POSITIVE), 0.0);
}
