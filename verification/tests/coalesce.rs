//! Coalescing of move events.

use rustscreen::android_client::coalesce::MoveCoalescer;
use rustscreen::protocol::messages::{TouchEvent, TouchPhase};

fn ev(phase: TouchPhase, nx: f32) -> TouchEvent {
    TouchEvent {
        pointer_id: 0,
        phase,
        nx_bits: nx.to_bits(),
        ny_bits: 0,
    }
}

#[test]
fn single_move_is_buffered_then_flushed() {
    let mut c = MoveCoalescer::new();
    assert_eq!(c.on_event(ev(TouchPhase::Move, 0.5)), vec![]);
    assert_eq!(c.flush(), Some(ev(TouchPhase::Move, 0.5)));
}

#[test]
fn two_moves_keep_only_latest() {
    let mut c = MoveCoalescer::new();
    assert_eq!(c.on_event(ev(TouchPhase::Move, 0.1)), vec![]);
    assert_eq!(c.on_event(ev(TouchPhase::Move, 0.9)), vec![]);
    assert_eq!(c.flush(), Some(ev(TouchPhase::Move, 0.9)));
}

#[test]
fn down_is_returned_immediately_and_never_buffered() {
    let mut c = MoveCoalescer::new();
    assert_eq!(
        c.on_event(ev(TouchPhase::Down, 0.3)),
        vec![ev(TouchPhase::Down, 0.3)]
    );
    assert_eq!(c.flush(), None);
}

#[test]
fn pending_move_flushed_before_a_following_down() {
    let mut c = MoveCoalescer::new();
    assert_eq!(c.on_event(ev(TouchPhase::Move, 0.4)), vec![]);
    assert_eq!(
        c.on_event(ev(TouchPhase::Down, 0.4)),
        vec![ev(TouchPhase::Move, 0.4), ev(TouchPhase::Down, 0.4)]
    );
    assert_eq!(c.flush(), None);
}

#[test]
fn pending_move_flushed_before_a_following_up() {
    let mut c = MoveCoalescer::new();
    assert_eq!(c.on_event(ev(TouchPhase::Move, 0.7)), vec![]);
    assert_eq!(
        c.on_event(ev(TouchPhase::Up, 0.7)),
        vec![ev(TouchPhase::Move, 0.7), ev(TouchPhase::Up, 0.7)]
    );
    assert_eq!(c.flush(), None);
}

#[test]
fn flush_is_none_when_empty_and_clears_after_emitting() {
    let mut c = MoveCoalescer::new();
    assert_eq!(c.flush(), None);
    let _ = c.on_event(ev(TouchPhase::Move, 0.2));
    assert_eq!(c.flush(), Some(ev(TouchPhase::Move, 0.2)));
    assert_eq!(c.flush(), None);
}

#[test]
fn moves_coalesce_across_pointer_ids_single_cursor_model() {
    let mut c = MoveCoalescer::new();
    let p1 = TouchEvent {
        pointer_id: 1,
        phase: TouchPhase::Move,
        nx_bits: 0.1f32.to_bits(),
        ny_bits: 0,
    };
    let p2 = TouchEvent {
        pointer_id: 2,
        phase: TouchPhase::Move,
        nx_bits: 0.8f32.to_bits(),
        ny_bits: 0,
    };
    assert_eq!(c.on_event(p1), vec![]);
    assert_eq!(c.on_event(p2.clone()), vec![]);
    assert_eq!(c.flush(), Some(p2));
}
