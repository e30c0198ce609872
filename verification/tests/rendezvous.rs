//! Handing the render surface to the decode thread.

use rustscreen::android_client::rendezvous::{
    react, ActivityEvent, ActivityReaction, SurfaceChange, SurfaceHolders, SurfaceMailbox, Taken,
    WindowSlot,
};

/// Wait for a window on a clock that jumps to the end of every wait.
fn take_within<T>(slot: &mut WindowSlot<T>, timeout_ms: u64) -> Option<T> {
    let mut waited = 0;
    loop {
        match slot.take_blocking(waited, timeout_ms) {
            Taken::Window(w) => return Some(w),
            Taken::TimedOut => return None,
            Taken::Wait(ms) => waited += ms,
        }
    }
}

#[test]
fn put_then_take_returns_window() {
    let mut slot: WindowSlot<&str> = WindowSlot::new();
    slot.put("surface");
    assert_eq!(take_within(&mut slot, 1000), Some("surface"));
}

#[test]
fn take_consumes_so_second_take_times_out() {
    let mut slot: WindowSlot<&str> = WindowSlot::new();
    slot.put("surface");
    assert_eq!(take_within(&mut slot, 1000), Some("surface"));
    assert_eq!(take_within(&mut slot, 20), None);
}

#[test]
fn take_blocks_until_put_arrives_later() {
    let mut slot: WindowSlot<i32> = WindowSlot::new();
    assert!(matches!(slot.take_blocking(0, 2000), Taken::Wait(2000)));
    slot.put(42);
    assert!(matches!(slot.take_blocking(50, 2000), Taken::Window(42)));
}

#[test]
fn take_times_out_when_no_window() {
    let mut slot: WindowSlot<i32> = WindowSlot::new();
    assert_eq!(take_within(&mut slot, 20), None);
}

#[test]
fn clear_retracts_window_so_take_does_not_hand_out_a_stale_one() {
    let mut slot: WindowSlot<&str> = WindowSlot::new();
    slot.put("stale-surface");
    slot.clear();
    assert_eq!(take_within(&mut slot, 20), None);
}

#[test]
fn clear_on_empty_slot_is_a_noop() {
    let mut slot: WindowSlot<i32> = WindowSlot::new();
    slot.clear();
    assert_eq!(take_within(&mut slot, 10), None);
}

#[test]
fn take_blocking_respects_its_deadline_under_a_wakeup_storm() {
    // Woken every ten milliseconds without a window: each wait is shorter than the one before.
    let mut slot: WindowSlot<i32> = WindowSlot::new();
    for waited in [0u64, 10, 20, 30, 40, 50, 60, 70, 80, 90] {
        slot.clear();
        match slot.take_blocking(waited, 100) {
            Taken::Wait(left) => assert_eq!(left, 100 - waited),
            _ => panic!("gave up after {waited} ms"),
        }
    }
    assert!(matches!(slot.take_blocking(100, 100), Taken::TimedOut));
    assert!(matches!(slot.take_blocking(400, 100), Taken::TimedOut));
}

fn swapped<T>(c: SurfaceChange<T>) -> Option<T> {
    match c {
        SurfaceChange::Swap(w) => Some(w),
        _ => None,
    }
}
fn is_lost<T>(c: &SurfaceChange<T>) -> bool {
    matches!(c, SurfaceChange::Lost)
}
fn is_none<T>(c: &SurfaceChange<T>) -> bool {
    matches!(c, SurfaceChange::Unchanged)
}

#[test]
fn mailbox_starts_clean() {
    let mut mb: SurfaceMailbox<&str> = SurfaceMailbox::new();
    assert!(!mb.is_dirty(), "a fresh mailbox has nothing to apply");
    assert!(is_none(&mb.take()));
}

#[test]
fn deposit_yields_one_swap_then_goes_clean() {
    let mut mb: SurfaceMailbox<&str> = SurfaceMailbox::new();
    mb.deposit("surface-2");
    assert!(mb.is_dirty(), "a deposit shows at once");
    assert_eq!(swapped(mb.take()), Some("surface-2"));
    assert!(!mb.is_dirty(), "a change is taken once");
    assert!(is_none(&mb.take()), "a second poll sees no change");
}

#[test]
fn mark_lost_yields_one_lost_then_goes_clean() {
    let mut mb: SurfaceMailbox<&str> = SurfaceMailbox::new();
    mb.mark_lost();
    assert!(mb.is_dirty());
    assert!(is_lost(&mb.take()));
    assert!(!mb.is_dirty());
    assert!(is_none(&mb.take()));
}

#[test]
fn deposit_then_lost_reports_lost_and_drops_the_destroyed_surface() {
    let mut mb: SurfaceMailbox<&str> = SurfaceMailbox::new();
    mb.deposit("doomed-surface");
    mb.mark_lost();
    assert!(
        is_lost(&mb.take()),
        "destroy after deposit must win → pause render"
    );
    assert!(is_none(&mb.take()));
}

#[test]
fn lost_then_deposit_reports_swap_freshest_wins() {
    let mut mb: SurfaceMailbox<&str> = SurfaceMailbox::new();
    mb.mark_lost();
    mb.deposit("surface-new");
    assert_eq!(swapped(mb.take()), Some("surface-new"));
    assert!(
        is_none(&mb.take()),
        "the loss was superseded, not also reported"
    );
}

#[test]
fn newest_deposit_supersedes_an_untaken_one() {
    let mut mb: SurfaceMailbox<i32> = SurfaceMailbox::new();
    mb.deposit(1);
    mb.deposit(2);
    assert_eq!(
        swapped(mb.take()),
        Some(2),
        "only the freshest surface is handed out"
    );
    assert!(is_none(&mb.take()));
}

#[test]
fn a_retracted_surface_is_gone_everywhere() {
    let mut holders: SurfaceHolders<i32> = SurfaceHolders::new();
    assert!(is_none(&holders.change()));
    holders.deposit(1, 2, 3);
    assert_eq!(holders.current(), Some(&2));
    assert!(matches!(holders.take(0, 10), Taken::Window(3)));
    assert_eq!(swapped(holders.change()), Some(1));
    // The next session is offered the surface that is still there.
    assert!(matches!(holders.take(0, 10), Taken::Wait(10)));
    holders.reseed(Some(4));
    holders.reseed(None);
    assert!(matches!(holders.take(0, 10), Taken::Window(4)));
    holders.deposit(5, 6, 7);
    holders.retract();
    assert_eq!(holders.current(), None);
    assert!(matches!(holders.take(10, 10), Taken::TimedOut));
    assert!(is_lost(&holders.change()));
    assert!(is_none(&holders.change()));
}

#[test]
fn the_activity_is_followed() {
    assert_eq!(react(ActivityEvent::InitWindow), ActivityReaction::Deposit);
    assert_eq!(react(ActivityEvent::TerminateWindow), ActivityReaction::Retract);
    assert_eq!(react(ActivityEvent::InputAvailable), ActivityReaction::DrainInput);
    assert_eq!(react(ActivityEvent::Destroy), ActivityReaction::RetractAndExit);
    assert_eq!(react(ActivityEvent::Other), ActivityReaction::Ignore);
}
