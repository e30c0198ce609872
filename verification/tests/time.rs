//! Clocks.

use rustscreen::time::{Clock, FnClock};

#[test]
fn a_function_is_asked_once_per_reading() {
    let mut calls = 0u64;
    let mut clock = FnClock::new(|| {
        calls += 1;
        10 * calls
    });
    assert_eq!((clock.now_us(), clock.now_us(), clock.now_us()), (10, 20, 30));
    assert_eq!(calls, 3);
}
