//! Clock-offset estimation.

use rustscreen::protocol::clock::estimate;

#[test]
fn symmetric_delay_zero_offset() {
    let o = estimate(0, 100, 110, 210);
    assert_eq!(o.offset_us, 0);
    assert_eq!(o.rtt_us, 200);
}

#[test]
fn known_offset_symmetric_delay() {
    let o = estimate(0, 150, 150, 200);
    assert_eq!(o.offset_us, 50);
    assert_eq!(o.rtt_us, 200);
}

#[test]
fn phone_behind_negative_offset() {
    let o = estimate(0, 50, 50, 200);
    assert_eq!(o.offset_us, -50);
    assert_eq!(o.rtt_us, 200);
}

#[test]
fn rtt_excludes_server_hold() {
    let o = estimate(0, 100, 140, 200);
    assert_eq!(o.rtt_us, 160);
}

#[test]
fn non_monotonic_clamps_rtt_to_zero() {
    let o = estimate(0, 100, 500, 200);
    assert_eq!(o.rtt_us, 0);
}

/// The offset error is at most half the difference between the two delays.
#[test]
fn asymmetric_delay_shifts_the_offset_by_half_the_difference() {
    // 300 us up, 100 us down, equal clocks.
    let o = estimate(1000, 1300, 1300, 1400);
    assert_eq!(o.offset_us, 100);
    assert_eq!(o.rtt_us, 400);
}

#[test]
fn the_offset_of_a_phone_with_a_younger_clock() {
    let o = estimate(1_000_000_000_000, 5, 6, 1_000_000_000_300);
    assert_eq!(o.offset_us, -1_000_000_000_144);
    assert_eq!(o.rtt_us, 299);
}

#[test]
fn extreme_times_do_not_panic() {
    let o = estimate(0, u64::MAX, u64::MAX, 0);
    // Twice the largest time, halved, keeps its low 64 bits.
    assert_eq!(o.offset_us, -1);
    assert_eq!(o.rtt_us, 0);
}
