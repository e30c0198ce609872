//! A default value is a fresh one.

use rustscreen::android_client::coalesce::MoveCoalescer;
use rustscreen::android_client::decode::DecodeSession;
use rustscreen::android_client::rendezvous::{SurfaceChange, SurfaceMailbox, Taken, WindowSlot};
use rustscreen::macos_host::latency::{LatencyAccum, LatencyReport};

#[test]
fn defaults_are_fresh() {
    assert_eq!(MoveCoalescer::default().flush(), None);
    assert_eq!(DecodeSession::default(), DecodeSession::new());
    assert_eq!(WindowSlot::<u8>::default().take_blocking(3, 10), Taken::Wait(7));
    assert_eq!(SurfaceMailbox::<u8>::default().take(), SurfaceChange::Unchanged);
    assert_eq!(LatencyAccum::default().min_us(), None);
    assert_eq!(LatencyReport::default(), LatencyReport::new());
}
