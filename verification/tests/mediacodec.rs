//! Driving the hardware decoder.

use rustscreen::android_client::mediacodec::{
    check_configure, csd0, nanoseconds, use_slot, CodecDepth, ConfigureRefusal, DrainStep,
    InputStep, InputWait, OutputDrain, SlotUse, DEQUEUE_TIMEOUT_US, INFO_OUTPUT_BUFFERS_CHANGED,
    INFO_OUTPUT_FORMAT_CHANGED, INFO_TRY_AGAIN_LATER, MAX_INPUT_DEQUEUE_ATTEMPTS,
};
use rustscreen::protocol::messages::VideoCodec;
use rustscreen::protocol::nal::CodecConfig;

#[test]
fn the_decoder_is_configured_once_with_a_surface() {
    assert_eq!(check_configure(VideoCodec::H264, false, true), Ok(()));
    assert_eq!(
        check_configure(VideoCodec::Hevc, true, false),
        Err(ConfigureRefusal::UnsupportedCodec)
    );
    assert_eq!(
        check_configure(VideoCodec::H264, true, false),
        Err(ConfigureRefusal::Reconfigure)
    );
    assert_eq!(
        check_configure(VideoCodec::H264, false, false),
        Err(ConfigureRefusal::NoSurface)
    );
    let config = CodecConfig { sps: vec![0x67, 1], pps: vec![0x68] };
    assert_eq!(csd0(&config), vec![0, 0, 0, 1, 0x67, 1, 0, 0, 0, 1, 0x68]);
}

#[test]
fn a_slot_is_waited_for_so_often() {
    let mut wait = InputWait::new();
    for _ in 0..MAX_INPUT_DEQUEUE_ATTEMPTS - 1 {
        assert_eq!(wait.on_dequeue(-1), InputStep::DrainAndRetry);
    }
    let mut lucky = wait;
    assert_eq!(lucky.on_dequeue(4), InputStep::Fill(4));
    assert_eq!(wait.on_dequeue(-1), InputStep::DrainAndStall);
}

#[test]
fn a_slot_always_goes_back() {
    assert_eq!(use_slot(Some(10), 10), SlotUse::Queue);
    assert_eq!(use_slot(Some(10), 11), SlotUse::ReturnTooSmall);
    assert_eq!(use_slot(None, 0), SlotUse::ReturnMissing);
}

#[test]
fn only_the_newest_frame_is_shown() {
    let mut drain = OutputDrain::new();
    assert_eq!(drain.timeout_us(), DEQUEUE_TIMEOUT_US);
    assert_eq!(drain.on_dequeue(INFO_OUTPUT_FORMAT_CHANGED, 0, 0), DrainStep::Again);
    assert_eq!(drain.on_dequeue(7, 100, 1000), DrainStep::Again);
    assert_eq!(drain.timeout_us(), 0);
    assert_eq!(drain.on_dequeue(INFO_OUTPUT_BUFFERS_CHANGED, 0, 0), DrainStep::Again);
    assert_eq!(drain.on_dequeue(8, 200, 2000), DrainStep::Again);
    assert_eq!(drain.on_dequeue(INFO_TRY_AGAIN_LATER, 0, 0), DrainStep::Done);
    let (stale, newest) = drain.finish();
    assert_eq!(stale.len(), 1);
    assert_eq!((stale[0].index, stale[0].pts_us), (7, 100));
    let newest = newest.unwrap();
    assert_eq!((newest.index, newest.pts_us, newest.decode_us), (8, 200, 2000));
    assert_eq!(OutputDrain::new().on_dequeue(-9, 0, 0), DrainStep::Failed(-9));
    assert_eq!(OutputDrain::new().finish(), (vec![], None));
}

#[test]
fn depth_counts_what_is_inside() {
    let mut depth = CodecDepth::new();
    depth.on_queued();
    depth.on_queued();
    depth.on_dequeued(1);
    assert_eq!(depth.in_flight(), 1);
    depth.on_dequeued(5);
    assert_eq!(depth.in_flight(), 0);
}

#[test]
fn nanoseconds_saturate() {
    assert_eq!(nanoseconds(2, 5), 2_000_000_005);
    assert_eq!(nanoseconds(i64::MAX, 1), i64::MAX);
    assert_eq!(nanoseconds(i64::MIN, 0), i64::MIN);
}
