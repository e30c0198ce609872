//! What the live host decides.

use rustscreen::io::IoError;
use rustscreen::macos_host::serve::{
    classify_connection_end, encoded_frame, farewell, offset_of_reply, route_inbound, ConnEnd,
    EncodePacer, HostOpts, HostStep, Inbound, Submission, FRAME_STEP_US, MAX_IN_FLIGHT_ENCODES,
};
use rustscreen::protocol::clock::ClockOffset;
use rustscreen::protocol::messages::{Control, Frame, MessageError};
use rustscreen::protocol::nal::extract_codec_config;

#[test]
fn stop_requested_means_stopped_else_disconnected() {
    assert_eq!(classify_connection_end(true), ConnEnd::Stopped);
    assert_eq!(classify_connection_end(false), ConnEnd::Disconnected);
}

#[test]
fn the_default_display_is_wide() {
    let opts = HostOpts::default();
    assert_eq!((opts.width, opts.height, opts.fps), (2400, 1080, 60));
}

#[test]
fn a_busy_encoder_gets_no_more_frames() {
    let mut pacer = EncodePacer::new();
    let first = pacer.on_captured().unwrap();
    assert_eq!(first, Submission { index: 0, pts_us: 0, force_keyframe: false });
    let second = pacer.on_captured().unwrap();
    assert_eq!(second.pts_us, FRAME_STEP_US);
    assert_eq!(pacer.on_captured(), None);
    assert_eq!((pacer.in_flight, pacer.dropped), (MAX_IN_FLIGHT_ENCODES, 1));
    pacer.on_encoded();
    // The shed frame took no number.
    assert_eq!(pacer.on_captured().unwrap().index, 2);
    pacer.on_submit_failed();
    pacer.on_encoded();
    assert_eq!(pacer.in_flight, 0);
    pacer.on_encoded();
    assert_eq!(pacer.in_flight, 0);
}

#[test]
fn a_frame_lost_behind_the_encoder_forces_a_keyframe_once() {
    let mut pacer = EncodePacer::new();
    assert!(!pacer.on_captured().unwrap().force_keyframe);
    pacer.on_encoded();
    pacer.on_queue_full();
    assert_eq!(pacer.shed_post_encode, 1);
    assert!(pacer.on_captured().unwrap().force_keyframe);
    assert!(!pacer.on_captured().unwrap().force_keyframe);
    pacer.on_encoded();
    pacer.request_keyframe();
    assert!(pacer.on_captured().unwrap().force_keyframe);
}

#[test]
fn a_late_frame_number_saturates_the_time() {
    let mut pacer = EncodePacer::new();
    pacer.next_index = u64::MAX;
    assert_eq!(pacer.on_captured().unwrap().pts_us, u64::MAX);
    assert_eq!(pacer.next_index, 0);
}

#[test]
fn a_keyframe_unit_carries_its_parameter_sets() {
    let stamps = Submission { index: 3, pts_us: 49_998, force_keyframe: true };
    let avcc = [0, 0, 0, 2, 0x65, 0x88];
    let unit = encoded_frame(&avcc, 4, &[0x67, 1], &[0x68, 2], &stamps, 7, 11);
    assert!(unit.keyframe);
    assert_eq!((unit.pts_us, unit.capture_us, unit.encode_micros), (49_998, 7, 11));
    let config = extract_codec_config(&unit.annex_b).unwrap();
    assert_eq!((config.sps, config.pps), (vec![0x67, 1], vec![0x68, 2]));
    let delta = encoded_frame(&[0, 0, 0, 1, 0x61], 4, &[0x67], &[0x68], &stamps, 7, 11);
    assert!(!delta.keyframe);
    assert_eq!(delta.annex_b, vec![0, 0, 0, 1, 0x61]);
}

#[test]
fn inbound_messages_are_routed() {
    let pong = Frame::ClockPong { t0_us: 1, t1_us: 2, t2_us: 3 };
    assert_eq!(route_inbound(Ok(pong.clone())), Inbound::Pong(pong));
    let stats = Frame::Stats { pts_us: 1, arrive_us: 2, decode_us: 3, present_us: 4 };
    assert_eq!(route_inbound(Ok(stats.clone())), Inbound::Stats(stats));
    let request = Frame::Control(Control::RequestKeyframe);
    assert_eq!(route_inbound(Ok(request)), Inbound::ForceKeyframe);
    assert_eq!(route_inbound(Ok(Frame::Control(Control::Pause))), Inbound::Ignore);
    assert_eq!(route_inbound(Err(MessageError::Io(IoError::TimedOut))), Inbound::Retry);
    assert_eq!(route_inbound(Err(MessageError::Io(IoError::UnexpectedEof))), Inbound::Ended);
    assert_eq!(route_inbound(Err(MessageError::TrailingBytes)), Inbound::Ended);
}

#[test]
fn a_connection_without_a_pong_has_no_offset() {
    let pong = Frame::ClockPong { t0_us: 0, t1_us: 150, t2_us: 150 };
    assert_eq!(
        offset_of_reply(0, &Some((pong, 200))),
        Some(ClockOffset { offset_us: 50, rtt_us: 200 })
    );
    assert_eq!(offset_of_reply(0, &None), None);
    assert_eq!(offset_of_reply(0, &Some((Frame::Control(Control::Bye), 1))), None);
}

#[test]
fn only_a_stop_says_goodbye() {
    assert_eq!(farewell(true), Some(Frame::Control(Control::Bye)));
    assert_eq!(farewell(false), None);
}

#[test]
fn a_disconnect_leads_back_to_the_phone() {
    let mut step = HostStep::first(false);
    let mut seen = vec![step];
    for ok in [false, true, true, true, true, false, true, true] {
        step = step.after(ok, false);
        seen.push(step);
    }
    assert_eq!(
        seen,
        vec![
            HostStep::BringUp,
            HostStep::Pause,
            HostStep::BringUp,
            HostStep::Prepare,
            HostStep::Handshake,
            HostStep::ClockSync,
            HostStep::Stream,
            HostStep::Close,
            HostStep::BringUp,
        ]
    );
}

#[test]
fn a_stop_leads_to_the_only_teardown() {
    assert_eq!(HostStep::first(true), HostStep::TearDown);
    assert_eq!(HostStep::Pause.after(true, true), HostStep::TearDown);
    assert_eq!(HostStep::Handshake.after(false, true), HostStep::TearDown);
    assert_eq!(HostStep::Handshake.after(false, false), HostStep::BringUp);
    assert_eq!(HostStep::Stream.after(true, true), HostStep::Close);
    assert_eq!(HostStep::Close.after(true, true), HostStep::TearDown);
    assert_eq!(HostStep::TearDown.after(true, false), HostStep::TearDown);
}
