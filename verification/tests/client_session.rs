//! The receive session of the phone.

use rustscreen::android_client::decode::{DecodeError, DecodeSession, DecoderInput, VideoDecoder};
use rustscreen::android_client::session::{
    client_caps, closes_app, pong_for_ping, run_session, SessionError, StatsTracker,
};
use rustscreen::io::{ByteCursor, IoError, MemoryLink};
use rustscreen::protocol::messages::{
    ClientCaps, Control, Frame, Handshake, MessageError, VideoCodec,
};
use rustscreen::protocol::nal::CodecConfig;
use rustscreen::protocol::protocol_version;

#[derive(Debug, Clone, PartialEq, Eq)]
enum DecoderCall {
    Configure(VideoCodec, CodecConfig),
    Decode(DecoderInput),
}

#[derive(Debug, Default)]
struct RecordingDecoder {
    calls: Vec<DecoderCall>,
    fail_on_decode_index: Option<u64>,
    decode_index: u64,
}

impl VideoDecoder for RecordingDecoder {
    fn configure(
        &mut self,
        codec: VideoCodec,
        config: &CodecConfig,
    ) -> Result<(), DecodeError> {
        self.calls
            .push(DecoderCall::Configure(codec, config.clone()));
        Ok(())
    }

    fn decode(&mut self, input: &DecoderInput) -> Result<(), DecodeError> {
        let idx = self.decode_index;
        self.decode_index += 1;
        if self.fail_on_decode_index == Some(idx) {
            return Err(DecodeError::Adapter("simulated codec failure".into()));
        }
        self.calls.push(DecoderCall::Decode(input.clone()));
        Ok(())
    }
}

const SC4: [u8; 4] = [0, 0, 0, 1];

fn sps_pps_bytes() -> Vec<u8> {
    let mut v = Vec::new();
    v.extend_from_slice(&SC4);
    v.extend_from_slice(&[0x67, 0x42, 0x1F]);
    v.extend_from_slice(&SC4);
    v.extend_from_slice(&[0x68, 0xCE]);
    v
}

fn bare_keyframe_nal() -> Vec<u8> {
    let mut v = Vec::new();
    v.extend_from_slice(&SC4);
    v.extend_from_slice(&[0x65, 0xAA, 0xBB]);
    v
}

fn delta_nal() -> Vec<u8> {
    let mut v = Vec::new();
    v.extend_from_slice(&SC4);
    v.extend_from_slice(&[0x61, 0xCC]);
    v
}

fn default_host_handshake() -> Handshake {
    Handshake {
        protocol_version: protocol_version(),
        width: 2400,
        height: 1080,
        refresh_hz: 60,
        codecs: vec![VideoCodec::H264],
    }
}

fn default_client_caps() -> ClientCaps {
    ClientCaps {
        protocol_version: protocol_version(),
        max_width: 2400,
        max_height: 1080,
        max_refresh_hz: 60,
        codecs: vec![VideoCodec::H264],
    }
}

fn transport_with_frames(extra_frames: &[Frame]) -> MemoryLink {
    let mut buf = Vec::new();
    Frame::Handshake(default_host_handshake())
        .write_to(&mut buf)
        .unwrap();
    for f in extra_frames {
        f.write_to(&mut buf).unwrap();
    }
    MemoryLink::new(buf)
}

#[test]
fn handshake_only_clean_eof_returns_empty_summary() {
    let mut t = transport_with_frames(&[]);
    let mut ds = DecodeSession::new();
    let mut dec = RecordingDecoder::default();
    let caps = default_client_caps();

    let summary = run_session(&mut t, &caps, &mut ds, &mut dec).unwrap();

    assert_eq!(summary.frames_received, 0);
    assert_eq!(summary.decoded_count, 0);
    assert_eq!(summary.keyframe_count, 0);
    assert!(!summary.configured);
    assert!(summary.agreed.is_some());
    assert!(!t.sent().is_empty());
}

#[test]
fn video_config_then_video_frames_drive_decoder() {
    let frames = [
        Frame::VideoConfig {
            codec: VideoCodec::H264,
            sps_pps: sps_pps_bytes(),
        },
        Frame::Video {
            pts_us: 0,
            keyframe: true,
            nal: bare_keyframe_nal(),
        },
        Frame::Video {
            pts_us: 16_666,
            keyframe: false,
            nal: delta_nal(),
        },
        Frame::Video {
            pts_us: 33_333,
            keyframe: false,
            nal: delta_nal(),
        },
    ];
    let mut t = transport_with_frames(&frames);
    let mut ds = DecodeSession::new();
    let mut dec = RecordingDecoder::default();
    let caps = default_client_caps();

    let summary = run_session(&mut t, &caps, &mut ds, &mut dec).unwrap();

    assert_eq!(summary.frames_received, 4);
    assert_eq!(summary.decoded_count, 3);
    assert_eq!(summary.keyframe_count, 1);
    assert!(summary.configured);

    let configure_count = dec
        .calls
        .iter()
        .filter(|c| matches!(c, DecoderCall::Configure(..)))
        .count();
    assert_eq!(configure_count, 1, "configure called exactly once");
}

#[test]
fn in_band_keyframe_without_video_config_still_decodes() {
    let mut nal = Vec::new();
    nal.extend_from_slice(&SC4);
    nal.extend_from_slice(&[0x67, 0x01]);
    nal.extend_from_slice(&SC4);
    nal.extend_from_slice(&[0x68, 0x01]);
    nal.extend_from_slice(&SC4);
    nal.extend_from_slice(&[0x65, 0x00]);

    let frames = [Frame::Video {
        pts_us: 42,
        keyframe: true,
        nal,
    }];
    let mut t = transport_with_frames(&frames);
    let mut ds = DecodeSession::new();
    let mut dec = RecordingDecoder::default();
    let caps = default_client_caps();

    let summary = run_session(&mut t, &caps, &mut ds, &mut dec).unwrap();

    assert!(summary.configured);
    assert_eq!(summary.decoded_count, 1);
    assert_eq!(summary.keyframe_count, 1);
}

#[test]
fn video_before_config_surfaces_no_config_error() {
    let frames = [Frame::Video {
        pts_us: 0,
        keyframe: false,
        nal: delta_nal(),
    }];
    let mut t = transport_with_frames(&frames);
    let mut ds = DecodeSession::new();
    let mut dec = RecordingDecoder::default();
    let caps = default_client_caps();

    match run_session(&mut t, &caps, &mut ds, &mut dec) {
        Err(SessionError::Decode(DecodeError::NoConfig)) => {}
        other => panic!("expected SessionError::Decode(NoConfig), got {other:?}"),
    }
}

#[test]
fn decoder_adapter_error_surfaces_as_session_decode_error() {
    let frames = [
        Frame::VideoConfig {
            codec: VideoCodec::H264,
            sps_pps: sps_pps_bytes(),
        },
        Frame::Video {
            pts_us: 0,
            keyframe: true,
            nal: bare_keyframe_nal(),
        },
    ];
    let mut t = transport_with_frames(&frames);
    let mut ds = DecodeSession::new();
    let mut dec = RecordingDecoder {
        fail_on_decode_index: Some(0),
        ..RecordingDecoder::default()
    };
    let caps = default_client_caps();

    match run_session(&mut t, &caps, &mut ds, &mut dec) {
        Err(SessionError::Decode(DecodeError::Adapter(msg))) => {
            assert!(
                msg.contains("simulated codec failure"),
                "unexpected adapter message: {msg}"
            );
        }
        other => panic!("expected SessionError::Decode(Adapter), got {other:?}"),
    }
}

#[test]
fn control_bye_ends_loop_cleanly() {
    let frames = [
        Frame::VideoConfig {
            codec: VideoCodec::H264,
            sps_pps: sps_pps_bytes(),
        },
        Frame::Video {
            pts_us: 0,
            keyframe: true,
            nal: bare_keyframe_nal(),
        },
        Frame::Control(Control::Bye),
    ];
    let mut t = transport_with_frames(&frames);
    let mut ds = DecodeSession::new();
    let mut dec = RecordingDecoder::default();
    let caps = default_client_caps();

    let summary = run_session(&mut t, &caps, &mut ds, &mut dec).unwrap();

    assert_eq!(summary.frames_received, 3);
    assert_eq!(summary.decoded_count, 1);
    assert_eq!(summary.keyframe_count, 1);
    assert!(summary.configured);
}

#[test]
fn clean_eof_ends_loop_with_correct_summary() {
    let frames = [
        Frame::VideoConfig {
            codec: VideoCodec::H264,
            sps_pps: sps_pps_bytes(),
        },
        Frame::Video {
            pts_us: 0,
            keyframe: true,
            nal: bare_keyframe_nal(),
        },
        Frame::Video {
            pts_us: 16_666,
            keyframe: false,
            nal: delta_nal(),
        },
        Frame::Video {
            pts_us: 33_333,
            keyframe: false,
            nal: delta_nal(),
        },
    ];
    let mut t = transport_with_frames(&frames);
    let mut ds = DecodeSession::new();
    let mut dec = RecordingDecoder::default();
    let caps = default_client_caps();

    let summary = run_session(&mut t, &caps, &mut ds, &mut dec).unwrap();

    assert_eq!(summary.frames_received, 4);
    assert_eq!(summary.decoded_count, 3);
    assert_eq!(summary.keyframe_count, 1);
    assert!(summary.configured);
    let agreed = summary.agreed.unwrap();
    assert_eq!(agreed.width, 2400);
    assert_eq!(agreed.height, 1080);
    assert_eq!(agreed.codec, VideoCodec::H264);
}

#[test]
fn negotiation_failure_aborts_session() {
    let mut buf = Vec::new();
    Frame::Handshake(Handshake {
        protocol_version: 999,
        width: 2400,
        height: 1080,
        refresh_hz: 60,
        codecs: vec![VideoCodec::H264],
    })
    .write_to(&mut buf)
    .unwrap();
    let mut t = MemoryLink::new(buf);
    let mut ds = DecodeSession::new();
    let mut dec = RecordingDecoder::default();
    let caps = default_client_caps();

    match run_session(&mut t, &caps, &mut ds, &mut dec) {
        Err(SessionError::Negotiation(_)) => {}
        other => panic!("expected Negotiation error, got {other:?}"),
    }
}

#[test]
fn non_bye_control_frames_do_not_stop_loop() {
    let frames = [
        Frame::VideoConfig {
            codec: VideoCodec::H264,
            sps_pps: sps_pps_bytes(),
        },
        Frame::Control(Control::RequestKeyframe),
        Frame::Control(Control::Pause),
        Frame::Control(Control::Resume),
        Frame::Video {
            pts_us: 0,
            keyframe: true,
            nal: bare_keyframe_nal(),
        },
    ];
    let mut t = transport_with_frames(&frames);
    let mut ds = DecodeSession::new();
    let mut dec = RecordingDecoder::default();
    let caps = default_client_caps();

    let summary = run_session(&mut t, &caps, &mut ds, &mut dec).unwrap();

    assert_eq!(summary.frames_received, 5);
    assert_eq!(summary.decoded_count, 1);
}

#[test]
fn keyframe_and_decoded_counts_match_decode_session() {
    let mut frames: Vec<Frame> = vec![Frame::VideoConfig {
        codec: VideoCodec::H264,
        sps_pps: sps_pps_bytes(),
    }];
    for i in 0..5u64 {
        frames.push(Frame::Video {
            pts_us: i * 16_666,
            keyframe: true,
            nal: bare_keyframe_nal(),
        });
    }

    let mut t = transport_with_frames(&frames);
    let mut ds = DecodeSession::new();
    let mut dec = RecordingDecoder::default();
    let caps = default_client_caps();

    let summary = run_session(&mut t, &caps, &mut ds, &mut dec).unwrap();

    assert_eq!(summary.decoded_count, ds.decoded_count());
    assert_eq!(summary.keyframe_count, ds.keyframe_count());
    assert_eq!(summary.configured, ds.configured());
    assert_eq!(summary.keyframe_count, 5);
    assert_eq!(summary.decoded_count, 5);
}

#[test]
fn client_caps_reply_written_to_transport() {
    let mut t = transport_with_frames(&[]);
    let mut ds = DecodeSession::new();
    let mut dec = RecordingDecoder::default();
    let caps = default_client_caps();

    run_session(&mut t, &caps, &mut ds, &mut dec).unwrap();

    let mut cursor = ByteCursor::new(t.sent().clone());
    let frame = Frame::read_from(&mut cursor).expect("client reply should be a valid frame");
    match frame {
        Frame::Handshake(h) => {
            assert_eq!(h.protocol_version, caps.protocol_version);
            assert_eq!(h.width, caps.max_width);
            assert_eq!(h.height, caps.max_height);
        }
        other => panic!("expected Handshake reply, got {other:?}"),
    }
}

#[test]
fn stats_tracker_builds_stats_frame_for_pts() {
    let mut t = StatsTracker::new(8);
    t.on_arrive(1000, 50);
    t.on_decode(1000, 60);
    let frame = t
        .on_present(1000, 75)
        .expect("complete record yields a Stats frame");
    assert_eq!(
        frame,
        Frame::Stats {
            pts_us: 1000,
            arrive_us: 50,
            decode_us: 60,
            present_us: 75
        }
    );
}

#[test]
fn present_without_arrive_yields_none() {
    let mut t = StatsTracker::new(8);
    assert!(t.on_present(2000, 75).is_none());
}

#[test]
fn pong_for_ping_carries_receive_and_send_times() {
    let pong = pong_for_ping(Frame::ClockPing { t0_us: 7 }, 100, 105);
    assert_eq!(
        pong,
        Some(Frame::ClockPong {
            t0_us: 7,
            t1_us: 100,
            t2_us: 105
        })
    );
    assert!(pong_for_ping(Frame::Control(Control::Bye), 1, 2).is_none());
}

#[test]
fn missing_handshake_first_frame_is_error() {
    let mut buf = Vec::new();
    Frame::Video {
        pts_us: 0,
        keyframe: false,
        nal: delta_nal(),
    }
    .write_to(&mut buf)
    .unwrap();
    let mut t = MemoryLink::new(buf);
    let mut ds = DecodeSession::new();
    let mut dec = RecordingDecoder::default();
    let caps = default_client_caps();

    match run_session(&mut t, &caps, &mut ds, &mut dec) {
        Err(SessionError::Io(_)) => {}
        other => panic!("expected Io error for non-Handshake first frame, got {other:?}"),
    }
}

#[test]
fn bye_and_end_of_stream_are_told_apart() {
    let caps = default_client_caps();
    let mut t = transport_with_frames(&[Frame::Control(Control::Bye)]);
    let summary =
        run_session(&mut t, &caps, &mut DecodeSession::new(), &mut RecordingDecoder::default())
            .unwrap();
    assert!(summary.ended_by_host_bye);
    let mut t = transport_with_frames(&[]);
    let summary =
        run_session(&mut t, &caps, &mut DecodeSession::new(), &mut RecordingDecoder::default())
            .unwrap();
    assert!(!summary.ended_by_host_bye);
    assert!(!t.stalled());
    assert_eq!(t.flushed(), t.sent().len());
}

#[test]
fn a_malformed_message_ends_the_session_with_its_error() {
    let mut buf = Vec::new();
    Frame::Handshake(default_host_handshake()).write_to(&mut buf).unwrap();
    buf.extend_from_slice(&[200, 0, 0, 0, 0]);
    let mut t = MemoryLink::new(buf);
    let r = run_session(
        &mut t,
        &default_client_caps(),
        &mut DecodeSession::new(),
        &mut RecordingDecoder::default(),
    );
    assert_eq!(r.unwrap_err(), SessionError::Message(MessageError::UnknownTag(200)));
}

#[test]
fn an_empty_stream_is_an_io_error() {
    let mut t = MemoryLink::new(Vec::new());
    let r = run_session(
        &mut t,
        &default_client_caps(),
        &mut DecodeSession::new(),
        &mut RecordingDecoder::default(),
    );
    assert_eq!(
        r.unwrap_err(),
        SessionError::Message(MessageError::Io(IoError::UnexpectedEof))
    );
}

#[test]
fn the_oldest_record_makes_room() {
    let mut t = StatsTracker::new(2);
    for pts in [1, 2, 3] {
        t.on_arrive(pts, 10 * pts);
        t.on_decode(pts, 10 * pts + 1);
    }
    assert!(t.on_present(1, 99).is_none());
    assert!(t.on_present(2, 99).is_some());
    assert!(t.on_present(3, 99).is_some());
    assert!(t.on_present(3, 99).is_none());
}

#[test]
fn a_frame_that_was_never_decoded_yields_no_report() {
    let mut t = StatsTracker::new(2);
    t.on_arrive(1, 10);
    assert!(t.on_present(1, 30).is_none());
}

#[test]
fn only_a_goodbye_closes_the_application() {
    let caps = client_caps();
    assert_eq!((caps.max_width, caps.max_height, caps.max_refresh_hz), (3840, 2160, 60));
    assert_eq!(caps.codecs, vec![VideoCodec::H264]);
    for (frames, closes) in [(vec![Frame::Control(Control::Bye)], true), (vec![], false)] {
        let mut t = transport_with_frames(&frames);
        let outcome =
            run_session(&mut t, &caps, &mut DecodeSession::new(), &mut RecordingDecoder::default());
        assert_eq!(closes_app(&outcome), closes);
    }
    assert!(!closes_app(&Err(SessionError::Io(IoError::BrokenPipe))));
}

#[test]
fn the_last_arrivals_are_those_that_report() {
    for (limit, n) in [(0u64, 3u64), (2, 2), (3, 2), (3, 8)] {
        let mut t = StatsTracker::new(limit as usize);
        for pts in 0..n {
            t.on_arrive(pts, 10 + pts);
        }
        for pts in 0..n {
            t.on_decode(pts, 20 + pts);
        }
        let kept = n.min(limit.max(1));
        for pts in 0..n {
            let report = t.on_present(pts, 30);
            if pts < n - kept {
                assert_eq!(report, None);
            } else {
                let (arrive_us, decode_us) = (10 + pts, 20 + pts);
                let expected = Frame::Stats { pts_us: pts, arrive_us, decode_us, present_us: 30 };
                assert_eq!(report, Some(expected));
            }
        }
    }
}

#[test]
fn what_is_no_handshake_is_named() {
    let mut framed = Vec::new();
    Frame::ClockPing { t0_us: 1 }.write_to(&mut framed).unwrap();
    let mut t = MemoryLink::new(framed);
    let r = run_session(
        &mut t,
        &client_caps(),
        &mut DecodeSession::new(),
        &mut RecordingDecoder::default(),
    );
    let err = r.unwrap_err();
    let ping = Frame::ClockPing { t0_us: 1 };
    assert_eq!(err, SessionError::Io(IoError::UnexpectedOffer(ping)));
    assert_eq!(
        err.text(),
        "transport I/O error: expected Handshake as first frame, got ClockPing { t0_us: 1 }"
    );
}
