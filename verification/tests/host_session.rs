//! The send sessions of the host.

use rustscreen::io::{ByteCursor, ByteSink, ByteSource, IoError, Link, MemoryLink};
use rustscreen::macos_host::capture::{CapturedFrame, Capturer};
use rustscreen::macos_host::encode::{EncodedFrame, Encoder};
use rustscreen::macos_host::latency::{LatencyReport, PipelineLatency};
use rustscreen::macos_host::session::{
    clock_sync_result, coalesce_to_latest_keyframe, codec_config_to_annex_b, forces_keyframe,
    host_handshake, perform_clock_sync, perform_handshake, run_send_session, run_stream_session,
    run_stream_session_instrumented, ClockSyncError, Found, LiveStream, SessionError, StreamEvent,
    StreamSession, Turn,
};
use rustscreen::protocol::clock::ClockOffset;
use rustscreen::protocol::messages::{
    AgreedConfig, Control, Frame, Handshake, MessageError, NegotiationError, VideoCodec,
};
use rustscreen::protocol::nal;
use rustscreen::protocol::protocol_version;
use rustscreen::time::FnClock;
use std::collections::VecDeque;
use std::sync::atomic::{AtomicBool, Ordering};
use std::sync::mpsc;
use std::time::Duration;

/// Everything that comes out of a channel until its senders are gone.
fn events_of(rx: mpsc::Receiver<EncodedFrame>) -> Vec<StreamEvent> {
    let mut events: Vec<StreamEvent> = rx.iter().map(StreamEvent::Frame).collect();
    events.push(StreamEvent::Closed);
    events
}

/// The turns that a live stream takes over real channels.
fn turns_of(
    frames: &mpsc::Receiver<EncodedFrame>,
    stats_rx: &mpsc::Receiver<Frame>,
    heartbeat: Duration,
    stop: &AtomicBool,
) -> VecDeque<Turn> {
    let mut turns = VecDeque::new();
    loop {
        let found = if stop.load(Ordering::Relaxed) {
            Found::Stop
        } else {
            match frames.recv_timeout(heartbeat) {
                Ok(first) => {
                    let mut backlog = vec![first];
                    while let Ok(f) = frames.try_recv() {
                        backlog.push(f);
                    }
                    Found::Frames(backlog)
                }
                Err(mpsc::RecvTimeoutError::Timeout) => Found::Idle,
                Err(mpsc::RecvTimeoutError::Disconnected) => Found::Closed,
            }
        };
        let last = matches!(found, Found::Stop | Found::Closed);
        turns.push_back(Turn { found, stats: stats_rx.try_iter().collect(), at_us: 0 });
        if last {
            return turns;
        }
    }
}

fn turn(found: Found, at_us: u64) -> Turn {
    Turn { found, stats: Vec::new(), at_us }
}

struct FakeCapturer {
    remaining: u64,
    pts: u64,
}

impl Capturer for FakeCapturer {
    fn next_frame(&mut self) -> Option<CapturedFrame> {
        if self.remaining == 0 {
            return None;
        }
        self.remaining -= 1;
        let f = CapturedFrame {
            pts_us: self.pts,
            width: 2400,
            height: 1080,
        };
        self.pts += 16_666;
        Some(f)
    }
}

struct FakeEncoder {
    frame_index: u64,
    keyframe_interval: u64,
}

impl FakeEncoder {
    fn new_default() -> Self {
        Self {
            frame_index: 0,
            keyframe_interval: 0,
        }
    }

    fn new_with_interval(keyframe_interval: u64) -> Self {
        Self {
            frame_index: 0,
            keyframe_interval,
        }
    }
}

impl Encoder for FakeEncoder {
    fn encode(&mut self, frame: &CapturedFrame) -> EncodedFrame {
        let keyframe = self.frame_index == 0
            || (self.keyframe_interval > 0 && self.frame_index % self.keyframe_interval == 0);
        let mut annex_b = Vec::new();
        if keyframe {
            annex_b.extend_from_slice(&[0, 0, 0, 1, 0x67, 0x42, 0x1F]);
            annex_b.extend_from_slice(&[0, 0, 0, 1, 0x68, 0xCE]);
            annex_b.extend_from_slice(&[0, 0, 0, 1, 0x65, 0xAA]);
        } else {
            annex_b.extend_from_slice(&[0, 0, 0, 1, 0x61, 0xBB]);
        }
        self.frame_index += 1;
        EncodedFrame {
            pts_us: frame.pts_us,
            capture_us: 0,
            keyframe,
            encode_micros: 5,
            annex_b,
        }
    }
}

fn decode_sent_frames(link: &MemoryLink) -> Vec<Frame> {
    let mut frames = Vec::new();
    let mut cur = ByteCursor::new(link.sent().clone());
    loop {
        match Frame::read_from(&mut cur) {
            Ok(f) => frames.push(f),
            Err(MessageError::Io(IoError::UnexpectedEof)) => break,
            Err(e) => panic!("cannot decode what was sent: {e:?}"),
        }
    }
    frames
}

/// A link whose peer goes away once its reply has been read.
struct DisconnectAfterHandshake {
    reply: Vec<u8>,
}

impl Link for DisconnectAfterHandshake {}

impl ByteSource for DisconnectAfterHandshake {
    fn read(&mut self, max: usize) -> Result<Vec<u8>, IoError> {
        let n = max.min(self.reply.len());
        Ok(self.reply.drain(..n).collect())
    }
}

impl ByteSink for DisconnectAfterHandshake {
    fn write(&mut self, bytes: &[u8]) -> Result<usize, IoError> {
        if self.reply.is_empty() {
            return Err(IoError::BrokenPipe);
        }
        Ok(bytes.len())
    }

    fn flush(&mut self) -> Result<(), IoError> {
        if self.reply.is_empty() {
            return Err(IoError::BrokenPipe);
        }
        Ok(())
    }
}

fn make_client_reply(
    version: u32,
    max_width: u32,
    max_height: u32,
    max_refresh_hz: u32,
    codecs: Vec<VideoCodec>,
) -> Vec<u8> {
    let reply_hs = Handshake {
        protocol_version: version,
        width: max_width,
        height: max_height,
        refresh_hz: max_refresh_hz,
        codecs,
    };
    let mut buf = Vec::new();
    Frame::Handshake(reply_hs).write_to(&mut buf).unwrap();
    buf
}

fn default_offer() -> Handshake {
    host_handshake(2400, 1080, 60)
}

fn default_agreed() -> AgreedConfig {
    AgreedConfig {
        width: 2400,
        height: 1080,
        refresh_hz: 60,
        codec: VideoCodec::H264,
    }
}

fn default_client_reply() -> Vec<u8> {
    make_client_reply(protocol_version(), 2400, 1080, 60, vec![VideoCodec::H264])
}

fn keyframe_encoded(pts_us: u64) -> EncodedFrame {
    let mut annex_b = Vec::new();
    annex_b.extend_from_slice(&[0, 0, 0, 1, 0x67, 0x42, 0x1F]);
    annex_b.extend_from_slice(&[0, 0, 0, 1, 0x68, 0xCE]);
    annex_b.extend_from_slice(&[0, 0, 0, 1, 0x65, 0xAA]);
    EncodedFrame {
        pts_us,
        capture_us: 0,
        keyframe: true,
        encode_micros: 7,
        annex_b,
    }
}

fn delta_encoded(pts_us: u64) -> EncodedFrame {
    EncodedFrame {
        pts_us,
        capture_us: 0,
        keyframe: false,
        encode_micros: 3,
        annex_b: vec![0, 0, 0, 1, 0x61, 0xBB],
    }
}

fn ptss(frames: &[EncodedFrame]) -> Vec<u64> {
    frames.iter().map(|f| f.pts_us).collect()
}

#[test]
fn coalesce_empty_backlog_is_empty() {
    assert!(coalesce_to_latest_keyframe(Vec::new()).is_empty());
}

#[test]
fn coalesce_without_keyframe_keeps_all_in_order() {
    let backlog = vec![delta_encoded(1), delta_encoded(2), delta_encoded(3)];
    let kept = coalesce_to_latest_keyframe(backlog);
    assert_eq!(ptss(&kept), vec![1, 2, 3]);
}

#[test]
fn coalesce_drops_everything_before_the_last_keyframe() {
    let backlog = vec![
        delta_encoded(1),
        delta_encoded(2),
        keyframe_encoded(3),
        delta_encoded(4),
    ];
    let kept = coalesce_to_latest_keyframe(backlog);
    assert_eq!(
        ptss(&kept),
        vec![3, 4],
        "drop pre-keyframe staleness, keep IDR→now"
    );
    assert!(kept[0].keyframe, "the survivor head is the keyframe");
}

#[test]
fn coalesce_picks_the_latest_keyframe_when_several_present() {
    let backlog = vec![
        keyframe_encoded(1),
        delta_encoded(2),
        keyframe_encoded(3),
        delta_encoded(4),
    ];
    let kept = coalesce_to_latest_keyframe(backlog);
    assert_eq!(ptss(&kept), vec![3, 4]);
}

#[test]
fn coalesce_single_frame_is_untouched() {
    assert_eq!(
        ptss(&coalesce_to_latest_keyframe(vec![delta_encoded(7)])),
        vec![7]
    );
    assert_eq!(
        ptss(&coalesce_to_latest_keyframe(vec![keyframe_encoded(7)])),
        vec![7]
    );
}

#[test]
fn instrumented_loop_drops_to_latest_keyframe_under_backlog() {
    let (tx, rx) = mpsc::channel();
    tx.send(keyframe_encoded(0)).unwrap();
    tx.send(delta_encoded(16_666)).unwrap();
    tx.send(delta_encoded(33_332)).unwrap();
    tx.send(keyframe_encoded(49_998)).unwrap();
    tx.send(delta_encoded(66_664)).unwrap();
    drop(tx);

    let (_stats_tx, stats_rx) = mpsc::channel();
    let mut t = 0u64;
    let now = move || {
        t += 10;
        t
    };
    let mut pipeline = PipelineLatency::new(16);
    let mut sink: Vec<u8> = Vec::new();

    let summary = run_stream_session_instrumented(
        turns_of(&rx, &stats_rx, Duration::from_millis(5), &AtomicBool::new(false)),
        &mut sink,
        default_agreed(),
        None,
        &mut pipeline,
        1_000_000,
        &mut Vec::new(),
        &mut FnClock::new(now),
    )
    .unwrap();

    assert_eq!(summary.frames, 2, "only [last keyframe .. now] is sent");
    assert_eq!(
        pipeline.report().dropped_frames,
        3,
        "the 3 stale leading frames are dropped and counted"
    );

    let mut cur = ByteCursor::new(sink);
    let mut sent = Vec::new();
    while let Ok(f) = Frame::read_from(&mut cur) {
        sent.push(f);
    }
    let videos = sent
        .iter()
        .filter(|f| matches!(f, Frame::Video { .. }))
        .count();
    assert_eq!(videos, 2, "two Video frames survive the coalesce");
    assert!(
        sent.iter().any(|f| matches!(f, Frame::VideoConfig { .. })),
        "VideoConfig still precedes the surviving keyframe"
    );
}

#[test]
fn instrumented_session_returns_when_stop_flag_set() {
    let (tx, rx) = mpsc::channel();
    tx.send(keyframe_encoded(0)).unwrap();
    tx.send(delta_encoded(16_666)).unwrap();
    tx.send(keyframe_encoded(33_332)).unwrap();
    let _keep = tx;

    let (_stats_tx, stats_rx) = mpsc::channel();
    let mut t = 0u64;
    let now = move || {
        t += 10;
        t
    };
    let mut pipeline = PipelineLatency::new(16);
    let mut sink: Vec<u8> = Vec::new();
    let stop = AtomicBool::new(true);

    let summary = run_stream_session_instrumented(
        turns_of(&rx, &stats_rx, Duration::from_millis(5), &stop),
        &mut sink,
        default_agreed(),
        None,
        &mut pipeline,
        1_000_000,
        &mut Vec::new(),
        &mut FnClock::new(now),
    )
    .unwrap();

    assert_eq!(summary.frames, 0, "stop breaks before any frame is sent");
    assert!(sink.is_empty(), "no bytes written once stop is observed");
}

#[test]
fn stream_session_sends_videoconfig_before_each_keyframe() {
    let (tx, rx) = mpsc::channel();
    tx.send(keyframe_encoded(0)).unwrap();
    tx.send(delta_encoded(16_666)).unwrap();
    tx.send(keyframe_encoded(33_332)).unwrap();
    drop(tx);

    let mut t = MemoryLink::new(default_client_reply());
    let summary = run_stream_session(events_of(rx), &mut t, default_offer()).unwrap();

    assert_eq!(summary.frames, 3);
    assert_eq!(summary.agreed_config.codec, VideoCodec::H264);
    assert!(summary.codec_config.is_some());

    let sent = decode_sent_frames(&t);
    assert_eq!(sent.len(), 6, "got: {sent:?}");
    assert!(matches!(sent[0], Frame::Handshake(_)));
    assert!(matches!(sent[1], Frame::VideoConfig { .. }));
    assert!(matches!(sent[2], Frame::Video { keyframe: true, .. }));
    assert!(matches!(
        sent[3],
        Frame::Video {
            keyframe: false,
            ..
        }
    ));
    assert!(matches!(sent[4], Frame::VideoConfig { .. }));
    assert!(matches!(sent[5], Frame::Video { keyframe: true, .. }));
}

#[test]
fn stream_session_flushes_writes_before_reads_and_at_end() {
    let (tx, rx) = mpsc::channel();
    tx.send(keyframe_encoded(0)).unwrap();
    tx.send(delta_encoded(16_666)).unwrap();
    drop(tx);

    let mut t = MemoryLink::new(default_client_reply());
    let summary = run_stream_session(events_of(rx), &mut t, default_offer()).unwrap();

    assert_eq!(summary.frames, 2);
    assert!(!t.stalled(), "a read was issued over unflushed bytes");
    assert_eq!(t.flushed(), t.sent().len(), "stream session returned with unflushed bytes — frames would stall in the write buffer");
}

#[test]
fn stream_session_heartbeat_detects_idle_disconnect() {
    let mut t = DisconnectAfterHandshake { reply: default_client_reply() };
    let events = vec![StreamEvent::Idle, StreamEvent::Idle, StreamEvent::Idle];
    let result = run_stream_session(events, &mut t, default_offer());

    assert!(
        result.is_err(),
        "an idle session over a dead transport must detect the disconnect via heartbeat, not hang"
    );
}

#[test]
fn instrumented_stream_fuses_host_and_phone_stats() {

    let (tx, rx) = mpsc::channel();
    let (stats_tx, stats_rx) = mpsc::channel::<Frame>();

    tx.send(keyframe_encoded(1000)).unwrap();
    stats_tx
        .send(Frame::Stats {
            pts_us: 1000,
            arrive_us: 100,
            decode_us: 110,
            present_us: 120,
        })
        .unwrap();
    tx.send(delta_encoded(2000)).unwrap();
    stats_tx
        .send(Frame::Stats {
            pts_us: 2000,
            arrive_us: 200,
            decode_us: 210,
            present_us: 220,
        })
        .unwrap();
    drop(tx);

    let mut t = 0u64;
    let now = move || {
        t += 10;
        t
    };

    let offset = Some(ClockOffset {
        offset_us: 0,
        rtt_us: 4,
    });
    let mut pipeline = PipelineLatency::new(16);
    let mut sink: Vec<u8> = Vec::new();

    let summary = run_stream_session_instrumented(
        turns_of(&rx, &stats_rx, Duration::from_millis(5), &AtomicBool::new(false)),
        &mut sink,
        default_agreed(),
        offset,
        &mut pipeline,
        1_000_000,
        &mut Vec::new(),
        &mut FnClock::new(now),
    )
    .unwrap();

    assert_eq!(summary.frames, 2);
    assert_eq!(summary.agreed_config.codec, VideoCodec::H264);

    let report = pipeline.report();
    assert_eq!(
        report.glass_to_glass.count(),
        2,
        "both frames' phone stats should fuse with their host records"
    );
    assert_eq!(report.capture_to_encode.count(), 2);
    assert_eq!(report.encode_to_send.count(), 2);

    let mut cur = ByteCursor::new(sink);
    let mut sent = Vec::new();
    while let Ok(f) = Frame::read_from(&mut cur) {
        sent.push(f);
    }
    let videos: Vec<_> = sent
        .iter()
        .filter(|f| matches!(f, Frame::Video { .. }))
        .collect();
    assert_eq!(
        videos.len(),
        2,
        "two Video frames, regardless of heartbeats"
    );
    assert!(
        sent.iter().any(|f| matches!(f, Frame::VideoConfig { .. })),
        "VideoConfig precedes the keyframe"
    );
    assert!(!sent.iter().any(|f| matches!(f, Frame::Handshake(_))));
}

#[test]
fn instrumented_stream_without_offset_records_host_only() {

    let (tx, rx) = mpsc::channel();
    tx.send(keyframe_encoded(1000)).unwrap();
    drop(tx);

    let (stats_tx, stats_rx) = mpsc::channel::<Frame>();
    stats_tx
        .send(Frame::Stats {
            pts_us: 1000,
            arrive_us: 100,
            decode_us: 110,
            present_us: 120,
        })
        .unwrap();
    drop(stats_tx);

    let mut t = 0u64;
    let now = move || {
        t += 10;
        t
    };
    let mut pipeline = PipelineLatency::new(16);
    let mut sink: Vec<u8> = Vec::new();

    let summary = run_stream_session_instrumented(
        turns_of(&rx, &stats_rx, Duration::from_millis(5), &AtomicBool::new(false)),
        &mut sink,
        default_agreed(),
        None,
        &mut pipeline,
        1_000_000,
        &mut Vec::new(),
        &mut FnClock::new(now),
    )
    .unwrap();

    assert_eq!(summary.frames, 1);
    let report = pipeline.report();
    assert_eq!(
        report.glass_to_glass.count(),
        0,
        "no offset → phone stats are not fused; glass-to-glass unavailable"
    );
    assert_eq!(report.capture_to_encode.count(), 0);
    assert_eq!(
        summary.latency.count(),
        1,
        "host-only encode latency is still recorded"
    );
}

#[test]
fn instrumented_stream_uses_threaded_agreed_config() {

    let (tx, rx) = mpsc::channel();
    tx.send(keyframe_encoded(1000)).unwrap();
    drop(tx);
    let (_stats_tx, stats_rx) = mpsc::channel::<Frame>();

    let agreed = AgreedConfig {
        width: 1920,
        height: 1080,
        refresh_hz: 30,
        codec: VideoCodec::Hevc,
    };

    let mut t = 0u64;
    let now = move || {
        t += 10;
        t
    };
    let mut pipeline = PipelineLatency::new(16);
    let mut sink: Vec<u8> = Vec::new();

    let summary = run_stream_session_instrumented(
        turns_of(&rx, &stats_rx, Duration::from_millis(5), &AtomicBool::new(false)),
        &mut sink,
        agreed,
        None,
        &mut pipeline,
        1_000_000,
        &mut Vec::new(),
        &mut FnClock::new(now),
    )
    .unwrap();

    assert_eq!(summary.agreed_config, agreed);
    let mut cur = ByteCursor::new(sink);
    let mut codec_seen = None;
    while let Ok(f) = Frame::read_from(&mut cur) {
        if let Frame::VideoConfig { codec, .. } = f {
            codec_seen = Some(codec);
        }
    }
    assert_eq!(
        codec_seen,
        Some(VideoCodec::Hevc),
        "the wire VideoConfig uses the threaded agreed codec, not a re-derived default"
    );
}

#[test]
fn instrumented_stream_uses_real_capture_timestamp() {

    let mut kf = keyframe_encoded(1000);
    kf.capture_us = 5;
    kf.encode_micros = 999;

    let (tx, rx) = mpsc::channel();
    tx.send(kf).unwrap();
    drop(tx);

    let (stats_tx, stats_rx) = mpsc::channel::<Frame>();
    stats_tx
        .send(Frame::Stats {
            pts_us: 1000,
            arrive_us: 1000,
            decode_us: 1000,
            present_us: 1000,
        })
        .unwrap();
    drop(stats_tx);

    let mut t = 20u64;
    let now = move || {
        t += 10;
        t
    };
    let offset = Some(ClockOffset {
        offset_us: 0,
        rtt_us: 0,
    });
    let mut pipeline = PipelineLatency::new(16);
    let mut sink: Vec<u8> = Vec::new();

    run_stream_session_instrumented(
        turns_of(&rx, &stats_rx, Duration::from_millis(5), &AtomicBool::new(false)),
        &mut sink,
        default_agreed(),
        offset,
        &mut pipeline,
        1_000_000,
        &mut Vec::new(),
        &mut FnClock::new(now),
    )
    .unwrap();

    let report = pipeline.report();
    assert_eq!(report.capture_to_encode.count(), 1);
    assert_eq!(
        report.capture_to_encode.max(),
        Some(25),
        "capture→encode uses the real capture_us, not encode_micros"
    );
}

#[test]
fn handshake_success_produces_agreed_config() {
    let reply_bytes = default_client_reply();
    let mut t = MemoryLink::new(reply_bytes);
    let agreed = perform_handshake(&mut t, default_offer()).unwrap();

    assert_eq!(agreed.width, 2400);
    assert_eq!(agreed.height, 1080);
    assert_eq!(agreed.refresh_hz, 60);
    assert_eq!(agreed.codec, VideoCodec::H264);
}

#[test]
fn handshake_clamps_refresh_to_client_max() {
    let reply_bytes =
        make_client_reply(protocol_version(), 2400, 1080, 30, vec![VideoCodec::H264]);
    let mut t = MemoryLink::new(reply_bytes);
    let agreed = perform_handshake(&mut t, default_offer()).unwrap();
    assert_eq!(agreed.refresh_hz, 30);
}

#[test]
fn handshake_version_mismatch_yields_negotiation_error() {
    let reply_bytes = make_client_reply(99, 2400, 1080, 60, vec![VideoCodec::H264]);
    let mut t = MemoryLink::new(reply_bytes);
    let err = perform_handshake(&mut t, default_offer()).unwrap_err();
    assert!(
        matches!(
            err,
            SessionError::Negotiation(NegotiationError::VersionMismatch { .. })
        ),
        "expected VersionMismatch, got {err:?}"
    );
}

#[test]
fn handshake_no_common_codec_yields_negotiation_error() {
    let reply_bytes =
        make_client_reply(protocol_version(), 2400, 1080, 60, vec![VideoCodec::Hevc]);
    let mut t = MemoryLink::new(reply_bytes);
    let err = perform_handshake(&mut t, default_offer()).unwrap_err();
    assert!(
        matches!(
            err,
            SessionError::Negotiation(NegotiationError::NoCommonCodec)
        ),
        "expected NoCommonCodec, got {err:?}"
    );
}

#[test]
fn handshake_resolution_too_big_yields_negotiation_error() {
    let reply_bytes =
        make_client_reply(protocol_version(), 1080, 720, 60, vec![VideoCodec::H264]);
    let mut t = MemoryLink::new(reply_bytes);
    let err = perform_handshake(&mut t, default_offer()).unwrap_err();
    assert!(
        matches!(
            err,
            SessionError::Negotiation(NegotiationError::ResolutionUnsupported { .. })
        ),
        "expected ResolutionUnsupported, got {err:?}"
    );
}

#[test]
fn video_config_sent_once_for_single_keyframe() {
    let mut t = MemoryLink::new(default_client_reply());
    let mut cap = FakeCapturer {
        remaining: 3,
        pts: 0,
    };
    let mut enc = FakeEncoder::new_default();
    let summary = run_send_session(&mut cap, &mut enc, &mut t, default_offer(), 10).unwrap();

    assert_eq!(summary.frames, 3);

    let all_frames = decode_sent_frames(&t);
    assert!(
        matches!(&all_frames[0], Frame::Handshake(_)),
        "first frame must be Handshake"
    );
    let stream_frames = &all_frames[1..];

    let video_config_count = stream_frames
        .iter()
        .filter(|f| matches!(f, Frame::VideoConfig { .. }))
        .count();
    let video_count = stream_frames
        .iter()
        .filter(|f| matches!(f, Frame::Video { .. }))
        .count();

    assert_eq!(
        video_config_count, 1,
        "one VideoConfig (on the first/only keyframe)"
    );
    assert_eq!(video_count, 3, "one Video per captured frame");
}

#[test]
fn video_config_sent_on_every_keyframe() {
    let mut t = MemoryLink::new(default_client_reply());
    let mut cap = FakeCapturer {
        remaining: 5,
        pts: 0,
    };
    let mut enc = FakeEncoder::new_with_interval(2);
    let summary = run_send_session(&mut cap, &mut enc, &mut t, default_offer(), 10).unwrap();

    assert_eq!(summary.frames, 5);

    let all_frames = decode_sent_frames(&t);
    let stream_frames = &all_frames[1..];

    let video_config_count = stream_frames
        .iter()
        .filter(|f| matches!(f, Frame::VideoConfig { .. }))
        .count();
    let video_count = stream_frames
        .iter()
        .filter(|f| matches!(f, Frame::Video { .. }))
        .count();

    assert_eq!(video_config_count, 3, "VideoConfig on frames 0, 2, 4");
    assert_eq!(video_count, 5, "Video for every frame");
}

#[test]
fn video_config_precedes_video_on_keyframe() {
    let mut t = MemoryLink::new(default_client_reply());
    let mut cap = FakeCapturer {
        remaining: 2,
        pts: 0,
    };
    let mut enc = FakeEncoder::new_default();
    run_send_session(&mut cap, &mut enc, &mut t, default_offer(), 10).unwrap();

    let all_frames = decode_sent_frames(&t);
    assert!(matches!(&all_frames[0], Frame::Handshake(_)));
    assert!(
        matches!(&all_frames[1], Frame::VideoConfig { .. }),
        "VideoConfig must precede the first Video"
    );
    assert!(matches!(
        &all_frames[2],
        Frame::Video { keyframe: true, .. }
    ));
    assert!(matches!(
        &all_frames[3],
        Frame::Video {
            keyframe: false,
            ..
        }
    ));
}

#[test]
fn session_flushes_writes_before_reads_and_at_end() {
    let mut t = MemoryLink::new(default_client_reply());
    let mut cap = FakeCapturer {
        remaining: 3,
        pts: 0,
    };
    let mut enc = FakeEncoder::new_with_interval(2);
    let summary = run_send_session(&mut cap, &mut enc, &mut t, default_offer(), 10).unwrap();

    assert_eq!(summary.frames, 3);
    assert!(!t.stalled(), "a read was issued over unflushed bytes");
    assert_eq!(t.flushed(), t.sent().len(), "session returned with unflushed bytes — frames would stall in the write buffer");
}

#[test]
fn video_frames_carry_correct_pts_keyframe_nal() {
    let mut t = MemoryLink::new(default_client_reply());
    let mut cap = FakeCapturer {
        remaining: 2,
        pts: 1000,
    };
    let mut enc = FakeEncoder::new_default();
    run_send_session(&mut cap, &mut enc, &mut t, default_offer(), 10).unwrap();

    let all_frames = decode_sent_frames(&t);
    let videos: Vec<_> = all_frames
        .iter()
        .filter_map(|f| {
            if let Frame::Video {
                pts_us,
                keyframe,
                nal,
            } = f
            {
                Some((*pts_us, *keyframe, nal.clone()))
            } else {
                None
            }
        })
        .collect();

    assert_eq!(videos.len(), 2);
    let (pts0, kf0, _nal0) = &videos[0];
    assert_eq!(*pts0, 1000);
    assert!(*kf0);

    let (pts1, kf1, _nal1) = &videos[1];
    assert_eq!(*pts1, 1000 + 16_666);
    assert!(!*kf1);
}

#[test]
fn video_config_carries_correct_codec_and_sps_pps() {
    let mut t = MemoryLink::new(default_client_reply());
    let mut cap = FakeCapturer {
        remaining: 1,
        pts: 0,
    };
    let mut enc = FakeEncoder::new_default();
    let summary = run_send_session(&mut cap, &mut enc, &mut t, default_offer(), 10).unwrap();

    let cfg = summary.codec_config.expect("codec_config populated");
    assert_eq!(cfg.sps, vec![0x67, 0x42, 0x1F]);
    assert_eq!(cfg.pps, vec![0x68, 0xCE]);

    let all_frames = decode_sent_frames(&t);
    let vc = all_frames.iter().find_map(|f| {
        if let Frame::VideoConfig { codec, sps_pps } = f {
            Some((*codec, sps_pps.clone()))
        } else {
            None
        }
    });
    let (codec, sps_pps) = vc.expect("VideoConfig frame present");
    assert_eq!(codec, VideoCodec::H264);

    let parsed = nal::extract_codec_config(&sps_pps).expect("sps_pps parses");
    assert_eq!(parsed.sps, vec![0x67, 0x42, 0x1F]);
    assert_eq!(parsed.pps, vec![0x68, 0xCE]);
}

#[test]
fn latency_recorded_per_frame() {
    let mut t = MemoryLink::new(default_client_reply());
    let mut cap = FakeCapturer {
        remaining: 4,
        pts: 0,
    };
    let mut enc = FakeEncoder::new_default();
    let summary = run_send_session(&mut cap, &mut enc, &mut t, default_offer(), 10).unwrap();

    assert_eq!(summary.latency.count(), 4);
    assert_eq!(summary.latency.sum(), 20);
}

#[test]
fn session_session_stops_at_max_frames() {
    let mut t = MemoryLink::new(default_client_reply());
    let mut cap = FakeCapturer {
        remaining: 100,
        pts: 0,
    };
    let mut enc = FakeEncoder::new_default();
    let summary = run_send_session(&mut cap, &mut enc, &mut t, default_offer(), 5).unwrap();

    assert_eq!(summary.frames, 5);
}

#[test]
fn session_ends_when_capturer_stops_early() {
    let mut t = MemoryLink::new(default_client_reply());
    let mut cap = FakeCapturer {
        remaining: 2,
        pts: 0,
    };
    let mut enc = FakeEncoder::new_default();
    let summary = run_send_session(&mut cap, &mut enc, &mut t, default_offer(), 50).unwrap();

    assert_eq!(summary.frames, 2);
}

#[test]
fn summary_carries_agreed_config() {
    let mut t = MemoryLink::new(default_client_reply());
    let mut cap = FakeCapturer {
        remaining: 1,
        pts: 0,
    };
    let mut enc = FakeEncoder::new_default();
    let summary = run_send_session(&mut cap, &mut enc, &mut t, default_offer(), 10).unwrap();

    assert_eq!(summary.agreed_config.codec, VideoCodec::H264);
    assert_eq!(summary.agreed_config.width, 2400);
    assert_eq!(summary.agreed_config.height, 1080);
}

#[test]
fn bytes_sent_matches_actual_write_size() {
    let mut t = MemoryLink::new(default_client_reply());
    let mut cap = FakeCapturer {
        remaining: 2,
        pts: 0,
    };
    let mut enc = FakeEncoder::new_default();
    let summary = run_send_session(&mut cap, &mut enc, &mut t, default_offer(), 10).unwrap();

    let total_in_sink = t.sent().len();
    let all_frames_before_sink: Vec<_> = {
        let mut cur = ByteCursor::new(t.sent().clone());
        let mut v = Vec::new();
        while let Ok(f) = Frame::read_from(&mut cur) {
            v.push(f);
        }
        v
    };
    let handshake_frame = Frame::Handshake(default_offer());
    let mut hs_bytes = Vec::new();
    handshake_frame.write_to(&mut hs_bytes).unwrap();
    let handshake_size = hs_bytes.len();

    assert_eq!(
        summary.bytes_sent,
        total_in_sink - handshake_size,
        "bytes_sent should cover VideoConfig + Video frames"
    );
    let stream_frame_count = all_frames_before_sink.len() - 1;
    assert!(stream_frame_count >= 3, "VideoConfig + 2 Video frames");
}

#[test]
fn clock_sync_round_trips_and_estimates_offset() {
    let mut pong = Vec::new();
    Frame::ClockPong {
        t0_us: 0,
        t1_us: 150,
        t2_us: 150,
    }
    .write_to(&mut pong)
    .unwrap();

    let mut transport = MemoryLink::new(pong);

    let mut times = [0u64, 200].into_iter();
    let mut clock = FnClock::new(|| times.next().unwrap());
    let offset = perform_clock_sync(&mut transport, &mut clock).unwrap();

    assert_eq!(
        offset,
        ClockOffset {
            offset_us: 50,
            rtt_us: 200
        }
    );
    let mut cur = ByteCursor::new(transport.sent().clone());
    assert_eq!(
        Frame::read_from(&mut cur).unwrap(),
        Frame::ClockPing { t0_us: 0 }
    );
}

#[test]
fn clock_sync_rejects_unexpected_reply() {
    let mut not_a_pong = Vec::new();
    Frame::Control(Control::Heartbeat)
        .write_to(&mut not_a_pong)
        .unwrap();
    let mut transport = MemoryLink::new(not_a_pong);
    let mut times = [0u64, 1].into_iter();
    let err = perform_clock_sync(&mut transport, &mut FnClock::new(|| times.next().unwrap()));
    assert!(matches!(err, Err(ClockSyncError::UnexpectedReply)));
}

#[test]
fn session_works_over_duplex_transport() {
    let reply = default_client_reply();
    let mut t = MemoryLink::new(reply);
    let mut cap = FakeCapturer {
        remaining: 3,
        pts: 0,
    };
    let mut enc = FakeEncoder::new_default();
    let summary = run_send_session(&mut cap, &mut enc, &mut t, default_offer(), 10).unwrap();
    assert_eq!(summary.frames, 3);
    assert!(summary.codec_config.is_some());
}

#[test]
fn instrumented_borrows_receiver_so_it_is_reusable_across_connections() {
    let (tx, rx) = mpsc::sync_channel::<EncodedFrame>(2);
    drop(tx);
    let (_stats_tx, stats_rx) = mpsc::channel();
    let stop = AtomicBool::new(false);
    let now = || 0u64;

    let mut pipeline = PipelineLatency::new(16);
    let mut sink: Vec<u8> = Vec::new();
    let s1 = run_stream_session_instrumented(
        turns_of(&rx, &stats_rx, Duration::from_millis(1), &stop),
        &mut sink,
        default_agreed(),
        None,
        &mut pipeline,
        1_000_000,
        &mut Vec::new(),
        &mut FnClock::new(now),
    )
    .unwrap();

    let mut pipeline2 = PipelineLatency::new(16);
    let mut sink2: Vec<u8> = Vec::new();
    let s2 = run_stream_session_instrumented(
        turns_of(&rx, &stats_rx, Duration::from_millis(1), &stop),
        &mut sink2,
        default_agreed(),
        None,
        &mut pipeline2,
        1_000_000,
        &mut Vec::new(),
        &mut FnClock::new(now),
    )
    .unwrap();

    assert_eq!(s1.frames, 0, "no sender → zero frames");
    assert_eq!(s2.frames, 0, "receiver reusable for a second connection");
}

#[test]
fn a_pframe_before_the_first_keyframe_is_not_sent() {
    let (tx, rx) = mpsc::sync_channel::<EncodedFrame>(4);
    tx.send(delta_encoded(1000)).unwrap();
    drop(tx);
    let (_stats_tx, stats_rx) = mpsc::channel();
    let stop = AtomicBool::new(false);
    let now = || 0u64;
    let mut pipeline = PipelineLatency::new(16);
    let mut sink: Vec<u8> = Vec::new();
    let summary = run_stream_session_instrumented(
        turns_of(&rx, &stats_rx, Duration::from_millis(1), &stop),
        &mut sink,
        default_agreed(),
        None,
        &mut pipeline,
        1_000_000,
        &mut Vec::new(),
        &mut FnClock::new(now),
    )
    .unwrap();
    assert_eq!(
        summary.frames, 0,
        "a P-frame before the first keyframe must not be sent"
    );
}

#[test]
fn a_keyframe_later_in_the_connection_opens_the_stream() {
    let mut pipeline = PipelineLatency::new(16);
    let mut session = StreamSession::new(default_agreed());
    let backlog = vec![delta_encoded(1), delta_encoded(2)];
    assert!(session.select(backlog, &mut pipeline).is_empty());
    let backlog = vec![delta_encoded(3), keyframe_encoded(4), delta_encoded(5)];
    assert_eq!(ptss(&session.select(backlog, &mut pipeline)), vec![4, 5]);
    assert_eq!(ptss(&session.select(vec![delta_encoded(6)], &mut pipeline)), vec![6]);
    assert_eq!(pipeline.report().dropped_frames, 3);
}

#[test]
fn reports_are_made_once_per_interval() {
    let mut pipeline = PipelineLatency::new(16);
    let mut sink: Vec<u8> = Vec::new();
    let mut reports: Vec<LatencyReport> = Vec::new();
    let turns = VecDeque::from(vec![
        turn(Found::Frames(vec![delta_encoded(1)]), 1_999_999),
        turn(Found::Idle, 2_000_000),
        turn(Found::Frames(vec![delta_encoded(2), delta_encoded(3)]), 3_999_999),
        turn(Found::Idle, 4_100_000),
        turn(Found::Closed, 9_000_000),
    ]);
    let summary = run_stream_session_instrumented(
        turns,
        &mut sink,
        default_agreed(),
        None,
        &mut pipeline,
        2_000_000,
        &mut reports,
        &mut FnClock::new(|| 0),
    )
    .unwrap();
    assert_eq!(summary.frames, 0);
    let dropped: Vec<u64> = reports.iter().map(|r| r.dropped_frames).collect();
    assert_eq!(dropped, vec![1, 3], "due at 2.0 s and 4.1 s, and not when the stream ends");
}

#[test]
fn what_is_waiting_when_the_host_stops_is_not_sent() {
    let mut pipeline = PipelineLatency::new(16);
    let mut sink: Vec<u8> = Vec::new();
    let turns = VecDeque::from(vec![
        turn(Found::Frames(vec![keyframe_encoded(0)]), 1),
        turn(Found::Stop, 2),
        turn(Found::Frames(vec![delta_encoded(1)]), 3),
    ]);
    let summary = run_stream_session_instrumented(
        turns,
        &mut sink,
        default_agreed(),
        None,
        &mut pipeline,
        1_000_000,
        &mut Vec::new(),
        &mut FnClock::new(|| 0),
    )
    .unwrap();
    assert_eq!(summary.frames, 1);
    assert_eq!(summary.bytes_sent, sink.len());
}

#[test]
fn a_turn_says_whether_the_stream_goes_on() {
    let mut pipeline = PipelineLatency::new(16);
    let mut sink: Vec<u8> = Vec::new();
    let mut reports: Vec<LatencyReport> = Vec::new();
    let mut stream = LiveStream::new(default_agreed(), None, 10);
    let mut now = FnClock::new(|| 7u64);
    let goes_on =
        stream.turn(turn(Found::Idle, 9), &mut sink, &mut pipeline, &mut reports, &mut now);
    assert_eq!(goes_on, Ok(true));
    let goes_on =
        stream.turn(turn(Found::Closed, 20), &mut sink, &mut pipeline, &mut reports, &mut now);
    assert_eq!(goes_on, Ok(false));
    assert!(reports.is_empty());
    assert_eq!(stream.finish().bytes_sent, sink.len());
}

#[test]
fn idle_sends_a_heartbeat() {
    let mut session = StreamSession::new(default_agreed());
    let mut sink: Vec<u8> = Vec::new();
    session.idle(&mut sink).unwrap();
    let mut cur = ByteCursor::new(sink);
    assert_eq!(Frame::read_from(&mut cur).unwrap(), Frame::Control(Control::Heartbeat));
    assert_eq!(session.finish().frames, 0);
}

#[test]
fn only_a_keyframe_request_forces_a_keyframe() {
    assert!(forces_keyframe(&Frame::Control(Control::RequestKeyframe)));
    assert!(!forces_keyframe(&Frame::Control(Control::Bye)));
    assert!(!forces_keyframe(&Frame::ClockPing { t0_us: 1 }));
}

#[test]
fn a_pong_that_never_came_is_its_own_error() {
    let mut readings = 0u64;
    let mut clock = FnClock::new(|| {
        readings += 1;
        readings
    });
    let r = perform_clock_sync(&mut MemoryLink::new(Vec::new()), &mut clock);
    assert_eq!(r, Err(ClockSyncError::Message(MessageError::Io(IoError::UnexpectedEof))));
    assert_eq!(readings, 1, "the clock is not asked again without a reply");
    let pong = Frame::ClockPong { t0_us: 9, t1_us: 150, t2_us: 150 };
    let offset = ClockOffset { offset_us: 50, rtt_us: 200 };
    assert_eq!(clock_sync_result(pong, 0, 200), Ok(offset));
    let other = Frame::Control(Control::Bye);
    assert_eq!(clock_sync_result(other, 0, 200), Err(ClockSyncError::UnexpectedReply));
}

#[test]
fn a_config_is_two_annex_b_units() {
    let config = nal::CodecConfig { sps: vec![0x67, 1], pps: vec![0x68] };
    assert_eq!(codec_config_to_annex_b(&config), vec![0, 0, 0, 1, 0x67, 1, 0, 0, 0, 1, 0x68]);
}

#[test]
fn a_reply_that_is_no_handshake_is_refused() {
    let mut reply = Vec::new();
    Frame::Control(Control::Bye).write_to(&mut reply).unwrap();
    let mut t = MemoryLink::new(reply);
    let err = perform_handshake(&mut t, default_offer()).unwrap_err();
    let bye = Frame::Control(Control::Bye);
    assert_eq!(err, SessionError::Message(MessageError::Io(IoError::UnexpectedReply(bye))));
    assert_eq!(
        err.text(),
        "session message error: framing I/O error: expected Handshake reply, got Control(Bye)"
    );
}

/// Stream pictures to a sink and give the byte count and what the sink holds. Each frame has five
/// bytes in front, and each picture nine.
fn counted(pictures: &[&[u8]]) -> (usize, Vec<u8>) {
    let mut sink: Vec<u8> = Vec::new();
    let mut pipeline = PipelineLatency::new(16);
    let mut session = StreamSession::new(default_agreed());
    for (i, picture) in pictures.iter().enumerate() {
        let encoded = EncodedFrame {
            pts_us: i as u64,
            capture_us: 0,
            keyframe: i == 0,
            encode_micros: 1,
            annex_b: picture.to_vec(),
        };
        let mut clock = FnClock::new(|| 0);
        session.on_frames(vec![encoded], &mut sink, &mut pipeline, &mut clock).unwrap();
    }
    sink.flush().unwrap();
    (session.finish().bytes_sent, sink)
}

#[test]
fn counting_write_increments_total_by_bytes_written() {
    assert_eq!(counted(&[]), (0, vec![]));

    let (total, sink) = counted(&[b"hello"]);
    assert_eq!(total, 14 + 5);
    assert_eq!(sink[14..], *b"hello");

    let (total, sink) = counted(&[b"hello", b", world"]);
    assert_eq!(total, 28 + 12);
    assert_eq!(total, sink.len(), "flushing changes nothing");
    assert_eq!([&sink[14..19], &sink[33..]].concat(), b"hello, world");
}

/// A sink that breaks once it has taken some bytes.
struct BreakingSink {
    room: usize,
}

impl Link for BreakingSink {}

impl ByteSink for BreakingSink {
    fn write(&mut self, bytes: &[u8]) -> Result<usize, IoError> {
        if self.room == 0 {
            return Err(IoError::BrokenPipe);
        }
        let n = bytes.len().min(self.room);
        self.room -= n;
        Ok(n)
    }

    fn flush(&mut self) -> Result<(), IoError> {
        Ok(())
    }
}

#[test]
fn a_broken_stream_keeps_what_was_recorded() {
    let mut whole: Vec<u8> = Vec::new();
    let turns = |pts: &[u64]| {
        let mut turns: VecDeque<Turn> =
            VecDeque::from(vec![turn(Found::Frames(vec![delta_encoded(1), delta_encoded(2)]), 0)]);
        turns.push_back(turn(Found::Frames(vec![keyframe_encoded(pts[0])]), 0));
        for p in &pts[1..] {
            turns.push_back(turn(Found::Frames(vec![delta_encoded(*p)]), 0));
        }
        turns
    };
    let summary = run_stream_session_instrumented(
        turns(&[10, 11]),
        &mut whole,
        default_agreed(),
        None,
        &mut PipelineLatency::new(16),
        1_000_000,
        &mut Vec::new(),
        &mut FnClock::new(|| 5),
    )
    .unwrap();
    assert_eq!(summary.frames, 2);

    let mut pipeline = PipelineLatency::new(16);
    let mut readings = 0u64;
    let err = run_stream_session_instrumented(
        turns(&[10, 11, 12]),
        &mut BreakingSink { room: whole.len() + 3 },
        default_agreed(),
        None,
        &mut pipeline,
        1_000_000,
        &mut Vec::new(),
        &mut FnClock::new(|| {
            readings += 1;
            readings
        }),
    )
    .unwrap_err();
    assert_eq!(err, SessionError::Message(MessageError::Io(IoError::BrokenPipe)));
    assert_eq!(pipeline.report().dropped_frames, 2);
    let offset = ClockOffset { offset_us: 0, rtt_us: 0 };
    for pts in [10, 11, 12] {
        pipeline.record_stats(pts, 100, 110, 120, offset);
    }
    assert_eq!(pipeline.report().glass_to_glass.count(), 2, "what was sent still fuses");
    assert_eq!(pipeline.report().unmatched_stats, 1);
}

#[test]
fn a_frame_that_is_taken_is_sent_or_counted_as_dropped() {
    let mut pipeline = PipelineLatency::new(16);
    pipeline.record_dropped(4);
    let before = pipeline.report().dropped_frames;
    let backlogs = vec![
        vec![delta_encoded(1)],
        vec![delta_encoded(2), keyframe_encoded(3), delta_encoded(4)],
        vec![delta_encoded(5), delta_encoded(6)],
        vec![delta_encoded(7), keyframe_encoded(8), keyframe_encoded(9)],
    ];
    let taken: u64 = backlogs.iter().map(|b| b.len() as u64).sum();
    let mut turns: VecDeque<Turn> =
        backlogs.into_iter().map(|b| turn(Found::Frames(b), 0)).collect();
    turns.push_back(turn(Found::Closed, 0));
    let mut readings = 0u64;
    let summary = run_stream_session_instrumented(
        turns,
        &mut Vec::new(),
        default_agreed(),
        None,
        &mut pipeline,
        1_000_000,
        &mut Vec::new(),
        &mut FnClock::new(|| {
            readings += 1;
            readings
        }),
    )
    .unwrap();
    assert_eq!(summary.frames + pipeline.report().dropped_frames - before, taken);
    assert_eq!(summary.latency.count(), summary.frames);
    assert_eq!(readings, 2 * summary.frames, "two readings for each frame");
}

/// A link on which one operation fails.
struct Failing {
    reply: Vec<u8>,
    fails: &'static str,
}

impl Link for Failing {}

impl ByteSource for Failing {
    fn read(&mut self, max: usize) -> Result<Vec<u8>, IoError> {
        if self.fails == "read" {
            return Err(IoError::ConnectionReset);
        }
        let n = max.min(self.reply.len());
        Ok(self.reply.drain(..n).collect())
    }
}

impl ByteSink for Failing {
    fn write(&mut self, bytes: &[u8]) -> Result<usize, IoError> {
        match self.fails {
            "write" => Err(IoError::BrokenPipe),
            "take" => Ok(0),
            _ => Ok(bytes.len()),
        }
    }

    fn flush(&mut self) -> Result<(), IoError> {
        if self.fails == "flush" {
            return Err(IoError::TimedOut);
        }
        Ok(())
    }
}

#[test]
fn a_failed_flush_is_told_from_a_failed_read_or_write() {
    let outcome = |fails: &'static str| {
        perform_handshake(&mut Failing { reply: default_client_reply(), fails }, default_offer())
    };
    let framing = |e: IoError| Err(SessionError::Message(MessageError::Io(e)));
    assert_eq!(outcome("nothing"), Ok(default_agreed()));
    assert_eq!(outcome("flush"), Err(SessionError::Io(IoError::TimedOut)));
    assert_eq!(outcome("read"), framing(IoError::ConnectionReset));
    assert_eq!(outcome("write"), framing(IoError::BrokenPipe));
    assert_eq!(outcome("take"), framing(IoError::WriteZero));
}

#[test]
fn what_the_client_reports_while_a_turn_sends_belongs_to_the_turn() {
    let mut pipeline = PipelineLatency::new(16);
    let mut sink: Vec<u8> = Vec::new();
    let mut reports: Vec<LatencyReport> = Vec::new();
    let offset = Some(ClockOffset { offset_us: 0, rtt_us: 0 });
    let mut stream = LiveStream::new(default_agreed(), offset, 10);
    let mut clock = FnClock::new(|| 5);
    let found = Found::Frames(vec![keyframe_encoded(7)]);
    let goes_on = stream.send(found, &mut sink, &mut pipeline, &mut clock).unwrap();
    assert!(goes_on);
    let stats = vec![Frame::Stats { pts_us: 7, arrive_us: 8, decode_us: 9, present_us: 10 }];
    stream.settle(goes_on, &stats, 10, &mut pipeline, &mut reports);
    assert_eq!(reports.len(), 1);
    assert_eq!(reports[0].glass_to_glass.count(), 1);
    let goes_on = stream.send(Found::Stop, &mut sink, &mut pipeline, &mut clock).unwrap();
    assert!(!goes_on);
    stream.settle(goes_on, &Vec::new(), 30, &mut pipeline, &mut reports);
    assert_eq!(reports.len(), 1, "nothing is reported when the stream ends");
    assert_eq!(stream.finish().frames, 1);
}
