//! Encode latency and the encode session.

use rustscreen::io::{ByteSink, IoError, Link};
use rustscreen::macos_host::capture::{CapturedFrame, Capturer};
use rustscreen::macos_host::encode::{run_session, EncodedFrame, Encoder, LatencyStats};
use rustscreen::protocol::nal;

/// The arithmetic mean of the samples.
fn mean(s: &LatencyStats) -> Option<f64> {
    if s.count() == 0 {
        None
    } else {
        Some(s.sum() as f64 / s.count() as f64)
    }
}

#[test]
fn latency_empty_has_no_stats() {
    let s = LatencyStats::new();
    assert_eq!(s.count(), 0);
    assert_eq!(s.min(), None);
    assert_eq!(s.max(), None);
    assert_eq!(mean(&s), None);
}

#[test]
fn latency_single_sample() {
    let mut s = LatencyStats::new();
    s.record(40);
    assert_eq!(s.count(), 1);
    assert_eq!(s.min(), Some(40));
    assert_eq!(s.max(), Some(40));
    assert_eq!(mean(&s), Some(40.0));
}

#[test]
fn latency_tracks_min_max_mean() {
    let mut s = LatencyStats::new();
    for v in [30u64, 10, 50, 10] {
        s.record(v);
    }
    assert_eq!(s.count(), 4);
    assert_eq!(s.min(), Some(10));
    assert_eq!(s.max(), Some(50));
    assert_eq!(mean(&s), Some(25.0));
}

#[test]
fn latency_empty_has_no_percentiles() {
    let s = LatencyStats::new();
    assert_eq!(s.percentile(50), None);
    assert_eq!(s.p95(), None);
}

#[test]
fn latency_reports_tail_percentiles() {
    let mut s = LatencyStats::new();
    for v in [50u64, 10, 100, 30, 20, 80, 40, 90, 60, 70] {
        s.record(v);
    }
    assert_eq!(s.p50(), Some(50));
    assert_eq!(s.p95(), Some(100));
    assert_eq!(s.p99(), Some(100));
    assert_eq!(s.percentile(0), Some(10));
    assert_eq!(s.percentile(100), Some(100));
    assert_eq!(mean(&s), Some(55.0));
}

struct FakeCapturer {
    remaining: u64,
    pts: u64,
}
impl Capturer for FakeCapturer {
    fn next_frame(&mut self) -> Option<CapturedFrame> {
        if self.remaining == 0 {
            return None;
        }
        self.remaining -= 1;
        let f = CapturedFrame {
            pts_us: self.pts,
            width: 2400,
            height: 1080,
        };
        self.pts += 16_666;
        Some(f)
    }
}

struct FakeEncoder {
    frame_index: u64,
}
impl Encoder for FakeEncoder {
    fn encode(&mut self, frame: &CapturedFrame) -> EncodedFrame {
        let keyframe = self.frame_index == 0;
        let mut annex_b = Vec::new();
        if keyframe {
            annex_b.extend_from_slice(&[0, 0, 0, 1, 0x67, 0x42, 0x1F]);
            annex_b.extend_from_slice(&[0, 0, 0, 1, 0x68, 0xCE]);
            annex_b.extend_from_slice(&[0, 0, 0, 1, 0x65, 0xAA]);
        } else {
            annex_b.extend_from_slice(&[0, 0, 0, 1, 0x61, 0xBB]);
        }
        self.frame_index += 1;
        EncodedFrame {
            pts_us: frame.pts_us,
            capture_us: 0,
            keyframe,
            encode_micros: 5,
            annex_b,
        }
    }
}

#[test]
fn session_encodes_all_frames_and_writes_stream() {
    let mut cap = FakeCapturer {
        remaining: 3,
        pts: 0,
    };
    let mut enc = FakeEncoder { frame_index: 0 };
    let mut sink: Vec<u8> = Vec::new();

    let summary = run_session(&mut cap, &mut enc, &mut sink, 10).unwrap();

    assert_eq!(summary.frames, 3);
    assert_eq!(summary.bytes_written, sink.len());
    let units = nal::iter_nal_units(&sink).collect();
    assert_eq!(units.len(), 5);
}

#[test]
fn session_extracts_codec_config_from_keyframe() {
    let mut cap = FakeCapturer {
        remaining: 2,
        pts: 0,
    };
    let mut enc = FakeEncoder { frame_index: 0 };
    let mut sink: Vec<u8> = Vec::new();

    let summary = run_session(&mut cap, &mut enc, &mut sink, 10).unwrap();

    let cfg = summary.codec_config.expect("config extracted");
    assert_eq!(cfg.sps, vec![0x67, 0x42, 0x1F]);
    assert_eq!(cfg.pps, vec![0x68, 0xCE]);
}

struct NonKeyframeCarriesParamsEncoder {
    frame_index: u64,
}
impl Encoder for NonKeyframeCarriesParamsEncoder {
    fn encode(&mut self, frame: &CapturedFrame) -> EncodedFrame {
        let keyframe = self.frame_index >= 1;
        let mut annex_b = Vec::new();
        annex_b.extend_from_slice(&[0, 0, 0, 1, 0x67, 0x01]);
        annex_b.extend_from_slice(&[0, 0, 0, 1, 0x68, 0x02]);
        annex_b.extend_from_slice(&[0, 0, 0, 1, if keyframe { 0x65 } else { 0x61 }, 0x00]);
        self.frame_index += 1;
        EncodedFrame {
            pts_us: frame.pts_us,
            capture_us: 0,
            keyframe,
            encode_micros: 1,
            annex_b,
        }
    }
}

#[test]
fn session_extracts_config_only_from_keyframe_flag() {
    let mut cap = FakeCapturer {
        remaining: 1,
        pts: 0,
    };
    let mut enc = NonKeyframeCarriesParamsEncoder { frame_index: 0 };
    let mut sink: Vec<u8> = Vec::new();
    let summary = run_session(&mut cap, &mut enc, &mut sink, 1).unwrap();
    assert_eq!(summary.codec_config, None);

    let mut cap = FakeCapturer {
        remaining: 2,
        pts: 0,
    };
    let mut enc = NonKeyframeCarriesParamsEncoder { frame_index: 0 };
    let mut sink: Vec<u8> = Vec::new();
    let summary = run_session(&mut cap, &mut enc, &mut sink, 2).unwrap();
    let cfg = summary.codec_config.expect("config from keyframe");
    assert_eq!(cfg.sps, vec![0x67, 0x01]);
    assert_eq!(cfg.pps, vec![0x68, 0x02]);
}

#[test]
fn session_records_latency_per_frame() {
    let mut cap = FakeCapturer {
        remaining: 4,
        pts: 0,
    };
    let mut enc = FakeEncoder { frame_index: 0 };
    let mut sink: Vec<u8> = Vec::new();

    let summary = run_session(&mut cap, &mut enc, &mut sink, 10).unwrap();

    assert_eq!(summary.latency.count(), 4);
    assert_eq!(mean(&summary.latency), Some(5.0));
}

#[test]
fn encode_session_stops_at_max_frames() {
    let mut cap = FakeCapturer {
        remaining: 100,
        pts: 0,
    };
    let mut enc = FakeEncoder { frame_index: 0 };
    let mut sink: Vec<u8> = Vec::new();

    let summary = run_session(&mut cap, &mut enc, &mut sink, 5).unwrap();

    assert_eq!(summary.frames, 5);
}

#[test]
fn session_handles_capturer_ending_before_max() {
    let mut cap = FakeCapturer {
        remaining: 2,
        pts: 0,
    };
    let mut enc = FakeEncoder { frame_index: 0 };
    let mut sink: Vec<u8> = Vec::new();

    let summary = run_session(&mut cap, &mut enc, &mut sink, 50).unwrap();

    assert_eq!(summary.frames, 2);
}

#[test]
fn percentiles_are_nearest_ranks() {
    let mut s = LatencyStats::new();
    for v in 1..=7u64 {
        s.record(v * 10);
    }
    // The rank is the percentage of seven samples, rounded up and at least one.
    assert_eq!(s.percentile(1), Some(10));
    assert_eq!(s.percentile(43), Some(40));
    assert_eq!(s.percentile(200), Some(70));
    assert_eq!(s.nearest_rank(3), Some(30));
    assert_eq!(s.sum(), 280);
    // Reading the percentiles does not reorder the samples.
    s.record(5);
    assert_eq!(s.min(), Some(5));
    assert_eq!(s.percentile(0), Some(5));
}

/// A sink that takes nothing.
struct FullSink;

impl Link for FullSink {}

impl ByteSink for FullSink {
    fn write(&mut self, _bytes: &[u8]) -> Result<usize, IoError> {
        Ok(0)
    }

    fn flush(&mut self) -> Result<(), IoError> {
        Ok(())
    }
}

#[test]
fn a_sink_that_takes_nothing_is_an_error() {
    let mut cap = FakeCapturer { remaining: 1, pts: 0 };
    let mut enc = FakeEncoder { frame_index: 0 };
    assert_eq!(run_session(&mut cap, &mut enc, &mut FullSink, 3).unwrap_err(), IoError::WriteZero);
}

#[test]
fn the_order_of_samples_changes_no_figure() {
    let orders: [[u64; 5]; 3] = [[1, 2, 3, 3, 9], [9, 3, 2, 3, 1], [3, 9, 1, 2, 3]];
    for order in orders {
        let mut s = LatencyStats::new();
        for v in order {
            s.record(v);
        }
        assert_eq!((s.count(), s.sum(), s.min(), s.max()), (5, 18, Some(1), Some(9)));
        assert_eq!(s.percentile(50), Some(3));
        assert_eq!(s.percentile(95), Some(9));
        assert_eq!(s.percentile(0), Some(1));
    }
}
