//! The decode session.

use rustscreen::android_client::decode::{DecodeError, DecodeSession, DecoderInput, VideoDecoder};
use rustscreen::protocol::messages::{Control, Frame, VideoCodec};
use rustscreen::protocol::nal::{extract_codec_config, AccessUnitError, CodecConfig};

#[derive(Debug, Clone, PartialEq, Eq)]
enum Call {
    Configure(VideoCodec, CodecConfig),
    Decode(DecoderInput),
}

#[derive(Debug, Default)]
struct RecordingDecoder {
    calls: Vec<Call>,
    fail_on_decode_index: Option<u64>,
    decode_index: u64,
}

impl VideoDecoder for RecordingDecoder {
    fn configure(
        &mut self,
        codec: VideoCodec,
        config: &CodecConfig,
    ) -> Result<(), DecodeError> {
        self.calls.push(Call::Configure(codec, config.clone()));
        Ok(())
    }

    fn decode(&mut self, input: &DecoderInput) -> Result<(), DecodeError> {
        let idx = self.decode_index;
        self.decode_index += 1;
        if self.fail_on_decode_index == Some(idx) {
            return Err(DecodeError::Adapter("simulated codec failure".into()));
        }
        self.calls.push(Call::Decode(input.clone()));
        Ok(())
    }
}

const SC4: [u8; 4] = [0, 0, 0, 1];

fn sps_pps_bytes() -> Vec<u8> {
    let mut v = Vec::new();
    v.extend_from_slice(&SC4);
    v.extend_from_slice(&[0x67, 0x42, 0x1F]);
    v.extend_from_slice(&SC4);
    v.extend_from_slice(&[0x68, 0xCE]);
    v
}

fn expected_config() -> CodecConfig {
    CodecConfig {
        sps: vec![0x67, 0x42, 0x1F],
        pps: vec![0x68, 0xCE],
    }
}

fn video_config_frame() -> Frame {
    Frame::VideoConfig {
        codec: VideoCodec::H264,
        sps_pps: sps_pps_bytes(),
    }
}

fn bare_keyframe(pts_us: u64) -> Frame {
    let mut nal = Vec::new();
    nal.extend_from_slice(&SC4);
    nal.extend_from_slice(&[0x65, 0xAA, 0xBB]);
    Frame::Video {
        pts_us,
        keyframe: true,
        nal,
    }
}

fn delta_frame(pts_us: u64) -> Frame {
    let mut nal = Vec::new();
    nal.extend_from_slice(&SC4);
    nal.extend_from_slice(&[0x61, 0xCC]);
    Frame::Video {
        pts_us,
        keyframe: false,
        nal,
    }
}

#[test]
fn config_frame_configures_decoder() {
    let mut dec = RecordingDecoder::default();
    let mut session = DecodeSession::new();
    assert!(!session.configured());

    session.feed(&video_config_frame(), &mut dec).unwrap();

    assert!(session.configured());
    assert_eq!(
        dec.calls,
        vec![Call::Configure(VideoCodec::H264, expected_config())]
    );
}

#[test]
fn video_before_config_is_rejected() {
    let mut dec = RecordingDecoder::default();
    let mut session = DecodeSession::new();

    match session.feed(&delta_frame(0), &mut dec) {
        Err(DecodeError::NoConfig) => {}
        other => panic!("expected NoConfig, got {other:?}"),
    }
    assert!(dec.calls.is_empty(), "decoder must not be touched");
    assert_eq!(session.decoded_count(), 0);
}

#[test]
fn config_then_keyframe_injects_sps_pps_then_decodes() {
    let mut dec = RecordingDecoder::default();
    let mut session = DecodeSession::new();

    session.feed(&video_config_frame(), &mut dec).unwrap();
    session.feed(&bare_keyframe(1000), &mut dec).unwrap();

    assert_eq!(session.decoded_count(), 1);
    assert_eq!(session.keyframe_count(), 1);

    let decode_input = match &dec.calls[1] {
        Call::Decode(input) => input,
        other => panic!("expected a Decode call, got {other:?}"),
    };
    assert_eq!(decode_input.pts_us, 1000);
    assert!(decode_input.keyframe);
    let cfg = extract_codec_config(&decode_input.annex_b)
        .expect("injected config present in AU");
    assert_eq!(cfg, expected_config());
}

#[test]
fn in_band_keyframe_configures_without_video_config() {
    let mut nal = Vec::new();
    nal.extend_from_slice(&SC4);
    nal.extend_from_slice(&[0x67, 0x01]);
    nal.extend_from_slice(&SC4);
    nal.extend_from_slice(&[0x68, 0x01]);
    nal.extend_from_slice(&SC4);
    nal.extend_from_slice(&[0x65, 0x00]);
    let frame = Frame::Video {
        pts_us: 42,
        keyframe: true,
        nal: nal.clone(),
    };

    let mut dec = RecordingDecoder::default();
    let mut session = DecodeSession::new();
    session.feed(&frame, &mut dec).unwrap();

    assert!(session.configured());
    assert_eq!(session.decoded_count(), 1);
    assert_eq!(
        dec.calls,
        vec![
            Call::Configure(
                VideoCodec::H264,
                CodecConfig {
                    sps: vec![0x67, 0x01],
                    pps: vec![0x68, 0x01],
                }
            ),
            Call::Decode(DecoderInput {
                pts_us: 42,
                keyframe: true,
                annex_b: nal,
            }),
        ]
    );
}

#[test]
fn delta_after_config_decodes_without_reconfigure() {
    let mut dec = RecordingDecoder::default();
    let mut session = DecodeSession::new();

    session.feed(&video_config_frame(), &mut dec).unwrap();
    session.feed(&bare_keyframe(0), &mut dec).unwrap();
    session.feed(&delta_frame(16_666), &mut dec).unwrap();

    assert_eq!(session.decoded_count(), 2);
    assert_eq!(session.keyframe_count(), 1);
    let configures = dec
        .calls
        .iter()
        .filter(|c| matches!(c, Call::Configure(..)))
        .count();
    assert_eq!(configures, 1);
    match dec.calls.last().unwrap() {
        Call::Decode(input) => {
            assert!(!input.keyframe);
            assert_eq!(extract_codec_config(&input.annex_b), None);
        }
        other => panic!("expected a Decode call, got {other:?}"),
    }
}

#[test]
fn empty_video_payload_surfaces_access_unit_error() {
    let mut dec = RecordingDecoder::default();
    let mut session = DecodeSession::new();
    session.feed(&video_config_frame(), &mut dec).unwrap();

    let empty = Frame::Video {
        pts_us: 0,
        keyframe: false,
        nal: vec![],
    };
    match session.feed(&empty, &mut dec) {
        Err(DecodeError::AccessUnit(AccessUnitError::EmptyPayload)) => {}
        other => panic!("expected AccessUnit(EmptyPayload), got {other:?}"),
    }
    assert_eq!(session.decoded_count(), 0);
}

#[test]
fn adapter_decode_error_propagates() {
    let mut dec = RecordingDecoder {
        fail_on_decode_index: Some(0),
        ..Default::default()
    };
    let mut session = DecodeSession::new();
    session.feed(&video_config_frame(), &mut dec).unwrap();

    match session.feed(&bare_keyframe(0), &mut dec) {
        Err(DecodeError::Adapter(_)) => {}
        other => panic!("expected Adapter error, got {other:?}"),
    }
    assert_eq!(session.decoded_count(), 0);
}

#[test]
fn non_video_frames_are_ignored() {
    let mut dec = RecordingDecoder::default();
    let mut session = DecodeSession::new();

    session
        .feed(&Frame::Control(Control::RequestKeyframe), &mut dec)
        .unwrap();
    assert!(dec.calls.is_empty());
    assert!(!session.configured());
    assert_eq!(session.decoded_count(), 0);
}

#[test]
fn second_config_reconfigures_decoder() {
    let mut dec = RecordingDecoder::default();
    let mut session = DecodeSession::new();
    session.feed(&video_config_frame(), &mut dec).unwrap();

    let mut other = Vec::new();
    other.extend_from_slice(&SC4);
    other.extend_from_slice(&[0x67, 0x99]);
    other.extend_from_slice(&SC4);
    other.extend_from_slice(&[0x68, 0x99]);
    session
        .feed(
            &Frame::VideoConfig {
                codec: VideoCodec::H264,
                sps_pps: other,
            },
            &mut dec,
        )
        .unwrap();

    let configures = dec
        .calls
        .iter()
        .filter(|c| matches!(c, Call::Configure(..)))
        .count();
    assert_eq!(configures, 2);
}

#[test]
fn identical_second_config_does_not_reconfigure() {
    let mut dec = RecordingDecoder::default();
    let mut session = DecodeSession::new();
    session.feed(&video_config_frame(), &mut dec).unwrap();
    session.feed(&video_config_frame(), &mut dec).unwrap();

    let configures = dec
        .calls
        .iter()
        .filter(|c| matches!(c, Call::Configure(..)))
        .count();
    assert_eq!(configures, 1);
}

#[test]
fn drives_a_realistic_frame_sequence() {
    let mut dec = RecordingDecoder::default();
    let mut session = DecodeSession::new();
    for frame in [
        video_config_frame(),
        bare_keyframe(0),
        delta_frame(16_666),
        delta_frame(33_333),
        bare_keyframe(50_000),
    ] {
        session.feed(&frame, &mut dec).unwrap();
    }
    assert_eq!(session.decoded_count(), 4);
    assert_eq!(session.keyframe_count(), 2);
    assert!(session.configured());
}
