//! The message codec and the negotiation.

use rustscreen::io::{ByteCursor, IoError};
use rustscreen::protocol::framing::MAX_FRAME_LEN;
use rustscreen::protocol::messages::{
    decode_canonical, negotiate, tag, AgreedConfig, ClientCaps, Control, Frame, Handshake, MessageError,
    NegotiationError, TouchEvent, TouchPhase, VideoCodec, WireError,
};
use rustscreen::protocol::{nal, protocol_version};

fn roundtrip(frame: &Frame) -> Frame {
    let mut buf = Vec::new();
    frame.write_to(&mut buf).expect("write_to");
    let mut cur = ByteCursor::new(buf);
    Frame::read_from(&mut cur).expect("read_from")
}

#[test]
fn roundtrip_handshake() {
    let frame = Frame::Handshake(Handshake {
        protocol_version: protocol_version(),
        width: 2400,
        height: 1080,
        refresh_hz: 60,
        codecs: vec![VideoCodec::H264],
    });
    assert_eq!(roundtrip(&frame), frame);
}

#[test]
fn roundtrip_video_config() {
    let mut stream = Vec::new();
    stream.extend_from_slice(&[0, 0, 0, 1]);
    stream.extend_from_slice(&[0x67, 0x42, 0x1F]);
    stream.extend_from_slice(&[0, 0, 0, 1]);
    stream.extend_from_slice(&[0x68, 0xCE]);
    let cfg = nal::extract_codec_config(&stream).expect("config present");

    let mut sps_pps = cfg.sps.clone();
    sps_pps.extend_from_slice(&cfg.pps);
    let frame = Frame::VideoConfig {
        codec: VideoCodec::H264,
        sps_pps,
    };
    assert_eq!(roundtrip(&frame), frame);
}

#[test]
fn roundtrip_video_normal() {
    let frame = Frame::Video {
        pts_us: 123,
        keyframe: true,
        nal: vec![0, 1, 2, 3],
    };
    assert_eq!(roundtrip(&frame), frame);
}

#[test]
fn roundtrip_video_empty_nal() {
    let frame = Frame::Video {
        pts_us: 7,
        keyframe: false,
        nal: vec![],
    };
    let (_, payload) = frame.to_tag_payload().unwrap();
    assert_eq!(payload.len(), 9);
    assert_eq!(roundtrip(&frame), frame);
}

#[test]
fn roundtrip_video_large_nal() {
    let frame = Frame::Video {
        pts_us: 999_999,
        keyframe: true,
        nal: (0..100_000u32).map(|i| i as u8).collect(),
    };
    assert_eq!(roundtrip(&frame), frame);
}

#[test]
fn roundtrip_touch() {
    let frame = Frame::Touch(TouchEvent {
        pointer_id: 1,
        phase: TouchPhase::Move,
        nx_bits: 0.5f32.to_bits(),
        ny_bits: 0.25f32.to_bits(),
    });
    assert_eq!(roundtrip(&frame), frame);
}

#[test]
fn roundtrip_control_variants() {
    for c in [
        Control::RequestKeyframe,
        Control::Pause,
        Control::Resume,
        Control::Bye,
    ] {
        let frame = Frame::Control(c.clone());
        assert_eq!(roundtrip(&frame), frame);
    }
}

#[test]
fn roundtrip_multi_frame_stream() {
    let frames = vec![
        Frame::Control(Control::RequestKeyframe),
        Frame::Video {
            pts_us: 42,
            keyframe: false,
            nal: vec![0xAA, 0xBB, 0xCC],
        },
        Frame::Touch(TouchEvent {
            pointer_id: 9,
            phase: TouchPhase::Down,
            nx_bits: 0.0f32.to_bits(),
            ny_bits: 1.0f32.to_bits(),
        }),
    ];
    let mut buf = Vec::new();
    for f in &frames {
        f.write_to(&mut buf).unwrap();
    }
    let mut cur = ByteCursor::new(buf);
    for expected in &frames {
        assert_eq!(&Frame::read_from(&mut cur).unwrap(), expected);
    }
}

#[test]
fn video_payload_raw_layout() {
    let frame = Frame::Video {
        pts_us: 0x0102_0304_0506_0708,
        keyframe: true,
        nal: vec![0xAA, 0xBB],
    };
    let (tag, payload) = frame.to_tag_payload().unwrap();
    assert_eq!(tag, tag::VIDEO);
    assert_eq!(
        payload,
        vec![0x01, 0x02, 0x03, 0x04, 0x05, 0x06, 0x07, 0x08, 0x01, 0xAA, 0xBB]
    );
}

#[test]
fn video_payload_keyframe_false_byte() {
    let frame = Frame::Video {
        pts_us: 0,
        keyframe: false,
        nal: vec![],
    };
    let (_, payload) = frame.to_tag_payload().unwrap();
    assert_eq!(payload[8], 0x00);
}

#[test]
fn decode_rejects_trailing_bytes() {
    let frame = Frame::Handshake(Handshake {
        protocol_version: protocol_version(),
        width: 2400,
        height: 1080,
        refresh_hz: 60,
        codecs: vec![VideoCodec::H264],
    });
    let (tag, mut payload) = frame.to_tag_payload().unwrap();
    payload.push(0xAA);
    match Frame::decode(tag, &payload) {
        Err(MessageError::TrailingBytes) => {}
        other => panic!("expected TrailingBytes, got {other:?}"),
    }
}

#[test]
fn decode_rejects_unknown_tag() {
    match Frame::decode(99, &[]) {
        Err(MessageError::UnknownTag(99)) => {}
        other => panic!("expected UnknownTag(99), got {other:?}"),
    }
}

#[test]
fn decode_rejects_short_video_header() {
    match Frame::decode(tag::VIDEO, &[0, 0, 0]) {
        Err(MessageError::ShortVideoHeader) => {}
        other => panic!("expected ShortVideoHeader, got {other:?}"),
    }
}

#[test]
fn decode_rejects_malformed_postcard() {
    match Frame::decode(tag::HANDSHAKE, &[0xFF; 3]) {
        Err(MessageError::Decode(_)) => {}
        other => panic!("expected Decode(_), got {other:?}"),
    }
}

#[test]
fn video_config_payload_wire_is_stable_struct_encoding() {
    let frame = Frame::VideoConfig {
        codec: VideoCodec::H264,
        sps_pps: vec![0x67, 0x42],
    };
    let (tag, payload) = frame.to_tag_payload().unwrap();
    assert_eq!(tag, tag::VIDEO_CONFIG);
    assert_eq!(payload, vec![0x00, 0x02, 0x67, 0x42]);
    assert_eq!(roundtrip(&frame), frame);
}

#[test]
fn write_oversized_video_surfaces_framing_error() {
    let frame = Frame::Video {
        pts_us: 0,
        keyframe: true,
        nal: vec![0u8; MAX_FRAME_LEN as usize + 1],
    };
    let mut buf = Vec::new();
    match frame.write_to(&mut buf) {
        Err(MessageError::Io(e)) => {
            assert_eq!(e.kind(), IoError::InvalidInput);
        }
        other => panic!("expected Io(InvalidInput), got {other:?}"),
    }
}

fn host(width: u32, height: u32, refresh_hz: u32, codecs: Vec<VideoCodec>) -> Handshake {
    Handshake {
        protocol_version: 1,
        width,
        height,
        refresh_hz,
        codecs,
    }
}

fn client(
    max_width: u32,
    max_height: u32,
    max_refresh_hz: u32,
    codecs: Vec<VideoCodec>,
) -> ClientCaps {
    ClientCaps {
        protocol_version: 1,
        max_width,
        max_height,
        max_refresh_hz,
        codecs,
    }
}

#[test]
fn negotiate_happy_path() {
    let h = host(2400, 1080, 60, vec![VideoCodec::H264]);
    let c = client(2400, 1080, 60, vec![VideoCodec::H264]);
    assert_eq!(
        negotiate(&h, &c),
        Ok(AgreedConfig {
            width: 2400,
            height: 1080,
            refresh_hz: 60,
            codec: VideoCodec::H264,
        })
    );
}

#[test]
fn negotiate_accepts_peers_at_current_protocol_version() {
    let mut h = host(2400, 1080, 60, vec![VideoCodec::H264]);
    h.protocol_version = protocol_version();
    let mut c = client(2400, 1080, 60, vec![VideoCodec::H264]);
    c.protocol_version = protocol_version();
    assert!(negotiate(&h, &c).is_ok());
}

#[test]
fn negotiate_rejects_version_mismatch() {
    let mut h = host(2400, 1080, 60, vec![VideoCodec::H264]);
    h.protocol_version = 2;
    let c = client(2400, 1080, 60, vec![VideoCodec::H264]);
    assert_eq!(
        negotiate(&h, &c),
        Err(NegotiationError::VersionMismatch { host: 2, client: 1 })
    );
}

#[test]
fn negotiate_rejects_no_common_codec() {
    let h = host(2400, 1080, 60, vec![VideoCodec::Hevc]);
    let c = client(2400, 1080, 60, vec![VideoCodec::H264]);
    assert_eq!(negotiate(&h, &c), Err(NegotiationError::NoCommonCodec));
}

#[test]
fn negotiate_host_preferred_codec_wins() {
    let h = host(2400, 1080, 60, vec![VideoCodec::Hevc, VideoCodec::H264]);
    let c = client(2400, 1080, 60, vec![VideoCodec::H264, VideoCodec::Hevc]);
    assert_eq!(negotiate(&h, &c).unwrap().codec, VideoCodec::Hevc);
}

#[test]
fn negotiate_rejects_resolution_too_big() {
    let h = host(3840, 2160, 60, vec![VideoCodec::H264]);
    let c = client(2400, 1080, 60, vec![VideoCodec::H264]);
    assert_eq!(
        negotiate(&h, &c),
        Err(NegotiationError::ResolutionUnsupported {
            offered: (3840, 2160),
            client_max: (2400, 1080),
        })
    );
}

#[test]
fn negotiate_clamps_refresh_down() {
    let h = host(2400, 1080, 60, vec![VideoCodec::H264]);
    let c = client(2400, 1080, 30, vec![VideoCodec::H264]);
    assert_eq!(negotiate(&h, &c).unwrap().refresh_hz, 30);
}

#[test]
fn negotiate_clamp_up_does_not_exceed_host() {
    let h = host(2400, 1080, 60, vec![VideoCodec::H264]);
    let c = client(2400, 1080, 90, vec![VideoCodec::H264]);
    assert_eq!(negotiate(&h, &c).unwrap().refresh_hz, 60);
}

#[test]
fn negotiate_boundary_fit() {
    let h = host(2400, 1080, 60, vec![VideoCodec::H264]);
    let c = client(2400, 1080, 60, vec![VideoCodec::H264]);
    assert!(negotiate(&h, &c).is_ok());
}

#[test]
fn roundtrip_clock_and_stats() {
    for frame in [
        Frame::ClockPing { t0_us: u64::MAX },
        Frame::ClockPong { t0_us: 1, t1_us: 128, t2_us: 1 << 63 },
        Frame::Stats { pts_us: 1, arrive_us: 2, decode_us: 300, present_us: 70_000 },
        Frame::Control(Control::Heartbeat),
    ] {
        assert_eq!(roundtrip(&frame), frame);
    }
}

#[test]
fn numbers_are_varints_on_the_wire() {
    let frame = Frame::Handshake(Handshake {
        protocol_version: 1,
        width: 2400,
        height: 1080,
        refresh_hz: 60,
        codecs: vec![VideoCodec::H264, VideoCodec::Hevc],
    });
    let (t, payload) = frame.to_tag_payload().unwrap();
    assert_eq!(t, tag::HANDSHAKE);
    assert_eq!(payload, vec![0x01, 0xE0, 0x12, 0xB8, 0x08, 0x3C, 0x02, 0x00, 0x01]);
    let touch = Frame::Touch(TouchEvent {
        pointer_id: 300,
        phase: TouchPhase::Up,
        nx_bits: 0.5f32.to_bits(),
        ny_bits: 1.0f32.to_bits(),
    });
    let (t, payload) = touch.to_tag_payload().unwrap();
    assert_eq!(t, tag::TOUCH);
    assert_eq!(payload, vec![0xAC, 0x02, 0x02, 0x00, 0x00, 0x00, 0x3F, 0x00, 0x00, 0x80, 0x3F]);
}

#[test]
fn reading_past_the_end_is_an_io_error() {
    let mut cur = ByteCursor::new(vec![tag::CONTROL, 0, 0, 0, 1]);
    assert_eq!(
        Frame::read_from(&mut cur),
        Err(MessageError::Io(IoError::UnexpectedEof))
    );
}

#[test]
fn a_padded_number_is_refused() {
    assert_eq!(
        Frame::decode(tag::CONTROL, &[0x00]),
        Ok(Frame::Control(Control::RequestKeyframe))
    );
    assert_eq!(
        Frame::decode(tag::CONTROL, &[0x80, 0x00]),
        Err(MessageError::Decode(WireError::Malformed))
    );
    assert_eq!(
        Frame::decode(tag::CLOCK_PING, &[0x87, 0x00]),
        Err(MessageError::Decode(WireError::Malformed))
    );
    assert_eq!(Frame::decode(tag::CLOCK_PING, &[0x07]), Ok(Frame::ClockPing { t0_us: 7 }));
}

#[test]
fn what_decodes_encodes_to_the_same_bytes() {
    let payloads: [(u8, Vec<u8>); 4] = [
        (tag::CONTROL, vec![1]),
        (tag::VIDEO_CONFIG, vec![0, 2, 0x67, 0x42]),
        (tag::CLOCK_PONG, vec![1, 0x80, 0x01, 3]),
        (tag::STATS, vec![1, 2, 3, 4]),
    ];
    for (t, payload) in payloads {
        let frame = Frame::decode(t, &payload).unwrap();
        assert_eq!(frame.tag(), t);
        let mut framed = Vec::new();
        frame.write_to(&mut framed).unwrap();
        assert_eq!(framed[5..], payload[..]);
    }
}

#[test]
fn a_payload_that_cannot_be_read_says_why() {
    let end = Err(MessageError::Decode(WireError::UnexpectedEnd));
    let varint = Err(MessageError::Decode(WireError::BadVarint));
    let variant = Err(MessageError::Decode(WireError::UnknownVariant));
    assert_eq!(Frame::decode(tag::CONTROL, &[]), end);
    assert_eq!(Frame::decode(tag::CONTROL, &[0x80, 0x80, 0x80, 0x80]), end);
    assert_eq!(Frame::decode(tag::CONTROL, &[0x80, 0x80, 0x80, 0x80, 0x10]), varint);
    assert_eq!(Frame::decode(tag::CONTROL, &[0x80; 5]), varint);
    assert_eq!(Frame::decode(tag::CONTROL, &[99]), variant);
    assert_eq!(Frame::decode(tag::CLOCK_PING, &[0xFF; 9]), end);
    assert_eq!(Frame::decode(tag::CLOCK_PING, &[0xFF; 10]), varint);
    assert_eq!(Frame::decode(tag::VIDEO_CONFIG, &[0, 3, 0x67, 0x42]), end);
    assert_eq!(Frame::decode(tag::TOUCH, &[1, 0, 0, 0, 0]), end);
    // A list is read an element at a time, and the first that is wrong decides.
    assert_eq!(Frame::decode(tag::HANDSHAKE, &[1, 2, 3, 4, 2, 99]), variant);
    assert_eq!(Frame::decode(tag::HANDSHAKE, &[1, 2, 3, 4, 2, 0]), end);
    assert_eq!(Frame::decode(tag::HANDSHAKE, &[1, 2, 3, 4]), end);
}

#[test]
fn canonical_decoding_takes_only_a_frames_own_encoding() {
    let ping = Frame::ClockPing { t0_us: 300 };
    assert_eq!(decode_canonical(tag::CLOCK_PING, &[0xAC, 0x02]), Ok(ping));
    assert_eq!(
        decode_canonical(tag::CLOCK_PING, &[0xAC, 0x82, 0x00]),
        Err(MessageError::Decode(WireError::Malformed))
    );
    for extra in [0, 1, 0xFF] {
        assert_eq!(
            decode_canonical(tag::CLOCK_PING, &[0xAC, 0x02, extra]),
            Err(MessageError::TrailingBytes)
        );
    }
}
