//! What the errors say.

use rustscreen::android_client::decode::DecodeError;
use rustscreen::android_client::session::SessionError as ClientError;
use rustscreen::cg_virtual_display::config::VirtualDisplayError;
use rustscreen::io::IoError;
use rustscreen::macos_host::aoa::AoaError;
use rustscreen::macos_host::session::{ClockSyncError, SessionError};
use rustscreen::macos_host::transport::EchoError;
use rustscreen::protocol::messages::{
    Control, Frame, Handshake, MessageError, NegotiationError, TouchEvent, TouchPhase, VideoCodec,
    WireError,
};
use rustscreen::protocol::nal::AccessUnitError;
use rustscreen::wording::frames::{frame_form, plain_frame_form};
use rustscreen::wording::{unexpected_arguments_text, unknown_command_text, Cause};
use rustscreen::xtask::logic::UsageError;

#[test]
fn io_errors_say_what_the_system_says() {
    let kinds = [
        (IoError::InvalidData, std::io::ErrorKind::InvalidData),
        (IoError::InvalidInput, std::io::ErrorKind::InvalidInput),
        (IoError::BrokenPipe, std::io::ErrorKind::BrokenPipe),
        (IoError::ConnectionReset, std::io::ErrorKind::ConnectionReset),
        (IoError::TimedOut, std::io::ErrorKind::TimedOut),
        (IoError::NotFound, std::io::ErrorKind::NotFound),
        (IoError::Unsupported, std::io::ErrorKind::Unsupported),
        (IoError::Other, std::io::ErrorKind::Other),
    ];
    for (ours, theirs) in kinds {
        assert_eq!(ours.text(), theirs.to_string());
        assert_eq!(ours.kind(), ours);
    }
}

#[test]
fn what_comes_up_short_says_what_the_system_says() {
    let short = std::io::Read::read_exact(&mut &[1u8][..], &mut [0u8; 2]).unwrap_err();
    assert_eq!(IoError::UnexpectedEof.text(), short.to_string());
    let full = std::io::Write::write_all(&mut &mut [0u8; 1][..], &[1, 2]).unwrap_err();
    assert_eq!(IoError::WriteZero.text(), full.to_string());
}

#[test]
fn io_errors_of_the_library_say_what_was_wrong() {
    let errors = [
        (IoError::PayloadTooLong, IoError::InvalidInput, "frame payload exceeds MAX_FRAME_LEN"),
        (IoError::FrameTooLong, IoError::InvalidData, "frame length exceeds MAX_FRAME_LEN"),
        (
            IoError::UnexpectedReply(Frame::Control(Control::Pause)),
            IoError::InvalidData,
            "expected Handshake reply, got Control(Pause)",
        ),
        (
            IoError::UnexpectedOffer(Frame::Video { pts_us: 1, keyframe: false, nal: vec![2, 3] }),
            IoError::InvalidData,
            "expected Handshake as first frame, got Video { pts_us: 1, keyframe: false, nal: [2, 3] }",
        ),
    ];
    for (e, kind, text) in errors {
        assert_eq!(e.kind(), kind);
        assert_eq!(e.text(), text);
    }
}

#[test]
fn errors_carry_what_is_behind_them() {
    let io = IoError::TimedOut;
    let message = MessageError::Io(io.clone());
    assert!(matches!(message.source(), Some(Cause::Io(IoError::TimedOut))));
    assert!(MessageError::TrailingBytes.source().is_none());
    assert!(matches!(SessionError::Io(io).source(), Some(Cause::Io(_))));
    assert!(matches!(
        SessionError::Message(MessageError::TrailingBytes).source(),
        Some(Cause::Message(MessageError::TrailingBytes))
    ));
    assert!(SessionError::Negotiation(NegotiationError::NoCommonCodec).source().is_none());
    let unit = DecodeError::AccessUnit(AccessUnitError::EmptyPayload);
    assert!(matches!(unit.source(), Some(Cause::AccessUnit(AccessUnitError::EmptyPayload))));
    assert!(DecodeError::NoConfig.source().is_none());
    assert!(matches!(ClientError::Decode(unit).source(), Some(Cause::Decode(_))));
}

#[test]
fn message_errors_name_their_cause() {
    assert_eq!(MessageError::UnknownTag(200).text(), "unknown frame tag: 200");
    assert_eq!(MessageError::UnknownTag(0).text(), "unknown frame tag: 0");
    assert_eq!(
        MessageError::ShortVideoHeader.text(),
        "video payload shorter than 9-byte header"
    );
    assert_eq!(
        MessageError::Encode(WireError::Malformed).text(),
        "failed to serialize structured payload: The original data was not well encoded"
    );
    assert_eq!(
        MessageError::Decode(WireError::UnknownVariant).text(),
        "failed to deserialize structured payload: Serde Deserialization Error"
    );
    let errors = [
        (WireError::UnexpectedEnd, postcard::Error::DeserializeUnexpectedEnd),
        (WireError::BadVarint, postcard::Error::DeserializeBadVarint),
        (WireError::UnknownVariant, postcard::Error::SerdeDeCustom),
        (WireError::Malformed, postcard::Error::DeserializeBadEncoding),
    ];
    for (ours, theirs) in errors {
        assert_eq!(ours.text(), theirs.to_string());
    }
    assert_eq!(
        MessageError::TrailingBytes.text(),
        "structured payload had trailing bytes after the value"
    );
    assert_eq!(
        MessageError::Io(IoError::TimedOut).text(),
        "framing I/O error: timed out"
    );
}

#[test]
fn a_failed_negotiation_shows_its_numbers() {
    let errors = [
        NegotiationError::VersionMismatch { host: 1, client: 4_294_967_295 },
        NegotiationError::NoCommonCodec,
        NegotiationError::ResolutionUnsupported { offered: (2400, 1080), client_max: (100, 0) },
    ];
    for e in errors {
        assert_eq!(e.text(), format!("{e:?}"));
    }
}

#[test]
fn session_errors_say_where_they_come_from() {
    assert_eq!(
        SessionError::Io(IoError::BrokenPipe).text(),
        "session I/O error: broken pipe"
    );
    assert_eq!(
        SessionError::Message(MessageError::UnknownTag(9)).text(),
        "session message error: unknown frame tag: 9"
    );
    assert_eq!(
        SessionError::Negotiation(NegotiationError::NoCommonCodec).text(),
        "session negotiation error: NoCommonCodec"
    );
    assert_eq!(
        ClockSyncError::UnexpectedReply.text(),
        "clock-sync reply was not a ClockPong"
    );
    assert_eq!(
        ClockSyncError::Message(MessageError::TrailingBytes).text(),
        "clock-sync I/O: structured payload had trailing bytes after the value"
    );
    assert_eq!(
        ClientError::Io(IoError::InvalidData).text(),
        "transport I/O error: invalid data"
    );
    assert_eq!(
        ClientError::Message(MessageError::ShortVideoHeader).text(),
        "protocol message error: video payload shorter than 9-byte header"
    );
    assert_eq!(
        ClientError::Negotiation(NegotiationError::NoCommonCodec).text(),
        "handshake negotiation failed: NoCommonCodec"
    );
    assert_eq!(
        ClientError::Decode(DecodeError::NoConfig).text(),
        "decode error: received a Video frame before any VideoConfig"
    );
}

#[test]
fn decode_errors_say_what_the_decoder_said() {
    assert_eq!(
        DecodeError::AccessUnit(AccessUnitError::EmptyPayload).text(),
        "could not build access unit: empty payload"
    );
    assert_eq!(
        DecodeError::Adapter("no surface".to_string()).text(),
        "decoder adapter error: no surface"
    );
}

#[test]
fn device_and_display_errors_say_what_to_do() {
    assert_eq!(EchoError::Mismatch(65_536).text(), "echo mismatch at byte offset 65536");
    assert_eq!(EchoError::Link(IoError::TimedOut).text(), "timed out");
    assert_eq!(AoaError::ShortReply.text(), "AOA get-protocol returned < 2 bytes");
    assert_eq!(AoaError::Unsupported.text(), "device reports AOA protocol 0, need >= 1");
    assert!(AoaError::NoDevice.text().contains("VID 0x18d1 or AOA PID 0x2d00..=0x2d05"));
    assert!(AoaError::NotReacquired.text().contains("did not re-enumerate within timeout"));
    assert_eq!(AoaError::NoBulkIn.text(), "no bulk IN endpoint");
    assert_eq!(AoaError::NoBulkOut.text(), "no bulk OUT endpoint");
    assert_eq!(
        VirtualDisplayError::CreationFailed.text(),
        "CGVirtualDisplay creation failed (private API unavailable or settings rejected)"
    );
}

#[test]
fn usage_errors_quote_what_was_typed() {
    assert_eq!(
        UsageError::UnknownCommand("fro\"b".to_string()).text(),
        "unknown command: \"fro\\\"b\" (run `cargo xtask help`)"
    );
    assert_eq!(
        UsageError::FeaturesWithoutValue.text(),
        "--features requires a value (e.g. --features live-capture,live-usb)"
    );
    for args in [vec![], vec!["x"], vec!["x", "y\n", ""]] {
        let args: Vec<String> = args.iter().map(|a| a.to_string()).collect();
        assert_eq!(
            UsageError::UnexpectedArguments(args.clone()).text(),
            format!("make-app: unexpected arguments: {args:?}")
        );
    }
}

#[test]
fn usage_texts_take_what_was_quoted_as_it_is() {
    assert_eq!(
        unknown_command_text("'x'"),
        "unknown command: 'x' (run `cargo xtask help`)"
    );
    assert_eq!(unexpected_arguments_text(&vec![]), "make-app: unexpected arguments: []");
    assert_eq!(
        unexpected_arguments_text(&vec!["a".to_string(), "b".to_string(), "c".to_string()]),
        "make-app: unexpected arguments: [a, b, c]"
    );
}

#[test]
fn a_frame_in_words_has_every_field() {
    let codecs = vec![VideoCodec::H264, VideoCodec::Hevc];
    let frames = [
        Frame::Handshake(Handshake {
            protocol_version: 1,
            width: 2400,
            height: 1080,
            refresh_hz: 60,
            codecs,
        }),
        Frame::VideoConfig { codec: VideoCodec::Hevc, sps_pps: vec![] },
        Frame::Video { pts_us: u64::MAX, keyframe: true, nal: vec![0, 255, 7] },
        Frame::Video { pts_us: 0, keyframe: false, nal: vec![9] },
        Frame::Control(Control::RequestKeyframe),
        Frame::Control(Control::Pause),
        Frame::Control(Control::Resume),
        Frame::Control(Control::Bye),
        Frame::Control(Control::Heartbeat),
        Frame::ClockPing { t0_us: 1 },
        Frame::ClockPong { t0_us: 1, t1_us: 2, t2_us: 3 },
        Frame::Stats { pts_us: 1, arrive_us: 2, decode_us: 3, present_us: 4 },
    ];
    for frame in frames {
        assert_eq!(plain_frame_form(&frame), format!("{frame:?}"));
        assert_eq!(frame_form(&frame, "x", "y"), format!("{frame:?}"));
    }
}

#[test]
fn a_touch_in_words_shows_its_coordinates() {
    for (phase, name) in
        [(TouchPhase::Down, "Down"), (TouchPhase::Move, "Move"), (TouchPhase::Up, "Up")]
    {
        let touch =
            TouchEvent { pointer_id: 2, phase, nx_bits: 0.5f32.to_bits(), ny_bits: 1.0f32.to_bits() };
        let frame = Frame::Touch(touch);
        assert_eq!(
            frame_form(&frame, &format!("{:?}", 0.5f32), &format!("{:?}", 1.0f32)),
            format!("Touch(TouchEvent {{ pointer_id: 2, phase: {name}, nx: 0.5, ny: 1.0 }})")
        );
        let err = ClientError::Io(IoError::UnexpectedOffer(frame));
        assert_eq!(
            err.text(),
            format!(
                "transport I/O error: expected Handshake as first frame, got Touch(TouchEvent {{ \
                 pointer_id: 2, phase: {name}, nx: f32::from_bits(1056964608), ny: \
                 f32::from_bits(1065353216) }})"
            )
        );
    }
}
