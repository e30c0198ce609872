//! Application-level messages and the `Frame` codec.
//!
//! Every [`Frame`] is exactly one frame of the [`framing`](super::framing) layer: the tag says
//! which kind of message it is, the payload holds its fields. Structured messages use the
//! [`wire`](super::wire) encodings; `Video` is written raw, as
//! `pts_us (u64, big-endian) | keyframe (u8) | nal`.

pub mod tag;

use vstd::prelude::*;
use vstd::slice::{slice_subrange, slice_to_vec};
use crate::io::{ByteSink, ByteSource, IoError, LinkState};
use crate::io::{link_failed, reads_only, LinkOp};
use super::framing::{read_frame, write_frame, READ_CHUNK_LEN};
use super::framing::{after_frame, be32, frame_bytes, from_be32, law_read_after_write};
use super::framing::{lemma_be32_inverse, next_frame, write_frame_step, MAX_FRAME_LEN};
use super::nal::same_bytes;
use super::wire::{encode_byte_list, encode_number_list, encode_u32, encode_u64, encode_word};
use super::wire::{lemma_varint_bound, lemma_varint_round_trip, lemma_word_fits};
use super::wire::{take_byte_list, take_bytes, take_u32, take_u64};
use super::wire::{take_varint, take_word, varint, varints};

verus! {

/// Video codec identifier.
#[derive(Debug, Clone, Copy, PartialEq, Eq, Structural)]
pub enum VideoCodec {
    /// H.264 / AVC.
    H264,
    /// H.265 / HEVC (reserved).
    Hevc,
}

impl VideoCodec {
    /// The number that stands for the codec on the wire.
    pub open spec fn index_of(self) -> u32 {
        match self {
            VideoCodec::H264 => 0,
            VideoCodec::Hevc => 1,
        }
    }

    fn index(self) -> (i: u32)
        ensures
            i == self.index_of(),
    {
        match self {
            VideoCodec::H264 => 0,
            VideoCodec::Hevc => 1,
        }
    }

    /// The codec with a given number.
    pub open spec fn at(i: u32) -> Option<VideoCodec> {
        if i == 0 {
            Some(VideoCodec::H264)
        } else if i == 1 {
            Some(VideoCodec::Hevc)
        } else {
            None
        }
    }

    fn from_index(i: u32) -> (r: Option<VideoCodec>)
        ensures
            r == VideoCodec::at(i),
    {
        if i == 0 {
            Some(VideoCodec::H264)
        } else if i == 1 {
            Some(VideoCodec::Hevc)
        } else {
            None
        }
    }
}

/// The host's connection offer.
#[derive(Debug, Clone, PartialEq, Eq)]
pub struct Handshake {
    /// Protocol version.
    pub protocol_version: u32,
    /// Offered desktop width in pixels.
    pub width: u32,
    /// Offered desktop height in pixels.
    pub height: u32,
    /// Offered refresh rate in Hz.
    pub refresh_hz: u32,
    /// Codecs the host can produce, in host preference order.
    pub codecs: Vec<VideoCodec>,
}

/// A [`Handshake`] by its values.
#[verifier::ext_equal]
pub struct HandshakeView {
    pub protocol_version: u32,
    pub width: u32,
    pub height: u32,
    pub refresh_hz: u32,
    pub codecs: Seq<VideoCodec>,
}

impl View for Handshake {
    type V = HandshakeView;

    open spec fn view(&self) -> HandshakeView {
        HandshakeView {
            protocol_version: self.protocol_version,
            width: self.width,
            height: self.height,
            refresh_hz: self.refresh_hz,
            codecs: self.codecs@,
        }
    }
}

impl Handshake {
    /// A copy with the same values.
    pub fn copy(&self) -> (r: Handshake)
        ensures
            r@ == self@,
    {
        Handshake {
            protocol_version: self.protocol_version,
            width: self.width,
            height: self.height,
            refresh_hz: self.refresh_hz,
            codecs: slice_to_vec(self.codecs.as_slice()),
        }
    }
}

/// The client's capabilities.
#[derive(Debug, Clone, PartialEq, Eq)]
pub struct ClientCaps {
    /// Protocol version.
    pub protocol_version: u32,
    /// Maximum panel width in pixels.
    pub max_width: u32,
    /// Maximum panel height in pixels.
    pub max_height: u32,
    /// Maximum panel refresh rate in Hz.
    pub max_refresh_hz: u32,
    /// Codecs the client can decode, in no particular order.
    pub codecs: Vec<VideoCodec>,
}

/// [`ClientCaps`] by their values.
#[verifier::ext_equal]
pub struct ClientCapsView {
    pub protocol_version: u32,
    pub max_width: u32,
    pub max_height: u32,
    pub max_refresh_hz: u32,
    pub codecs: Seq<VideoCodec>,
}

impl View for ClientCaps {
    type V = ClientCapsView;

    open spec fn view(&self) -> ClientCapsView {
        ClientCapsView {
            protocol_version: self.protocol_version,
            max_width: self.max_width,
            max_height: self.max_height,
            max_refresh_hz: self.max_refresh_hz,
            codecs: self.codecs@,
        }
    }
}

/// Out-of-band control messages.
#[derive(Debug, Clone, Copy, PartialEq, Eq, Structural)]
pub enum Control {
    /// Ask the host to emit a keyframe (recovery, late join).
    RequestKeyframe,
    /// Pause streaming.
    Pause,
    /// Resume streaming.
    Resume,
    /// Graceful disconnect.
    Bye,
    /// Sent on an idle stream, so that a dead link shows up as a failed write.
    Heartbeat,
}

impl Control {
    /// The number that stands for the message on the wire.
    pub open spec fn index_of(self) -> u32 {
        match self {
            Control::RequestKeyframe => 0,
            Control::Pause => 1,
            Control::Resume => 2,
            Control::Bye => 3,
            Control::Heartbeat => 4,
        }
    }

    fn index(self) -> (i: u32)
        ensures
            i == self.index_of(),
    {
        match self {
            Control::RequestKeyframe => 0,
            Control::Pause => 1,
            Control::Resume => 2,
            Control::Bye => 3,
            Control::Heartbeat => 4,
        }
    }

    /// The message with a given number.
    pub open spec fn at(i: u32) -> Option<Control> {
        if i == 0 {
            Some(Control::RequestKeyframe)
        } else if i == 1 {
            Some(Control::Pause)
        } else if i == 2 {
            Some(Control::Resume)
        } else if i == 3 {
            Some(Control::Bye)
        } else if i == 4 {
            Some(Control::Heartbeat)
        } else {
            None
        }
    }

    fn from_index(i: u32) -> (r: Option<Control>)
        ensures
            r == Control::at(i),
    {
        if i == 0 {
            Some(Control::RequestKeyframe)
        } else if i == 1 {
            Some(Control::Pause)
        } else if i == 2 {
            Some(Control::Resume)
        } else if i == 3 {
            Some(Control::Bye)
        } else if i == 4 {
            Some(Control::Heartbeat)
        } else {
            None
        }
    }
}

/// The phase of a touch pointer's lifecycle.
#[derive(Debug, Clone, Copy, PartialEq, Eq, Structural)]
pub enum TouchPhase {
    /// Pointer pressed.
    Down,
    /// Pointer moved while down.
    Move,
    /// Pointer released.
    Up,
}

impl TouchPhase {
    /// The number that stands for the phase on the wire.
    pub open spec fn index_of(self) -> u32 {
        match self {
            TouchPhase::Down => 0,
            TouchPhase::Move => 1,
            TouchPhase::Up => 2,
        }
    }

    fn index(self) -> (i: u32)
        ensures
            i == self.index_of(),
    {
        match self {
            TouchPhase::Down => 0,
            TouchPhase::Move => 1,
            TouchPhase::Up => 2,
        }
    }

    /// The phase with a given number.
    pub open spec fn at(i: u32) -> Option<TouchPhase> {
        if i == 0 {
            Some(TouchPhase::Down)
        } else if i == 1 {
            Some(TouchPhase::Move)
        } else if i == 2 {
            Some(TouchPhase::Up)
        } else {
            None
        }
    }

    fn from_index(i: u32) -> (r: Option<TouchPhase>)
        ensures
            r == TouchPhase::at(i),
    {
        if i == 0 {
            Some(TouchPhase::Down)
        } else if i == 1 {
            Some(TouchPhase::Move)
        } else if i == 2 {
            Some(TouchPhase::Up)
        } else {
            None
        }
    }
}

/// A single touch event. The coordinates are single-precision numbers, nominally in `0.0..=1.0`,
/// held by their bit patterns; a peer can send any pattern, so the consumer has to check them.
#[derive(Debug, Clone, Copy, PartialEq, Eq, Structural)]
pub struct TouchEvent {
    /// Stable id distinguishing simultaneous pointers.
    pub pointer_id: u32,
    /// Lifecycle phase.
    pub phase: TouchPhase,
    /// Bits of the normalized x.
    pub nx_bits: u32,
    /// Bits of the normalized y.
    pub ny_bits: u32,
}

/// One application message.
#[derive(Debug, Clone, PartialEq, Eq)]
pub enum Frame {
    /// Connection offer, and the client's reply to it.
    Handshake(Handshake),
    /// Codec configuration, sent on connect and on each keyframe.
    VideoConfig {
        /// Negotiated codec.
        codec: VideoCodec,
        /// SPS and PPS bytes.
        sps_pps: Vec<u8>,
    },
    /// One encoded access unit.
    Video {
        /// Presentation timestamp in microseconds.
        pts_us: u64,
        /// Whether this access unit is a keyframe.
        keyframe: bool,
        /// The NAL bytes, verbatim.
        nal: Vec<u8>,
    },
    /// Client to host touch input.
    Touch(TouchEvent),
    /// Control message, in either direction.
    Control(Control),
    /// Host to client: the first half of a clock exchange.
    ClockPing {
        /// Host time at sending.
        t0_us: u64,
    },
    /// Client to host: the second half of a clock exchange.
    ClockPong {
        /// The `t0_us` of the ping.
        t0_us: u64,
        /// Client time when the ping arrived.
        t1_us: u64,
        /// Client time at sending.
        t2_us: u64,
    },
    /// Client to host: when one frame arrived, was decoded and was presented (client times).
    Stats {
        /// Presentation timestamp of the frame.
        pts_us: u64,
        /// When it arrived.
        arrive_us: u64,
        /// When it was decoded.
        decode_us: u64,
        /// When it was presented.
        present_us: u64,
    },
}

/// A [`Frame`] by its values.
#[verifier::ext_equal]
pub enum FrameView {
    Handshake(HandshakeView),
    VideoConfig { codec: VideoCodec, sps_pps: Seq<u8> },
    Video { pts_us: u64, keyframe: bool, nal: Seq<u8> },
    Touch(TouchEvent),
    Control(Control),
    ClockPing { t0_us: u64 },
    ClockPong { t0_us: u64, t1_us: u64, t2_us: u64 },
    Stats { pts_us: u64, arrive_us: u64, decode_us: u64, present_us: u64 },
}

impl View for Frame {
    type V = FrameView;

    open spec fn view(&self) -> FrameView {
        match self {
            Frame::Handshake(h) => FrameView::Handshake(h@),
            Frame::VideoConfig { codec, sps_pps } => FrameView::VideoConfig {
                codec: *codec,
                sps_pps: sps_pps@,
            },
            Frame::Video { pts_us, keyframe, nal } => FrameView::Video {
                pts_us: *pts_us,
                keyframe: *keyframe,
                nal: nal@,
            },
            Frame::Touch(t) => FrameView::Touch(*t),
            Frame::Control(c) => FrameView::Control(*c),
            Frame::ClockPing { t0_us } => FrameView::ClockPing { t0_us: *t0_us },
            Frame::ClockPong { t0_us, t1_us, t2_us } => FrameView::ClockPong {
                t0_us: *t0_us,
                t1_us: *t1_us,
                t2_us: *t2_us,
            },
            Frame::Stats { pts_us, arrive_us, decode_us, present_us } => FrameView::Stats {
                pts_us: *pts_us,
                arrive_us: *arrive_us,
                decode_us: *decode_us,
                present_us: *present_us,
            },
        }
    }
}

/// What is wrong with a structured payload.
#[derive(Debug, Clone, Copy, PartialEq, Eq, Structural)]
pub enum WireError {
    /// A field is cut off.
    UnexpectedEnd,
    /// A number does not fit its type.
    BadVarint,
    /// A field numbers a variant that does not exist.
    UnknownVariant,
    /// The payload holds a value, but is not the encoding of it.
    Malformed,
}

/// Errors produced when encoding or decoding a [`Frame`].
#[derive(Debug, Clone, PartialEq, Eq)]
pub enum MessageError {
    /// A tag outside the registry.
    UnknownTag(u8),
    /// A `Video` payload shorter than its fixed header.
    ShortVideoHeader,
    /// A structured payload failed to serialize.
    Encode(WireError),
    /// A structured payload failed to deserialize.
    Decode(WireError),
    /// A structured payload had extra bytes after the value.
    TrailingBytes,
    /// An error of the framing layer or the link.
    Io(IoError),
}

/// The eight bytes of `n`, most significant first.
pub open spec fn be64(n: u64) -> Seq<u8> {
    be32(n as int / 0x1_0000_0000) + be32(n as int % 0x1_0000_0000)
}

/// The number that eight bytes stand for, most significant first.
pub open spec fn from_be64(b: Seq<u8>) -> int {
    from_be32(b[0], b[1], b[2], b[3]) * 0x1_0000_0000 + from_be32(b[4], b[5], b[6], b[7])
}

/// The four bytes of `n`, least significant first.
pub open spec fn le32(n: u32) -> Seq<u8> {
    be32(n as int).reverse()
}

/// The number that four bytes stand for, least significant first.
pub open spec fn from_le32(b: Seq<u8>) -> int {
    from_be32(b[3], b[2], b[1], b[0])
}

/// The numbers of a list of codecs.
pub open spec fn codec_indices(codecs: Seq<VideoCodec>) -> Seq<u32> {
    Seq::new(codecs.len(), |i: int| codecs[i].index_of())
}

/// The length of the fixed part of a `Video` payload.
pub const VIDEO_HEADER_LEN: usize = 9;

impl FrameView {
    /// The tag of the frame.
    pub open spec fn tag(self) -> u8 {
        match self {
            FrameView::Handshake(_) => tag::HANDSHAKE,
            FrameView::VideoConfig { .. } => tag::VIDEO_CONFIG,
            FrameView::Video { .. } => tag::VIDEO,
            FrameView::Touch(_) => tag::TOUCH,
            FrameView::Control(_) => tag::CONTROL,
            FrameView::ClockPing { .. } => tag::CLOCK_PING,
            FrameView::ClockPong { .. } => tag::CLOCK_PONG,
            FrameView::Stats { .. } => tag::STATS,
        }
    }

    /// The payload of the frame: its fields in order.
    pub open spec fn payload(self) -> Seq<u8> {
        match self {
            FrameView::Handshake(h) => varint(h.protocol_version as nat) + (varint(h.width as nat)
                + (varint(h.height as nat) + (varint(h.refresh_hz as nat) + (varint(h.codecs.len())
                + varints(codec_indices(h.codecs)))))),
            FrameView::VideoConfig { codec, sps_pps } => varint(codec.index_of() as nat) + (varint(
                sps_pps.len(),
            ) + sps_pps),
            FrameView::Video { pts_us, keyframe, nal } => be64(pts_us) + seq![
                if keyframe {
                    1u8
                } else {
                    0u8
                },
            ] + nal,
            FrameView::Touch(t) => varint(t.pointer_id as nat) + (varint(t.phase.index_of() as nat)
                + (le32(t.nx_bits) + le32(t.ny_bits))),
            FrameView::Control(c) => varint(c.index_of() as nat),
            FrameView::ClockPing { t0_us } => varint(t0_us as nat),
            FrameView::ClockPong { t0_us, t1_us, t2_us } => varint(t0_us as nat) + (varint(
                t1_us as nat,
            ) + varint(t2_us as nat)),
            FrameView::Stats { pts_us, arrive_us, decode_us, present_us } => varint(pts_us as nat)
                + (varint(arrive_us as nat) + (varint(decode_us as nat) + varint(
                present_us as nat,
            ))),
        }
    }

    /// The bytes of the frame on the link.
    pub open spec fn wire(self) -> Seq<u8> {
        frame_bytes(self.tag(), self.payload())
    }

    /// Whether the lists in the frame fit a machine.
    pub open spec fn fits(self) -> bool {
        match self {
            FrameView::Handshake(h) => h.codecs.len() <= usize::MAX,
            FrameView::VideoConfig { sps_pps, .. } => sps_pps.len() <= usize::MAX,
            _ => true,
        }
    }
}

/// A value that was parsed from the front of a payload, with what follows it; a payload that ends
/// in something else than the value is rejected.
pub open spec fn whole<T>(parsed: Result<(T, Seq<u8>), WireError>) -> Result<T, MessageError> {
    match parsed {
        Ok((value, rest)) => if rest.len() == 0 {
            Ok(value)
        } else {
            Err(MessageError::TrailingBytes)
        },
        Err(e) => Err(MessageError::Decode(e)),
    }
}

/// A `u32` from the front of `b`.
pub open spec fn parse_u32(b: Seq<u8>) -> Result<(u32, Seq<u8>), WireError> {
    match take_varint(b, 32) {
        Ok((n, rest)) => Ok((n as u32, rest)),
        Err(e) => Err(e),
    }
}

/// A `u64` from the front of `b`.
pub open spec fn parse_u64(b: Seq<u8>) -> Result<(u64, Seq<u8>), WireError> {
    match take_varint(b, 64) {
        Ok((n, rest)) => Ok((n as u64, rest)),
        Err(e) => Err(e),
    }
}

/// Four bytes, least significant first, from the front of `b`.
pub open spec fn parse_word(b: Seq<u8>) -> Result<(u32, Seq<u8>), WireError> {
    if b.len() >= 4 {
        Ok((from_le32(b) as u32, b.skip(4)))
    } else {
        Err(WireError::UnexpectedEnd)
    }
}

/// A codec from the front of `b`.
pub open spec fn parse_codec(b: Seq<u8>) -> Result<(VideoCodec, Seq<u8>), WireError> {
    match parse_u32(b) {
        Err(e) => Err(e),
        Ok((index, b)) => match VideoCodec::at(index) {
            None => Err(WireError::UnknownVariant),
            Some(codec) => Ok((codec, b)),
        },
    }
}

/// `count` codecs from the front of `b`.
pub open spec fn parse_some_codecs(b: Seq<u8>, count: nat) -> Result<
    (Seq<VideoCodec>, Seq<u8>),
    WireError,
>
    decreases count,
{
    if count == 0 {
        Ok((Seq::empty(), b))
    } else {
        match parse_codec(b) {
            Err(e) => Err(e),
            Ok((codec, b)) => match parse_some_codecs(b, (count - 1) as nat) {
                Err(e) => Err(e),
                Ok((more, b)) => Ok((seq![codec] + more, b)),
            },
        }
    }
}

/// A list of codecs from the front of `b`: its length, a machine word, then its elements.
pub open spec fn parse_codecs(b: Seq<u8>) -> Result<(Seq<VideoCodec>, Seq<u8>), WireError> {
    match take_varint(b, usize::BITS as nat) {
        Err(e) => Err(e),
        Ok((count, b)) => parse_some_codecs(b, count),
    }
}

/// A [`Handshake`] from the front of `b`.
pub open spec fn parse_handshake(b: Seq<u8>) -> Result<(HandshakeView, Seq<u8>), WireError> {
    match parse_u32(b) {
        Err(e) => Err(e),
        Ok((protocol_version, b)) => match parse_u32(b) {
            Err(e) => Err(e),
            Ok((width, b)) => match parse_u32(b) {
                Err(e) => Err(e),
                Ok((height, b)) => match parse_u32(b) {
                    Err(e) => Err(e),
                    Ok((refresh_hz, b)) => match parse_codecs(b) {
                        Err(e) => Err(e),
                        Ok((codecs, b)) => Ok(
                            (
                                HandshakeView {
                                    protocol_version,
                                    width,
                                    height,
                                    refresh_hz,
                                    codecs,
                                },
                                b,
                            ),
                        ),
                    },
                },
            },
        },
    }
}

/// The fields of a `VideoConfig` from the front of `b`.
pub open spec fn parse_video_config(b: Seq<u8>) -> Result<
    ((VideoCodec, Seq<u8>), Seq<u8>),
    WireError,
> {
    match parse_codec(b) {
        Err(e) => Err(e),
        Ok((codec, b)) => match take_byte_list(b) {
            Err(e) => Err(e),
            Ok((sps_pps, b)) => Ok(((codec, sps_pps), b)),
        },
    }
}

/// A [`TouchEvent`] from the front of `b`.
pub open spec fn parse_touch(b: Seq<u8>) -> Result<(TouchEvent, Seq<u8>), WireError> {
    match parse_u32(b) {
        Err(e) => Err(e),
        Ok((pointer_id, b)) => match parse_u32(b) {
            Err(e) => Err(e),
            Ok((index, b)) => match TouchPhase::at(index) {
                None => Err(WireError::UnknownVariant),
                Some(phase) => match parse_word(b) {
                    Err(e) => Err(e),
                    Ok((nx_bits, b)) => match parse_word(b) {
                        Err(e) => Err(e),
                        Ok((ny_bits, b)) => Ok(
                            (TouchEvent { pointer_id, phase, nx_bits, ny_bits }, b),
                        ),
                    },
                },
            },
        },
    }
}

/// A [`Control`] from the front of `b`.
pub open spec fn parse_control(b: Seq<u8>) -> Result<(Control, Seq<u8>), WireError> {
    match parse_u32(b) {
        Err(e) => Err(e),
        Ok((index, b)) => match Control::at(index) {
            None => Err(WireError::UnknownVariant),
            Some(c) => Ok((c, b)),
        },
    }
}

/// Three times from the front of `b`.
pub open spec fn parse_pong(b: Seq<u8>) -> Result<((u64, u64, u64), Seq<u8>), WireError> {
    match parse_u64(b) {
        Err(e) => Err(e),
        Ok((t0, b)) => match parse_u64(b) {
            Err(e) => Err(e),
            Ok((t1, b)) => match parse_u64(b) {
                Err(e) => Err(e),
                Ok((t2, b)) => Ok(((t0, t1, t2), b)),
            },
        },
    }
}

/// Four times from the front of `b`.
pub open spec fn parse_stats(b: Seq<u8>) -> Result<((u64, u64, u64, u64), Seq<u8>), WireError> {
    match parse_pong(b) {
        Err(e) => Err(e),
        Ok(((pts, arrive, decode), b)) => match parse_u64(b) {
            Err(e) => Err(e),
            Ok((present, b)) => Ok(((pts, arrive, decode, present), b)),
        },
    }
}

/// The frame whose fields a payload holds.
pub open spec fn fields_of(t: u8, b: Seq<u8>) -> Result<FrameView, MessageError> {
    if t == tag::HANDSHAKE {
        match whole(parse_handshake(b)) {
            Ok(h) => Ok(FrameView::Handshake(h)),
            Err(e) => Err(e),
        }
    } else if t == tag::VIDEO_CONFIG {
        match whole(parse_video_config(b)) {
            Ok((codec, sps_pps)) => Ok(FrameView::VideoConfig { codec, sps_pps }),
            Err(e) => Err(e),
        }
    } else if t == tag::VIDEO {
        if b.len() < VIDEO_HEADER_LEN {
            Err(MessageError::ShortVideoHeader)
        } else {
            Ok(
                FrameView::Video {
                    pts_us: from_be64(b) as u64,
                    keyframe: b[8] != 0,
                    nal: b.skip(VIDEO_HEADER_LEN as int),
                },
            )
        }
    } else if t == tag::TOUCH {
        match whole(parse_touch(b)) {
            Ok(event) => Ok(FrameView::Touch(event)),
            Err(e) => Err(e),
        }
    } else if t == tag::CONTROL {
        match whole(parse_control(b)) {
            Ok(c) => Ok(FrameView::Control(c)),
            Err(e) => Err(e),
        }
    } else if t == tag::CLOCK_PING {
        match whole(parse_u64(b)) {
            Ok(t0_us) => Ok(FrameView::ClockPing { t0_us }),
            Err(e) => Err(e),
        }
    } else if t == tag::CLOCK_PONG {
        match whole(parse_pong(b)) {
            Ok((t0_us, t1_us, t2_us)) => Ok(FrameView::ClockPong { t0_us, t1_us, t2_us }),
            Err(e) => Err(e),
        }
    } else if t == tag::STATS {
        match whole(parse_stats(b)) {
            Ok((pts_us, arrive_us, decode_us, present_us)) => Ok(
                FrameView::Stats { pts_us, arrive_us, decode_us, present_us },
            ),
            Err(e) => Err(e),
        }
    } else {
        Err(MessageError::UnknownTag(t))
    }
}

/// The frame whose own encoding a payload is: a number that is written longer than it need be is
/// refused.
pub open spec fn canonical(t: u8, b: Seq<u8>) -> Result<FrameView, MessageError> {
    match fields_of(t, b) {
        Ok(f) => if f.payload() == b {
            Ok(f)
        } else {
            Err(MessageError::Decode(WireError::Malformed))
        },
        Err(e) => Err(e),
    }
}

/// The frame that a tag and a payload stand for. A structured payload has to be the frame's own
/// encoding; in a `Video` payload every flag but zero marks a keyframe.
pub open spec fn decoded(t: u8, b: Seq<u8>) -> Result<FrameView, MessageError> {
    if t == tag::VIDEO {
        fields_of(t, b)
    } else {
        canonical(t, b)
    }
}

/// A decoded frame and an error, by their values.
pub open spec fn decoded_view(r: Result<Frame, MessageError>) -> Result<FrameView, MessageError> {
    match r {
        Ok(f) => Ok(f@),
        Err(e) => Err(e),
    }
}

fn field_u32(b: &[u8]) -> (r: Result<(u32, &[u8]), WireError>)
    ensures
        match r {
            Ok((v, rest)) => parse_u32(b@) == Ok::<(u32, Seq<u8>), WireError>((v, rest@)),
            Err(e) => parse_u32(b@) == Err::<(u32, Seq<u8>), WireError>(e),
        },
{
    match take_u32(b) {
        Ok((v, rest)) => Ok((v, rest)),
        Err(e) => Err(e),
    }
}

fn field_u64(b: &[u8]) -> (r: Result<(u64, &[u8]), WireError>)
    ensures
        match r {
            Ok((v, rest)) => parse_u64(b@) == Ok::<(u64, Seq<u8>), WireError>((v, rest@)),
            Err(e) => parse_u64(b@) == Err::<(u64, Seq<u8>), WireError>(e),
        },
{
    match take_u64(b) {
        Ok((v, rest)) => Ok((v, rest)),
        Err(e) => Err(e),
    }
}

fn field_word(b: &[u8]) -> (r: Result<(u32, &[u8]), WireError>)
    ensures
        match r {
            Ok((v, rest)) => parse_word(b@) == Ok::<(u32, Seq<u8>), WireError>((v, rest@)),
            Err(e) => parse_word(b@) == Err::<(u32, Seq<u8>), WireError>(e),
        },
{
    match take_word(b) {
        Ok((w, rest)) => {
            proof {
                assert(forall|i: int| 0 <= i < 4 ==> w@[i] == #[trigger] b@[i]) by {
                    assert forall|i: int| 0 <= i < 4 implies w@[i] == #[trigger] b@[i] by {
                        assert(b@.take(4)[i] == b@[i]);
                    }
                }
            }
            let v: u32 = w[3] as u32 * 0x100_0000 + w[2] as u32 * 0x1_0000 + w[1] as u32 * 0x100
                + w[0] as u32;
            Ok((v, rest))
        },
        Err(e) => Err(e),
    }
}

/// The length of a list, which is a machine word.
fn field_length(b: &[u8]) -> (r: Result<(u64, &[u8]), WireError>)
    ensures
        match r {
            Ok((v, rest)) => take_varint(b@, usize::BITS as nat) == Ok::<_, WireError>(
                (v as nat, rest@),
            ),
            Err(e) => take_varint(b@, usize::BITS as nat) == Err::<(nat, Seq<u8>), _>(e),
        },
{
    if usize::BITS == 32 {
        match take_u32(b) {
            Ok((v, rest)) => Ok((v as u64, rest)),
            Err(e) => Err(e),
        }
    } else {
        take_u64(b)
    }
}

fn field_codec(b: &[u8]) -> (r: Result<(VideoCodec, &[u8]), WireError>)
    ensures
        match r {
            Ok((v, rest)) => parse_codec(b@) == Ok::<(VideoCodec, Seq<u8>), WireError>((v, rest@)),
            Err(e) => parse_codec(b@) == Err::<(VideoCodec, Seq<u8>), WireError>(e),
        },
{
    match field_u32(b) {
        Ok((index, b)) => match VideoCodec::from_index(index) {
            Some(codec) => Ok((codec, b)),
            None => Err(WireError::UnknownVariant),
        },
        Err(e) => Err(e),
    }
}

fn field_codecs(b: &[u8]) -> (r: Result<(Vec<VideoCodec>, &[u8]), WireError>)
    ensures
        match r {
            Ok((v, rest)) => parse_codecs(b@) == Ok::<(Seq<VideoCodec>, Seq<u8>), WireError>(
                (v@, rest@),
            ),
            Err(e) => parse_codecs(b@) == Err::<(Seq<VideoCodec>, Seq<u8>), WireError>(e),
        },
{
    let (count, start) = match field_length(b) {
        Ok(v) => v,
        Err(e) => {
            return Err(e);
        },
    };
    let mut rest: &[u8] = start;
    let mut codecs: Vec<VideoCodec> = Vec::new();
    let mut left: u64 = count;
    proof {
        if let Ok((more, _)) = parse_some_codecs(rest@, left as nat) {
            assert(codecs@ + more =~= more);
        }
    }
    while left > 0
        invariant
            parse_codecs(b@) == match parse_some_codecs(rest@, left as nat) {
                Ok((more, end)) => Ok::<(Seq<VideoCodec>, Seq<u8>), WireError>(
                    (codecs@ + more, end),
                ),
                Err(e) => Err(e),
            },
        decreases left,
    {
        let ghost had = codecs@;
        match field_codec(rest) {
            Ok((codec, behind)) => {
                codecs.push(codec);
                rest = behind;
                left = left - 1;
                proof {
                    if let Ok((more, _)) = parse_some_codecs(rest@, left as nat) {
                        assert(had + (seq![codec] + more) =~= codecs@ + more);
                    }
                }
            },
            Err(e) => {
                return Err(e);
            },
        }
    }
    proof {
        assert(codecs@ + Seq::<VideoCodec>::empty() =~= codecs@);
    }
    Ok((codecs, rest))
}

fn field_handshake(b: &[u8]) -> (r: Result<(Handshake, &[u8]), WireError>)
    ensures
        match r {
            Ok((v, rest)) => parse_handshake(b@) == Ok::<(HandshakeView, Seq<u8>), WireError>(
                (v@, rest@),
            ),
            Err(e) => parse_handshake(b@) == Err::<(HandshakeView, Seq<u8>), WireError>(e),
        },
{
    let (protocol_version, b) = match field_u32(b) {
        Ok(v) => v,
        Err(e) => {
            return Err(e);
        },
    };
    let (width, b) = match field_u32(b) {
        Ok(v) => v,
        Err(e) => {
            return Err(e);
        },
    };
    let (height, b) = match field_u32(b) {
        Ok(v) => v,
        Err(e) => {
            return Err(e);
        },
    };
    let (refresh_hz, b) = match field_u32(b) {
        Ok(v) => v,
        Err(e) => {
            return Err(e);
        },
    };
    match field_codecs(b) {
        Ok((codecs, b)) => Ok(
            (Handshake { protocol_version, width, height, refresh_hz, codecs }, b),
        ),
        Err(e) => Err(e),
    }
}

fn field_video_config(b: &[u8]) -> (r: Result<((VideoCodec, Vec<u8>), &[u8]), WireError>)
    ensures
        match r {
            Ok((v, rest)) => parse_video_config(b@) == Ok::<
                ((VideoCodec, Seq<u8>), Seq<u8>),
                WireError,
            >(((v.0, v.1@), rest@)),
            Err(e) => parse_video_config(b@) == Err::<
                ((VideoCodec, Seq<u8>), Seq<u8>),
                WireError,
            >(e),
        },
{
    match field_codec(b) {
        Ok((codec, b)) => match take_bytes(b) {
            Ok((sps_pps, b)) => Ok(((codec, sps_pps), b)),
            Err(e) => Err(e),
        },
        Err(e) => Err(e),
    }
}

fn field_touch(b: &[u8]) -> (r: Result<(TouchEvent, &[u8]), WireError>)
    ensures
        match r {
            Ok((v, rest)) => parse_touch(b@) == Ok::<(TouchEvent, Seq<u8>), WireError>((v, rest@)),
            Err(e) => parse_touch(b@) == Err::<(TouchEvent, Seq<u8>), WireError>(e),
        },
{
    let (pointer_id, b) = match field_u32(b) {
        Ok(v) => v,
        Err(e) => {
            return Err(e);
        },
    };
    let (index, b) = match field_u32(b) {
        Ok(v) => v,
        Err(e) => {
            return Err(e);
        },
    };
    match TouchPhase::from_index(index) {
        None => Err(WireError::UnknownVariant),
        Some(phase) => match field_word(b) {
            Ok((nx_bits, b)) => match field_word(b) {
                Ok((ny_bits, b)) => Ok((TouchEvent { pointer_id, phase, nx_bits, ny_bits }, b)),
                Err(e) => Err(e),
            },
            Err(e) => Err(e),
        },
    }
}

fn field_control(b: &[u8]) -> (r: Result<(Control, &[u8]), WireError>)
    ensures
        match r {
            Ok((v, rest)) => parse_control(b@) == Ok::<(Control, Seq<u8>), WireError>((v, rest@)),
            Err(e) => parse_control(b@) == Err::<(Control, Seq<u8>), WireError>(e),
        },
{
    match field_u32(b) {
        Ok((index, b)) => match Control::from_index(index) {
            Some(c) => Ok((c, b)),
            None => Err(WireError::UnknownVariant),
        },
        Err(e) => Err(e),
    }
}

fn field_pong(b: &[u8]) -> (r: Result<((u64, u64, u64), &[u8]), WireError>)
    ensures
        match r {
            Ok((v, rest)) => parse_pong(b@) == Ok::<((u64, u64, u64), Seq<u8>), WireError>(
                (v, rest@),
            ),
            Err(e) => parse_pong(b@) == Err::<((u64, u64, u64), Seq<u8>), WireError>(e),
        },
{
    let (t0, b) = match field_u64(b) {
        Ok(v) => v,
        Err(e) => {
            return Err(e);
        },
    };
    let (t1, b) = match field_u64(b) {
        Ok(v) => v,
        Err(e) => {
            return Err(e);
        },
    };
    match field_u64(b) {
        Ok((t2, b)) => Ok(((t0, t1, t2), b)),
        Err(e) => Err(e),
    }
}

fn field_stats(b: &[u8]) -> (r: Result<((u64, u64, u64, u64), &[u8]), WireError>)
    ensures
        match r {
            Ok((v, rest)) => parse_stats(b@) == Ok::<((u64, u64, u64, u64), Seq<u8>), WireError>(
                (v, rest@),
            ),
            Err(e) => parse_stats(b@) == Err::<((u64, u64, u64, u64), Seq<u8>), WireError>(e),
        },
{
    match field_pong(b) {
        Ok(((pts, arrive, decode), b)) => match field_u64(b) {
            Ok((present, b)) => Ok(((pts, arrive, decode, present), b)),
            Err(e) => Err(e),
        },
        Err(e) => Err(e),
    }
}

/// Require a parsed payload to be fully consumed.
fn consumed<T>(parsed: Result<(T, &[u8]), WireError>) -> (r: Result<T, MessageError>)
    ensures
        match (parsed, r) {
            (Ok((v, rest)), Ok(w)) => rest@.len() == 0 && w == v,
            (Ok((_, rest)), Err(e)) => rest@.len() > 0 && e == MessageError::TrailingBytes,
            (Err(e), Err(f)) => f == MessageError::Decode(e),
            (Err(_), Ok(_)) => false,
        },
{
    match parsed {
        Ok((value, rest)) => if rest.len() == 0 {
            Ok(value)
        } else {
            Err(MessageError::TrailingBytes)
        },
        Err(e) => Err(MessageError::Decode(e)),
    }
}

/// Four bytes of `n`, most significant first.
fn to_be32(n: u32) -> (b: [u8; 4])
    ensures
        b@ == be32(n as int),
{
    let b: [u8; 4] = [
        ((n / 0x100_0000) % 0x100) as u8,
        ((n / 0x1_0000) % 0x100) as u8,
        ((n / 0x100) % 0x100) as u8,
        (n % 0x100) as u8,
    ];
    proof {
        assert(b@ =~= be32(n as int));
    }
    b
}

/// Four bytes of `n`, least significant first.
fn to_le32(n: u32) -> (b: [u8; 4])
    ensures
        b@ == le32(n),
{
    let be: [u8; 4] = to_be32(n);
    let b: [u8; 4] = [be[3], be[2], be[1], be[0]];
    proof {
        assert(b@ =~= le32(n));
    }
    b
}

/// A field's bytes, with a failure of the encoder as an error of this layer.
fn field(r: Result<Vec<u8>, postcard::Error>) -> (f: Result<Vec<u8>, MessageError>)
    ensures
        match r {
            Ok(bytes) => f == Ok::<Vec<u8>, MessageError>(bytes),
            Err(_) => f == Err::<Vec<u8>, MessageError>(MessageError::Encode(WireError::Malformed)),
        },
{
    match r {
        Ok(bytes) => Ok(bytes),
        Err(_) => Err(MessageError::Encode(WireError::Malformed)),
    }
}

/// Two fields, one behind the other; the first failure if either failed.
fn then_field(
    first: Result<Vec<u8>, MessageError>,
    second: Result<Vec<u8>, MessageError>,
) -> (r: Result<Vec<u8>, MessageError>)
    ensures
        match (first, second) {
            (Ok(a), Ok(b)) => r is Ok && r->Ok_0@ == a@ + b@,
            (Err(e), _) => r == Err::<Vec<u8>, MessageError>(e),
            (Ok(_), Err(e)) => r == Err::<Vec<u8>, MessageError>(e),
        },
{
    match first {
        Ok(mut a) => match second {
            Ok(mut b) => {
                a.append(&mut b);
                Ok(a)
            },
            Err(e) => Err(e),
        },
        Err(e) => Err(e),
    }
}

fn handshake_payload(h: &Handshake) -> (r: Result<Vec<u8>, MessageError>)
    ensures
        r is Ok,
        r->Ok_0@ == FrameView::Handshake(h@).payload(),
{
    let mut indices: Vec<u32> = Vec::new();
    let mut i: usize = 0;
    while i < h.codecs.len()
        invariant
            i <= h.codecs@.len(),
            indices@.len() == i,
            forall|j: int| 0 <= j < i ==> #[trigger] indices@[j] == h.codecs@[j].index_of(),
        decreases h.codecs.len() - i,
    {
        indices.push(h.codecs[i].index());
        i = i + 1;
    }
    proof {
        assert(indices@ =~= codec_indices(h.codecs@));
    }
    let codecs = field(encode_number_list(&indices));
    let refresh = then_field(field(encode_u32(h.refresh_hz)), codecs);
    let height = then_field(field(encode_u32(h.height)), refresh);
    let width = then_field(field(encode_u32(h.width)), height);
    then_field(field(encode_u32(h.protocol_version)), width)
}

/// The payload of a `Video` frame.
pub(crate) fn video_payload(pts_us: u64, keyframe: bool, nal: &Vec<u8>) -> (payload: Vec<u8>)
    ensures
        payload@ == (FrameView::Video { pts_us, keyframe, nal: nal@ }).payload(),
{
    let mut payload: Vec<u8> = Vec::new();
    let high: [u8; 4] = to_be32((pts_us / 0x1_0000_0000) as u32);
    let low: [u8; 4] = to_be32((pts_us % 0x1_0000_0000) as u32);
    payload.extend_from_slice(&high);
    payload.extend_from_slice(&low);
    payload.push(
        if keyframe {
            1
        } else {
            0
        },
    );
    payload.extend_from_slice(nal.as_slice());
    proof {
        assert(payload@ =~= (FrameView::Video { pts_us, keyframe, nal: nal@ }).payload());
    }
    payload
}

/// Decode a structured payload, which has to be the encoding of the frame that it gives: nothing may
/// stand behind the fields, and different payloads never give the same frame.
pub fn decode_canonical(t: u8, payload: &[u8]) -> (r: Result<Frame, MessageError>)
    ensures
        decoded_view(r) == canonical(t, payload@),
{
    let frame: Frame = match Frame::decode_fields(t, payload) {
        Ok(frame) => frame,
        Err(e) => {
            return Err(e);
        },
    };
    match frame.to_tag_payload() {
        Ok((_, own)) => if same_bytes(own.as_slice(), payload) {
            Ok(frame)
        } else {
            Err(MessageError::Decode(WireError::Malformed))
        },
        Err(e) => Err(e),
    }
}

impl Frame {
    /// Encode to `(tag, payload)`.
    pub fn to_tag_payload(&self) -> (r: Result<(u8, Vec<u8>), MessageError>)
        ensures
            r is Ok,
            r->Ok_0.0 == self@.tag(),
            r->Ok_0.1@ == self@.payload(),
    {
        let (t, payload) = match self {
            Frame::Handshake(h) => (tag::HANDSHAKE, handshake_payload(h)),
            Frame::VideoConfig { codec, sps_pps } => (
                tag::VIDEO_CONFIG,
                then_field(field(encode_u32(codec.index())), field(encode_byte_list(sps_pps))),
            ),
            Frame::Video { pts_us, keyframe, nal } => (
                tag::VIDEO,
                Ok(video_payload(*pts_us, *keyframe, nal)),
            ),
            Frame::Touch(t) => {
                let point = then_field(
                    field(encode_word(to_le32(t.nx_bits))),
                    field(encode_word(to_le32(t.ny_bits))),
                );
                let phase = then_field(field(encode_u32(t.phase.index())), point);
                (tag::TOUCH, then_field(field(encode_u32(t.pointer_id)), phase))
            },
            Frame::Control(c) => (tag::CONTROL, field(encode_u32(c.index()))),
            Frame::ClockPing { t0_us } => (tag::CLOCK_PING, field(encode_u64(*t0_us))),
            Frame::ClockPong { t0_us, t1_us, t2_us } => {
                let rest = then_field(field(encode_u64(*t1_us)), field(encode_u64(*t2_us)));
                (tag::CLOCK_PONG, then_field(field(encode_u64(*t0_us)), rest))
            },
            Frame::Stats { pts_us, arrive_us, decode_us, present_us } => {
                let last = then_field(field(encode_u64(*decode_us)), field(encode_u64(*present_us)));
                let rest = then_field(field(encode_u64(*arrive_us)), last);
                (tag::STATS, then_field(field(encode_u64(*pts_us)), rest))
            },
        };
        match payload {
            Ok(payload) => Ok((t, payload)),
            Err(e) => Err(e),
        }
    }

    /// The tag of the frame.
    pub fn tag(&self) -> (t: u8)
        ensures
            t == self@.tag(),
    {
        match self {
            Frame::Handshake(_) => tag::HANDSHAKE,
            Frame::VideoConfig { .. } => tag::VIDEO_CONFIG,
            Frame::Video { .. } => tag::VIDEO,
            Frame::Touch(_) => tag::TOUCH,
            Frame::Control(_) => tag::CONTROL,
            Frame::ClockPing { .. } => tag::CLOCK_PING,
            Frame::ClockPong { .. } => tag::CLOCK_PONG,
            Frame::Stats { .. } => tag::STATS,
        }
    }

    /// Decode a `(tag, payload)` back into a frame. Decoding is canonical: different payloads never
    /// give the same structured frame.
    pub fn decode(t: u8, payload: &[u8]) -> (r: Result<Frame, MessageError>)
        ensures
            decoded_view(r) == decoded(t, payload@),
    {
        if t == tag::VIDEO {
            Frame::decode_fields(t, payload)
        } else {
            decode_canonical(t, payload)
        }
    }

    /// Read the fields of a payload.
    fn decode_fields(t: u8, payload: &[u8]) -> (r: Result<Frame, MessageError>)
        ensures
            decoded_view(r) == fields_of(t, payload@),
    {
        match t {
            tag::HANDSHAKE => match consumed(field_handshake(payload)) {
                Ok(h) => Ok(Frame::Handshake(h)),
                Err(e) => Err(e),
            },
            tag::VIDEO_CONFIG => match consumed(field_video_config(payload)) {
                Ok((codec, sps_pps)) => Ok(Frame::VideoConfig { codec, sps_pps }),
                Err(e) => Err(e),
            },
            tag::VIDEO => {
                if payload.len() < VIDEO_HEADER_LEN {
                    return Err(MessageError::ShortVideoHeader);
                }
                let high: u32 = payload[0] as u32 * 0x100_0000 + payload[1] as u32 * 0x1_0000
                    + payload[2] as u32 * 0x100 + payload[3] as u32;
                let low: u32 = payload[4] as u32 * 0x100_0000 + payload[5] as u32 * 0x1_0000
                    + payload[6] as u32 * 0x100 + payload[7] as u32;
                let nal = slice_subrange(payload, VIDEO_HEADER_LEN, payload.len());
                proof {
                    assert(nal@ =~= payload@.skip(VIDEO_HEADER_LEN as int));
                }
                Ok(
                    Frame::Video {
                        pts_us: high as u64 * 0x1_0000_0000 + low as u64,
                        keyframe: payload[8] != 0,
                        nal: slice_to_vec(nal),
                    },
                )
            },
            tag::TOUCH => match consumed(field_touch(payload)) {
                Ok(event) => Ok(Frame::Touch(event)),
                Err(e) => Err(e),
            },
            tag::CONTROL => match consumed(field_control(payload)) {
                Ok(c) => Ok(Frame::Control(c)),
                Err(e) => Err(e),
            },
            tag::CLOCK_PING => match consumed(field_u64(payload)) {
                Ok(t0_us) => Ok(Frame::ClockPing { t0_us }),
                Err(e) => Err(e),
            },
            tag::CLOCK_PONG => match consumed(field_pong(payload)) {
                Ok((t0_us, t1_us, t2_us)) => Ok(Frame::ClockPong { t0_us, t1_us, t2_us }),
                Err(e) => Err(e),
            },
            tag::STATS => match consumed(field_stats(payload)) {
                Ok((pts_us, arrive_us, decode_us, present_us)) => Ok(
                    Frame::Stats { pts_us, arrive_us, decode_us, present_us },
                ),
                Err(e) => Err(e),
            },
            other => Err(MessageError::UnknownTag(other)),
        }
    }

    /// Encode and write one frame.
    pub fn write_to<W: ByteSink>(&self, w: &mut W) -> (r: Result<(), MessageError>)
        ensures
            wrote(old(w).state(), final(w).state(), self@, r),
    {
        match self.to_tag_payload() {
            Ok((t, payload)) => match write_frame(w, t, payload.as_slice()) {
                Ok(_) => Ok(()),
                Err(e) => Err(MessageError::Io(e)),
            },
            Err(e) => Err(e),
        }
    }

    /// Read and decode one frame.
    pub fn read_from<R: ByteSource>(r: &mut R) -> (res: Result<Frame, MessageError>)
        ensures
            received(old(r).state(), final(r).state(), res),
    {
        proof {
            reveal(next_message);
        }
        match read_frame(r) {
            Ok((t, payload)) => Frame::decode(t, payload.as_slice()),
            Err(e) => Err(MessageError::Io(e)),
        }
    }
}

/// The effect of writing the frame `f`.
pub open spec fn wrote(
    pre: LinkState,
    post: LinkState,
    f: FrameView,
    r: Result<(), MessageError>,
) -> bool {
    match r {
        Ok(_) => write_frame_step(pre, post, f.tag(), f.payload(), Ok(())),
        Err(MessageError::Io(e)) => write_frame_step(pre, post, f.tag(), f.payload(), Err(e)),
        Err(_) => false,
    }
}

/// The message at the front of `bytes`.
#[verifier::opaque]
pub open spec fn next_message(bytes: Seq<u8>) -> Result<FrameView, MessageError> {
    match next_frame(bytes) {
        Ok((t, payload)) => decoded(t, payload),
        Err(e) => Err(MessageError::Io(e)),
    }
}

/// Bytes give no message only where a frame is cut off or too long, or its payload is wrong.
pub proof fn lemma_no_message(bytes: Seq<u8>)
    ensures
        next_message(bytes) matches Err(MessageError::Io(e)) ==> e is UnexpectedEof
            || e is FrameTooLong,
{
    reveal(next_message);
}

/// The effect of reading one frame with the result `r`.
pub open spec fn received(
    pre: LinkState,
    post: LinkState,
    r: Result<Frame, MessageError>,
) -> bool {
    &&& reads_only(pre, post)
    &&& post.stalled == (pre.stalled || pre.flushed < pre.sent.len())
    &&& post.largest_read <= if READ_CHUNK_LEN > pre.largest_read {
        READ_CHUNK_LEN as nat
    } else {
        pre.largest_read
    }
    &&& {
        ||| r matches Err(MessageError::Io(e)) && link_failed(pre, post, LinkOp::Read, e)
            && post.incoming.is_suffix_of(pre.incoming)
        ||| {
            &&& decoded_view(r) == next_message(pre.incoming)
            &&& post.incoming == after_frame(pre.incoming)
            &&& post.fault == pre.fault
        }
    }
}

/// The mutually agreed streaming configuration.
#[derive(Debug, Clone, Copy, PartialEq, Eq, Structural)]
pub struct AgreedConfig {
    /// Agreed width in pixels (the host's offer, which fits the client).
    pub width: u32,
    /// Agreed height in pixels.
    pub height: u32,
    /// Agreed refresh rate: the host's offer clamped to the client's maximum.
    pub refresh_hz: u32,
    /// Agreed codec: the first host-preferred codec that the client also supports.
    pub codec: VideoCodec,
}

/// Why a handshake could not be reconciled.
#[derive(Debug, Clone, Copy, PartialEq, Eq)]
pub enum NegotiationError {
    /// The two peers run incompatible protocol versions.
    VersionMismatch {
        /// The host's version.
        host: u32,
        /// The client's version.
        client: u32,
    },
    /// The codec sets do not intersect.
    NoCommonCodec,
    /// The host's offered resolution exceeds the client's maximum.
    ResolutionUnsupported {
        /// The host's `(width, height)`.
        offered: (u32, u32),
        /// The client's `(max_width, max_height)`.
        client_max: (u32, u32),
    },
}

/// The first codec of `host` that `client` also lists.
pub open spec fn first_common(host: Seq<VideoCodec>, client: Seq<VideoCodec>) -> Option<VideoCodec>
    decreases host.len(),
{
    if host.len() == 0 {
        None
    } else if client.contains(host[0]) {
        Some(host[0])
    } else {
        first_common(host.skip(1), client)
    }
}

/// What an offer and the client's capabilities come to.
pub open spec fn negotiated(host: HandshakeView, client: ClientCapsView) -> Result<
    AgreedConfig,
    NegotiationError,
> {
    if host.protocol_version != client.protocol_version {
        Err(
            NegotiationError::VersionMismatch {
                host: host.protocol_version,
                client: client.protocol_version,
            },
        )
    } else {
        match first_common(host.codecs, client.codecs) {
            None => Err(NegotiationError::NoCommonCodec),
            Some(codec) => if host.width > client.max_width || host.height > client.max_height {
                Err(
                    NegotiationError::ResolutionUnsupported {
                        offered: (host.width, host.height),
                        client_max: (client.max_width, client.max_height),
                    },
                )
            } else {
                Ok(
                    AgreedConfig {
                        width: host.width,
                        height: host.height,
                        refresh_hz: if host.refresh_hz < client.max_refresh_hz {
                            host.refresh_hz
                        } else {
                            client.max_refresh_hz
                        },
                        codec,
                    },
                )
            },
        }
    }
}

fn lists_codec(codecs: &Vec<VideoCodec>, c: VideoCodec) -> (r: bool)
    ensures
        r == codecs@.contains(c),
{
    let mut i: usize = 0;
    while i < codecs.len()
        invariant
            i <= codecs@.len(),
            forall|j: int| 0 <= j < i ==> codecs@[j] != c,
        decreases codecs.len() - i,
    {
        if codecs[i] == c {
            return true;
        }
        i = i + 1;
    }
    false
}

/// Reconcile a host's offer with the client's capabilities. The versions must be equal, a codec
/// must be shared and the resolution must fit, in that order; the refresh rate is clamped.
pub fn negotiate(host: &Handshake, client: &ClientCaps) -> (r: Result<
    AgreedConfig,
    NegotiationError,
>)
    ensures
        r == negotiated(host@, client@),
{
    if host.protocol_version != client.protocol_version {
        return Err(
            NegotiationError::VersionMismatch {
                host: host.protocol_version,
                client: client.protocol_version,
            },
        );
    }
    let mut i: usize = 0;
    let mut common: Option<VideoCodec> = None;
    proof {
        assert(host.codecs@.skip(0) =~= host.codecs@);
    }
    while i < host.codecs.len() && common.is_none()
        invariant
            i <= host.codecs@.len(),
            match common {
                Some(c) => first_common(host.codecs@, client.codecs@) == Some(c),
                None => first_common(host.codecs@, client.codecs@) == first_common(
                    host.codecs@.skip(i as int),
                    client.codecs@,
                ),
            },
        decreases host.codecs.len() - i,
    {
        let c: VideoCodec = host.codecs[i];
        proof {
            assert(host.codecs@.skip(i as int).skip(1) =~= host.codecs@.skip(i + 1));
        }
        if lists_codec(&client.codecs, c) {
            common = Some(c);
        }
        i = i + 1;
    }
    let codec: VideoCodec = match common {
        Some(c) => c,
        None => {
            return Err(NegotiationError::NoCommonCodec);
        },
    };
    if host.width > client.max_width || host.height > client.max_height {
        return Err(
            NegotiationError::ResolutionUnsupported {
                offered: (host.width, host.height),
                client_max: (client.max_width, client.max_height),
            },
        );
    }
    Ok(
        AgreedConfig {
            width: host.width,
            height: host.height,
            refresh_hz: if host.refresh_hz < client.max_refresh_hz {
                host.refresh_hz
            } else {
                client.max_refresh_hz
            },
            codec,
        },
    )
}

/// A `u32` field is read back, whatever follows.
proof fn lemma_u32_field(n: u32, rest: Seq<u8>)
    ensures
        parse_u32(varint(n as nat) + rest) == Ok::<(u32, Seq<u8>), WireError>((n, rest)),
{
    vstd::arithmetic::power2::lemma2_to64();
    lemma_varint_round_trip(n as nat, 32, rest);
}

/// A `u64` field is read back, whatever follows.
proof fn lemma_u64_field(n: u64, rest: Seq<u8>)
    ensures
        parse_u64(varint(n as nat) + rest) == Ok::<(u64, Seq<u8>), WireError>((n, rest)),
{
    vstd::arithmetic::power2::lemma2_to64();
    lemma_varint_round_trip(n as nat, 64, rest);
}

/// A four-byte field is read back, whatever follows.
proof fn lemma_word_field(n: u32, rest: Seq<u8>)
    ensures
        parse_word(le32(n) + rest) == Ok::<(u32, Seq<u8>), WireError>((n, rest)),
{
    let b = le32(n) + rest;
    lemma_be32_inverse(n as int);
    assert(b[0] == be32(n as int)[3] && b[1] == be32(n as int)[2] && b[2] == be32(n as int)[1]
        && b[3] == be32(n as int)[0]);
    assert(b.skip(4) =~= rest);
}

/// A list of codecs is read back, whatever follows.
proof fn lemma_codecs_field(codecs: Seq<VideoCodec>, rest: Seq<u8>)
    requires
        codecs.len() <= usize::MAX,
    ensures
        parse_codecs((varint(codecs.len()) + varints(codec_indices(codecs))) + rest) == Ok::<
            (Seq<VideoCodec>, Seq<u8>),
            WireError,
        >((codecs, rest)),
{
    let indices = codec_indices(codecs);
    assert((varint(codecs.len()) + varints(indices)) + rest =~= varint(codecs.len()) + (varints(
        indices,
    ) + rest));
    lemma_word_fits(codecs.len());
    lemma_varint_round_trip(codecs.len(), usize::BITS as nat, varints(indices) + rest);
    lemma_some_codecs_field(codecs, rest);
}

proof fn lemma_some_codecs_field(codecs: Seq<VideoCodec>, rest: Seq<u8>)
    ensures
        parse_some_codecs(varints(codec_indices(codecs)) + rest, codecs.len()) == Ok::<
            (Seq<VideoCodec>, Seq<u8>),
            WireError,
        >((codecs, rest)),
    decreases codecs.len(),
{
    let indices = codec_indices(codecs);
    if codecs.len() == 0 {
        assert(varints(indices) + rest =~= rest);
        assert(codecs =~= Seq::empty());
    } else {
        let others = codecs.skip(1);
        let tail = varints(codec_indices(others)) + rest;
        assert(indices.skip(1) =~= codec_indices(others));
        assert(varints(indices) + rest =~= varint(indices[0] as nat) + tail);
        lemma_u32_field(indices[0], tail);
        lemma_some_codecs_field(others, rest);
        assert(VideoCodec::at(indices[0]) == Some(codecs[0]));
        assert(seq![codecs[0]] + others =~= codecs);
    }
}

/// A list of bytes is read back, whatever follows.
proof fn lemma_bytes_field(list: Seq<u8>, rest: Seq<u8>)
    requires
        list.len() <= usize::MAX,
    ensures
        take_byte_list((varint(list.len()) + list) + rest) == Ok::<_, WireError>((list, rest)),
{
    assert((varint(list.len()) + list) + rest =~= varint(list.len()) + (list + rest));
    lemma_word_fits(list.len());
    lemma_varint_round_trip(list.len(), usize::BITS as nat, list + rest);
    assert((list + rest).take(list.len() as int) =~= list);
    assert((list + rest).skip(list.len() as int) =~= rest);
}

proof fn lemma_handshake_field(h: HandshakeView, rest: Seq<u8>)
    requires
        h.codecs.len() <= usize::MAX,
    ensures
        parse_handshake(FrameView::Handshake(h).payload() + rest) == Ok::<
            (HandshakeView, Seq<u8>),
            WireError,
        >((h, rest)),
{
    let e = (varint(h.codecs.len()) + varints(codec_indices(h.codecs))) + rest;
    let d = varint(h.refresh_hz as nat) + e;
    let c = varint(h.height as nat) + d;
    let b = varint(h.width as nat) + c;
    let a = varint(h.protocol_version as nat) + b;
    assert(FrameView::Handshake(h).payload() + rest =~= a);
    lemma_u32_field(h.protocol_version, b);
    lemma_u32_field(h.width, c);
    lemma_u32_field(h.height, d);
    lemma_u32_field(h.refresh_hz, e);
    lemma_codecs_field(h.codecs, rest);
}

proof fn lemma_touch_field(t: TouchEvent, rest: Seq<u8>)
    ensures
        parse_touch(FrameView::Touch(t).payload() + rest) == Ok::<(TouchEvent, Seq<u8>), WireError>(
            (t, rest),
        ),
{
    let d = le32(t.ny_bits) + rest;
    let c = le32(t.nx_bits) + d;
    let b = varint(t.phase.index_of() as nat) + c;
    assert(FrameView::Touch(t).payload() + rest =~= varint(t.pointer_id as nat) + b);
    lemma_u32_field(t.pointer_id, b);
    lemma_u32_field(t.phase.index_of(), c);
    lemma_word_field(t.nx_bits, d);
    lemma_word_field(t.ny_bits, rest);
}

proof fn lemma_pong_field(t0: u64, t1: u64, t2: u64, rest: Seq<u8>)
    ensures
        parse_pong(
            (varint(t0 as nat) + (varint(t1 as nat) + varint(t2 as nat))) + rest,
        ) == Ok::<((u64, u64, u64), Seq<u8>), WireError>(((t0, t1, t2), rest)),
{
    let c = varint(t2 as nat) + rest;
    let b = varint(t1 as nat) + c;
    assert((varint(t0 as nat) + (varint(t1 as nat) + varint(t2 as nat))) + rest =~= varint(t0 as nat)
        + b);
    lemma_u64_field(t0, b);
    lemma_u64_field(t1, c);
    lemma_u64_field(t2, rest);
}

proof fn lemma_stats_field(pts: u64, arrive: u64, decode: u64, present: u64, rest: Seq<u8>)
    ensures
        parse_stats(
            (FrameView::Stats {
                pts_us: pts,
                arrive_us: arrive,
                decode_us: decode,
                present_us: present,
            }).payload() + rest,
        ) == Ok::<((u64, u64, u64, u64), Seq<u8>), WireError>(
            ((pts, arrive, decode, present), rest),
        ),
{
    let d = varint(present as nat) + rest;
    let three = varint(pts as nat) + (varint(arrive as nat) + varint(decode as nat));
    assert((FrameView::Stats {
        pts_us: pts,
        arrive_us: arrive,
        decode_us: decode,
        present_us: present,
    }).payload() + rest =~= three + d);
    lemma_pong_field(pts, arrive, decode, d);
    lemma_u64_field(present, rest);
}

/// The payload of a structured frame with more bytes behind it.
proof fn lemma_structured(f: FrameView, rest: Seq<u8>)
    requires
        f.fits(),
        f !is Video,
    ensures
        fields_of(f.tag(), f.payload() + rest) == if rest.len() == 0 {
            Ok::<FrameView, MessageError>(f)
        } else {
            Err::<FrameView, MessageError>(MessageError::TrailingBytes)
        },
{
    match f {
        FrameView::Handshake(h) => {
            lemma_handshake_field(h, rest);
        },
        FrameView::VideoConfig { codec, sps_pps } => {
            let b = (varint(sps_pps.len()) + sps_pps) + rest;
            assert(f.payload() + rest =~= varint(codec.index_of() as nat) + b);
            lemma_u32_field(codec.index_of(), b);
            lemma_bytes_field(sps_pps, rest);
        },
        FrameView::Video { .. } => {},
        FrameView::Touch(t) => {
            lemma_touch_field(t, rest);
        },
        FrameView::Control(c) => {
            lemma_u32_field(c.index_of(), rest);
        },
        FrameView::ClockPing { t0_us } => {
            lemma_u64_field(t0_us, rest);
        },
        FrameView::ClockPong { t0_us, t1_us, t2_us } => {
            lemma_pong_field(t0_us, t1_us, t2_us, rest);
        },
        FrameView::Stats { pts_us, arrive_us, decode_us, present_us } => {
            lemma_stats_field(pts_us, arrive_us, decode_us, present_us, rest);
        },
    }
}

/// Decoding undoes encoding, for every frame.
pub proof fn law_decode_of_encode(f: FrameView)
    requires
        f.fits(),
    ensures
        decoded(f.tag(), f.payload()) == Ok::<FrameView, MessageError>(f),
{
    match f {
        FrameView::Video { pts_us, keyframe, nal } => {
            let b = f.payload();
            let high = pts_us as int / 0x1_0000_0000;
            let low = pts_us as int % 0x1_0000_0000;
            lemma_be32_inverse(high);
            lemma_be32_inverse(low);
            assert(b[0] == be32(high)[0] && b[1] == be32(high)[1] && b[2] == be32(high)[2] && b[3]
                == be32(high)[3]);
            assert(b[4] == be32(low)[0] && b[5] == be32(low)[1] && b[6] == be32(low)[2] && b[7]
                == be32(low)[3]);
            assert(from_be64(b) == pts_us);
            assert(b.skip(9) =~= nal);
        },
        _ => {
            let none = Seq::<u8>::empty();
            lemma_structured(f, none);
            assert(f.payload() + none =~= f.payload());
        },
    }
}

/// Different frames have different encodings.
pub proof fn law_encoding_injective(f: FrameView, g: FrameView)
    requires
        f.fits(),
        g.fits(),
        f.tag() == g.tag(),
        f.payload() == g.payload(),
    ensures
        f == g,
{
    law_decode_of_encode(f);
    law_decode_of_encode(g);
}

/// Canonical decoding gives the same frame for no two payloads.
pub proof fn law_canonical_injective(t: u8, a: Seq<u8>, b: Seq<u8>)
    requires
        canonical(t, a) is Ok,
        canonical(t, a) == canonical(t, b),
    ensures
        a == b,
{
}

/// Canonical decoding refuses every structured payload that it takes once anything stands behind it.
pub proof fn law_canonical_whole(t: u8, b: Seq<u8>, extra: Seq<u8>)
    requires
        t != tag::VIDEO,
        canonical(t, b) is Ok,
        extra.len() > 0,
    ensures
        canonical(t, b + extra) == Err::<FrameView, MessageError>(MessageError::TrailingBytes),
{
    let f = canonical(t, b)->Ok_0;
    lemma_decoded_fits(t, b);
    law_trailing_bytes_rejected(f, extra);
}

/// The lists in a frame that was read are as long as a machine word can say.
proof fn lemma_decoded_fits(t: u8, b: Seq<u8>)
    ensures
        fields_of(t, b) matches Ok(f) ==> f.fits(),
{
    if t == tag::HANDSHAKE {
        if let Ok((_, b)) = parse_u32(b) {
            if let Ok((_, b)) = parse_u32(b) {
                if let Ok((_, b)) = parse_u32(b) {
                    if let Ok((_, b)) = parse_u32(b) {
                        lemma_length_fits(b);
                        if let Ok((count, b)) = take_varint(b, usize::BITS as nat) {
                            lemma_codec_count(b, count);
                        }
                    }
                }
            }
        }
    } else if t == tag::VIDEO_CONFIG {
        if let Ok((_, b)) = parse_codec(b) {
            lemma_length_fits(b);
        }
    }
}

proof fn lemma_length_fits(b: Seq<u8>)
    ensures
        take_varint(b, usize::BITS as nat) matches Ok((n, _)) ==> n <= usize::MAX,
{
    lemma_varint_bound(b, usize::BITS as nat);
    vstd::arithmetic::power2::lemma2_to64();
    vstd::layout::unsigned_int_max_values();
}

proof fn lemma_codec_count(b: Seq<u8>, count: nat)
    ensures
        parse_some_codecs(b, count) matches Ok((codecs, _)) ==> codecs.len() == count,
    decreases count,
{
    if count > 0 {
        if let Ok((_, b)) = parse_codec(b) {
            lemma_codec_count(b, (count - 1) as nat);
        }
    }
}

/// Decoding is canonical: different payloads never give the same structured frame.
pub proof fn law_decoding_injective(t: u8, a: Seq<u8>, b: Seq<u8>)
    requires
        t != tag::VIDEO,
        decoded(t, a) is Ok,
        decoded(t, a) == decoded(t, b),
    ensures
        a == b,
{
}

/// What is decoded from a structured payload is encoded as that payload.
pub proof fn law_encode_of_decode(t: u8, b: Seq<u8>)
    requires
        t != tag::VIDEO,
        decoded(t, b) is Ok,
    ensures
        decoded(t, b)->Ok_0.tag() == t,
        decoded(t, b)->Ok_0.payload() == b,
{
}

/// Decoding is canonical: a structured payload with anything behind it is rejected.
pub proof fn law_trailing_bytes_rejected(f: FrameView, extra: Seq<u8>)
    requires
        f.fits(),
        f !is Video,
        extra.len() > 0,
    ensures
        decoded(f.tag(), f.payload() + extra) == Err::<FrameView, MessageError>(
            MessageError::TrailingBytes,
        ),
{
    lemma_structured(f, extra);
}

/// A frame that was written is the next message to be read, whatever follows it, and reading it
/// leaves exactly what follows.
pub proof fn law_message_round_trip(f: FrameView, rest: Seq<u8>)
    requires
        f.fits(),
        f.payload().len() <= MAX_FRAME_LEN,
    ensures
        next_message(f.wire() + rest) == Ok::<FrameView, MessageError>(f),
        after_frame(f.wire() + rest) == rest,
{
    reveal(next_message);
    law_read_after_write(f.tag(), f.payload(), rest);
    law_decode_of_encode(f);
}

/// The bytes of several frames, one behind the other.
pub open spec fn wire_of(frames: Seq<FrameView>) -> Seq<u8>
    decreases frames.len(),
{
    if frames.len() == 0 {
        Seq::empty()
    } else {
        wire_of(frames.drop_last()) + frames.last().wire()
    }
}

/// The stream of two runs of frames is one stream behind the other.
pub proof fn lemma_wire_of_concat(a: Seq<FrameView>, b: Seq<FrameView>)
    ensures
        wire_of(a + b) == wire_of(a) + wire_of(b),
    decreases b.len(),
{
    if b.len() == 0 {
        assert(a + b =~= a);
        assert(wire_of(a) + wire_of(b) =~= wire_of(a));
    } else {
        assert((a + b).drop_last() =~= a + b.drop_last());
        lemma_wire_of_concat(a, b.drop_last());
        assert(wire_of(a + b) =~= wire_of(a) + wire_of(b));
    }
}

/// The bytes of some frames are those of the first, then those of the others.
pub proof fn lemma_wire_of_first(frames: Seq<FrameView>)
    requires
        frames.len() > 0,
    ensures
        wire_of(frames) == frames[0].wire() + wire_of(frames.skip(1)),
{
    let first = seq![frames[0]];
    let none = Seq::<FrameView>::empty();
    assert(frames =~= first + frames.skip(1));
    lemma_wire_of_concat(first, frames.skip(1));
    assert(first.drop_last() =~= none);
    assert(wire_of(none) =~= Seq::<u8>::empty());
    assert(wire_of(first) =~= frames[0].wire());
}

/// A valid message is a whole frame, so that reading it leaves less.
pub proof fn lemma_message_shortens(bytes: Seq<u8>)
    requires
        next_message(bytes) is Ok,
    ensures
        after_frame(bytes).len() < bytes.len(),
{
    reveal(next_message);
}

/// The first `count` messages of a stream, and what is left of it; `None` where one of them is
/// not a valid message.
pub open spec fn messages_in(bytes: Seq<u8>, count: nat) -> Option<(Seq<FrameView>, Seq<u8>)>
    decreases count,
{
    if count == 0 {
        Some((Seq::empty(), bytes))
    } else {
        match next_message(bytes) {
            Err(_) => None,
            Ok(f) => match messages_in(after_frame(bytes), (count - 1) as nat) {
                None => None,
                Some((more, rest)) => Some((seq![f] + more, rest)),
            },
        }
    }
}

/// Frames that were written one behind the other are read back one by one, in order, whatever
/// follows them.
#[verifier::spinoff_prover]
pub proof fn law_stream_round_trip(frames: Seq<FrameView>, rest: Seq<u8>)
    requires
        forall|i: int|
            0 <= i < frames.len() ==> (#[trigger] frames[i]).fits() && frames[i].payload().len()
                <= MAX_FRAME_LEN,
    ensures
        messages_in(wire_of(frames) + rest, frames.len()) == Some((frames, rest)),
    decreases frames.len(),
{
    if frames.len() == 0 {
        assert(wire_of(frames) + rest =~= rest);
        assert(frames =~= Seq::empty());
    } else {
        let others = frames.skip(1);
        lemma_wire_of_first(frames);
        assert(wire_of(frames) + rest =~= frames[0].wire() + (wire_of(others) + rest));
        law_message_round_trip(frames[0], wire_of(others) + rest);
        law_stream_round_trip(others, rest);
        assert(seq![frames[0]] + others =~= frames);
    }
}

/// Where two peers agree, the picture fits the client, the rate suits both, and both know the
/// codec.
pub proof fn law_agreement_suits_both(host: HandshakeView, client: ClientCapsView)
    requires
        negotiated(host, client) is Ok,
    ensures
        ({
            let agreed = negotiated(host, client)->Ok_0;
            &&& agreed.width == host.width && agreed.width <= client.max_width
            &&& agreed.height == host.height && agreed.height <= client.max_height
            &&& agreed.refresh_hz <= host.refresh_hz && agreed.refresh_hz <= client.max_refresh_hz
            &&& host.codecs.contains(agreed.codec)
            &&& client.codecs.contains(agreed.codec)
        }),
{
    lemma_first_common(host.codecs, client.codecs);
}

/// The common codec is listed by both peers, and exists if any codec is.
pub proof fn lemma_first_common(host: Seq<VideoCodec>, client: Seq<VideoCodec>)
    ensures
        first_common(host, client) matches Some(c) ==> host.contains(c) && client.contains(c),
        first_common(host, client) is None ==> forall|c: VideoCodec|
            host.contains(c) ==> !#[trigger] client.contains(c),
    decreases host.len(),
{
    if host.len() > 0 && !client.contains(host[0]) {
        lemma_first_common(host.skip(1), client);
        assert forall|c: VideoCodec| host.contains(c) implies c == host[0] || host.skip(1).contains(
            c,
        ) by {
            let i = choose|i: int| 0 <= i < host.len() && host[i] == c;
            if i > 0 {
                assert(host.skip(1)[i - 1] == c);
            }
        }
        if let Some(c) = first_common(host, client) {
            let i = choose|i: int| 0 <= i < host.skip(1).len() && host.skip(1)[i] == c;
            assert(host[i + 1] == c);
        }
    }
}

/// A varint of a machine number is at most ten bytes long.
pub proof fn lemma_varint_len(n: nat)
    requires
        n <= u64::MAX,
    ensures
        1 <= varint(n).len() <= 10,
{
    reveal_with_fuel(varint, 10);
}

/// A `ClockPing` is always short enough to be sent.
pub proof fn lemma_ping_sendable(t0_us: u64)
    ensures
        (FrameView::ClockPing { t0_us }).payload().len() <= MAX_FRAME_LEN,
{
    lemma_varint_len(t0_us as nat);
}

/// A control message is always short enough to be sent.
pub proof fn lemma_control_sendable(c: Control)
    ensures
        FrameView::Control(c).payload().len() == 1,
{
}

/// The first `count` varints of some bytes, with what follows them.
pub open spec fn leading_numbers(bytes: Seq<u8>, count: nat) -> Option<(Seq<nat>, Seq<u8>)>
    decreases count,
{
    if count == 0 {
        Some((Seq::empty(), bytes))
    } else {
        match take_varint(bytes, 64) {
            Err(_) => None,
            Ok((n, behind)) => match leading_numbers(behind, (count - 1) as nat) {
                None => None,
                Some((more, rest)) => Some((seq![n] + more, rest)),
            },
        }
    }
}

proof fn lemma_leading_number(n: nat, count: nat, rest: Seq<u8>)
    requires
        n <= u64::MAX,
        count > 0,
    ensures
        leading_numbers(varint(n) + rest, count) == match leading_numbers(
            rest,
            (count - 1) as nat,
        ) {
            None => None,
            Some((more, behind)) => Some((seq![n] + more, behind)),
        },
{
    lemma_u64_field(n as u64, rest);
    vstd::arithmetic::power2::lemma2_to64();
    lemma_varint_round_trip(n, 64, rest);
}

/// The numbers of a list of codecs can be read one after the other.
proof fn lemma_leading_codecs(codecs: Seq<VideoCodec>, rest: Seq<u8>)
    ensures
        leading_numbers(varints(codec_indices(codecs)) + rest, codecs.len()) == Some(
            (Seq::new(codecs.len(), |i: int| codecs[i].index_of() as nat), rest),
        ),
    decreases codecs.len(),
{
    let indices = codec_indices(codecs);
    let numbers = Seq::new(codecs.len(), |i: int| codecs[i].index_of() as nat);
    if codecs.len() == 0 {
        assert(varints(indices) + rest =~= rest);
        assert(numbers =~= Seq::empty());
    } else {
        let others = codecs.skip(1);
        let tail = varints(codec_indices(others)) + rest;
        assert(indices.skip(1) =~= codec_indices(others));
        assert(varints(indices) + rest =~= varint(indices[0] as nat) + tail);
        lemma_leading_codecs(others, rest);
        lemma_leading_number(indices[0] as nat, codecs.len(), tail);
        assert(numbers =~= seq![indices[0] as nat] + Seq::new(
            others.len(),
            |i: int| others[i].index_of() as nat,
        ));
    }
}

/// A handshake is laid out as numbers: the version, the width, the height and the refresh rate, how
/// many codecs there are, and the codecs, by preference, H.264 as 0 and HEVC as 1.
pub proof fn law_handshake_layout(h: HandshakeView)
    requires
        h.codecs.len() <= usize::MAX,
    ensures
        FrameView::Handshake(h).tag() == 1,
        leading_numbers(FrameView::Handshake(h).payload(), 5 + h.codecs.len()) == Some(
            (
                seq![
                    h.protocol_version as nat,
                    h.width as nat,
                    h.height as nat,
                    h.refresh_hz as nat,
                    h.codecs.len(),
                ] + Seq::new(
                    h.codecs.len(),
                    |i: int|
                        if h.codecs[i] == VideoCodec::H264 {
                            0nat
                        } else {
                            1nat
                        },
                ),
                Seq::<u8>::empty(),
            ),
        ),
{
    let none = Seq::<u8>::empty();
    let count = h.codecs.len();
    let numbers = Seq::new(count, |i: int| h.codecs[i].index_of() as nat);
    let f = varints(codec_indices(h.codecs));
    let e = varint(count) + f;
    let d = varint(h.refresh_hz as nat) + e;
    let c = varint(h.height as nat) + d;
    let b = varint(h.width as nat) + c;
    assert(FrameView::Handshake(h).payload() == varint(h.protocol_version as nat) + b);
    assert(f + none =~= f);
    lemma_leading_codecs(h.codecs, none);
    lemma_leading_number(count, count + 1, f);
    lemma_leading_number(h.refresh_hz as nat, count + 2, e);
    lemma_leading_number(h.height as nat, count + 3, d);
    lemma_leading_number(h.width as nat, count + 4, c);
    lemma_leading_number(h.protocol_version as nat, count + 5, b);
    assert(seq![h.protocol_version as nat] + (seq![h.width as nat] + (seq![h.height as nat] + (seq![
        h.refresh_hz as nat,
    ] + (seq![count] + numbers)))) =~= seq![
        h.protocol_version as nat,
        h.width as nat,
        h.height as nat,
        h.refresh_hz as nat,
        count,
    ] + Seq::new(
        count,
        |i: int|
            if h.codecs[i] == VideoCodec::H264 {
                0nat
            } else {
                1nat
            },
    ));
}

/// A codec configuration is laid out as the number of the codec, the length of the parameter sets,
/// and the parameter sets.
pub proof fn law_video_config_layout(codec: VideoCodec, sps_pps: Seq<u8>)
    requires
        sps_pps.len() <= usize::MAX,
    ensures
        (FrameView::VideoConfig { codec, sps_pps }).tag() == 2,
        leading_numbers((FrameView::VideoConfig { codec, sps_pps }).payload(), 2) == Some(
            (
                seq![
                    if codec == VideoCodec::H264 {
                        0nat
                    } else {
                        1nat
                    },
                    sps_pps.len(),
                ],
                sps_pps,
            ),
        ),
{
    let b = varint(sps_pps.len()) + sps_pps;
    lemma_leading_number(sps_pps.len(), 1, sps_pps);
    lemma_leading_number(codec.index_of() as nat, 2, b);
    let none = Seq::<nat>::empty();
    assert(leading_numbers(sps_pps, 0) == Some((none, sps_pps)));
    assert(seq![codec.index_of() as nat] + (seq![sps_pps.len()] + none) =~= seq![
        codec.index_of() as nat,
        sps_pps.len(),
    ]);
}

/// A video payload is laid out as eight bytes of time, each worth 256 times the next one, a byte
/// that is one for a keyframe and zero otherwise, and the bytes of the picture.
pub proof fn law_video_layout(pts_us: u64, keyframe: bool, nal: Seq<u8>)
    ensures
        ({
            let f = FrameView::Video { pts_us, keyframe, nal };
            let b = f.payload();
            &&& f.tag() == 3
            &&& b.len() == 9 + nal.len()
            &&& pts_us == ((((((b[0] * 256 + b[1]) * 256 + b[2]) * 256 + b[3]) * 256 + b[4]) * 256
                + b[5]) * 256 + b[6]) * 256 + b[7]
            &&& b[8] == if keyframe {
                1u8
            } else {
                0u8
            }
            &&& b.skip(9) == nal
        }),
{
    let t = be64(pts_us);
    let b = (FrameView::Video { pts_us, keyframe, nal }).payload();
    lemma_be64_digits(pts_us);
    assert(b[0] == t[0] && b[1] == t[1] && b[2] == t[2] && b[3] == t[3] && b[4] == t[4] && b[5]
        == t[5] && b[6] == t[6] && b[7] == t[7]);
    assert(b.skip(9) =~= nal);
}

/// Eight bytes, most significant first, as digits to the base 256.
#[verifier::spinoff_prover]
proof fn lemma_be64_digits(n: u64)
    ensures
        ({
            let b = be64(n);
            &&& b.len() == 8
            &&& n == ((((((b[0] * 256 + b[1]) * 256 + b[2]) * 256 + b[3]) * 256 + b[4]) * 256
                + b[5]) * 256 + b[6]) * 256 + b[7]
        }),
{
    let high = n as int / 0x1_0000_0000;
    let low = n as int % 0x1_0000_0000;
    let h = be32(high);
    let l = be32(low);
    let b = be64(n);
    lemma_be32_inverse(high);
    lemma_be32_inverse(low);
    assert(b[0] == h[0] && b[1] == h[1] && b[2] == h[2] && b[3] == h[3]);
    assert(b[4] == l[0] && b[5] == l[1] && b[6] == l[2] && b[7] == l[3]);
    assert(n == high * 0x1_0000_0000 + low);
}

/// A video payload is read as it is laid out, with every flag but zero as a keyframe; one that is
/// shorter than its fixed part is refused.
pub proof fn law_video_is_read_as_laid_out(b: Seq<u8>)
    ensures
        b.len() < 9 <==> decoded(3, b) == Err::<FrameView, MessageError>(
            MessageError::ShortVideoHeader,
        ),
        b.len() >= 9 ==> (decoded(3, b) matches Ok(FrameView::Video { pts_us, keyframe, nal }) && {
            &&& pts_us == ((((((b[0] * 256 + b[1]) * 256 + b[2]) * 256 + b[3]) * 256 + b[4]) * 256
                + b[5]) * 256 + b[6]) * 256 + b[7]
            &&& keyframe == (b[8] != 0)
            &&& nal == b.skip(9)
        }),
{
}

/// A touch is laid out as the number of its pointer, its phase (0 for a press, 1 for a move, 2 for a
/// release), and four bytes for each coordinate, x before y, each byte worth 256 times the one
/// before.
pub proof fn law_touch_layout(t: TouchEvent)
    ensures
        FrameView::Touch(t).tag() == 4,
        leading_numbers(FrameView::Touch(t).payload(), 2) matches Some((numbers, b)) && {
            &&& numbers == seq![
                t.pointer_id as nat,
                match t.phase {
                    TouchPhase::Down => 0nat,
                    TouchPhase::Move => 1nat,
                    TouchPhase::Up => 2nat,
                },
            ]
            &&& b.len() == 8
            &&& t.nx_bits == b[0] + 256 * (b[1] + 256 * (b[2] + 256 * b[3]))
            &&& t.ny_bits == b[4] + 256 * (b[5] + 256 * (b[6] + 256 * b[7]))
        },
{
    let x = be32(t.nx_bits as int);
    let y = be32(t.ny_bits as int);
    let b = le32(t.nx_bits) + le32(t.ny_bits);
    let none = Seq::<nat>::empty();
    assert(leading_numbers(b, 0) == Some((none, b)));
    lemma_leading_number(t.phase.index_of() as nat, 1, b);
    lemma_leading_number(t.pointer_id as nat, 2, varint(t.phase.index_of() as nat) + b);
    assert(seq![t.pointer_id as nat] + (seq![t.phase.index_of() as nat] + none) =~= seq![
        t.pointer_id as nat,
        t.phase.index_of() as nat,
    ]);
    lemma_be32_inverse(t.nx_bits as int);
    lemma_be32_inverse(t.ny_bits as int);
    assert(b[0] == x[3] && b[1] == x[2] && b[2] == x[1] && b[3] == x[0]);
    assert(b[4] == y[3] && b[5] == y[2] && b[6] == y[1] && b[7] == y[0]);
}

/// A control message is laid out as its number.
pub proof fn law_control_layout(c: Control)
    ensures
        FrameView::Control(c).tag() == 5,
        FrameView::Control(c).payload() == seq![
            match c {
                Control::RequestKeyframe => 0u8,
                Control::Pause => 1u8,
                Control::Resume => 2u8,
                Control::Bye => 3u8,
                Control::Heartbeat => 4u8,
            },
        ],
{
    assert(FrameView::Control(c).payload() =~= seq![c.index_of() as u8]);
}

/// The times of a clock exchange and of a report are laid out as numbers, in the order in which they
/// are taken.
pub proof fn law_times_layout(a: u64, b: u64, c: u64, d: u64)
    ensures
        (FrameView::ClockPing { t0_us: a }).tag() == 6,
        leading_numbers((FrameView::ClockPing { t0_us: a }).payload(), 1) == Some(
            (seq![a as nat], Seq::<u8>::empty()),
        ),
        (FrameView::ClockPong { t0_us: a, t1_us: b, t2_us: c }).tag() == 7,
        leading_numbers((FrameView::ClockPong { t0_us: a, t1_us: b, t2_us: c }).payload(), 3)
            == Some((seq![a as nat, b as nat, c as nat], Seq::<u8>::empty())),
        (FrameView::Stats { pts_us: a, arrive_us: b, decode_us: c, present_us: d }).tag() == 8,
        leading_numbers(
            (FrameView::Stats { pts_us: a, arrive_us: b, decode_us: c, present_us: d }).payload(),
            4,
        ) == Some((seq![a as nat, b as nat, c as nat, d as nat], Seq::<u8>::empty())),
{
    let end = Seq::<u8>::empty();
    let none = Seq::<nat>::empty();
    assert(leading_numbers(end, 0) == Some((none, end)));
    assert(varint(a as nat) + end =~= varint(a as nat));
    assert(varint(c as nat) + end =~= varint(c as nat));
    assert(varint(d as nat) + end =~= varint(d as nat));
    lemma_leading_number(a as nat, 1, end);
    lemma_leading_number(c as nat, 1, end);
    lemma_leading_number(b as nat, 2, varint(c as nat));
    lemma_leading_number(a as nat, 3, varint(b as nat) + varint(c as nat));
    assert(seq![a as nat] + none =~= seq![a as nat]);
    assert(seq![a as nat] + (seq![b as nat] + (seq![c as nat] + none)) =~= seq![
        a as nat,
        b as nat,
        c as nat,
    ]);
    lemma_leading_number(d as nat, 1, end);
    lemma_leading_number(c as nat, 2, varint(d as nat));
    lemma_leading_number(b as nat, 3, varint(c as nat) + varint(d as nat));
    lemma_leading_number(a as nat, 4, varint(b as nat) + (varint(c as nat) + varint(d as nat)));
    assert(seq![a as nat] + (seq![b as nat] + (seq![c as nat] + (seq![d as nat] + none))) =~= seq![
        a as nat,
        b as nat,
        c as nat,
        d as nat,
    ]);
}

/// A tag that no kind of frame has is refused, whatever the payload holds.
pub proof fn law_unknown_tags_are_refused(t: u8, b: Seq<u8>)
    ensures
        t < 1 || t > 8 ==> decoded(t, b) == Err::<FrameView, MessageError>(
            MessageError::UnknownTag(t),
        ),
{
}

/// When two peers agree: exactly if they speak the same version, know a codec in common, and the
/// picture fits the client in width and height. Each refusal names what does not fit, the version
/// before the codec and the codec before the size.
pub proof fn law_agreement_is_reached(host: HandshakeView, client: ClientCapsView)
    ensures
        ({
            let same = host.protocol_version == client.protocol_version;
            let common = exists|c: VideoCodec|
                #[trigger] host.codecs.contains(c) && client.codecs.contains(c);
            let room = host.width <= client.max_width && host.height <= client.max_height;
            match negotiated(host, client) {
                Ok(_) => same && common && room,
                Err(NegotiationError::VersionMismatch { host: h, client: c }) => !same && h
                    == host.protocol_version && c == client.protocol_version,
                Err(NegotiationError::NoCommonCodec) => same && !common,
                Err(NegotiationError::ResolutionUnsupported { offered, client_max }) => same
                    && common && !room && offered == (host.width, host.height) && client_max == (
                    client.max_width,
                    client.max_height,
                ),
            }
        }),
{
    lemma_first_common(host.codecs, client.codecs);
}

/// What two peers agree on: the host's size, the highest rate that suits both, and the codec that
/// the host prefers among those that the client knows.
pub proof fn law_agreement_is_the_best(host: HandshakeView, client: ClientCapsView, rate: u32)
    requires
        negotiated(host, client) is Ok,
        rate <= host.refresh_hz,
        rate <= client.max_refresh_hz,
    ensures
        ({
            let agreed = negotiated(host, client)->Ok_0;
            &&& agreed.width == host.width
            &&& agreed.height == host.height
            &&& rate <= agreed.refresh_hz <= host.refresh_hz
            &&& agreed.refresh_hz <= client.max_refresh_hz
            &&& exists|i: int|
                {
                    &&& 0 <= i < host.codecs.len()
                    &&& #[trigger] host.codecs[i] == agreed.codec
                    &&& client.codecs.contains(agreed.codec)
                    &&& forall|j: int|
                        0 <= j < i ==> !client.codecs.contains(#[trigger] host.codecs[j])
                }
        }),
{
    lemma_preferred(host.codecs, client.codecs);
}

proof fn lemma_preferred(host: Seq<VideoCodec>, client: Seq<VideoCodec>)
    requires
        first_common(host, client) is Some,
    ensures
        exists|i: int|
            {
                &&& 0 <= i < host.len()
                &&& #[trigger] host[i] == first_common(host, client)->0
                &&& client.contains(host[i])
                &&& forall|j: int| 0 <= j < i ==> !client.contains(#[trigger] host[j])
            },
    decreases host.len(),
{
    if client.contains(host[0]) {
        assert(host[0] == first_common(host, client)->0);
    } else {
        let rest = host.skip(1);
        lemma_preferred(rest, client);
        let i = choose|i: int|
            {
                &&& 0 <= i < rest.len()
                &&& #[trigger] rest[i] == first_common(rest, client)->0
                &&& client.contains(rest[i])
                &&& forall|j: int| 0 <= j < i ==> !client.contains(#[trigger] rest[j])
            };
        assert(host[i + 1] == rest[i]);
        assert forall|j: int| 0 <= j < i + 1 implies !client.contains(#[trigger] host[j]) by {
            if j > 0 {
                assert(rest[j - 1] == host[j]);
            }
        }
    }
}

/// Frames, offers and capabilities are seen as they are, each value under its own name.
pub proof fn law_frames_are_seen_as_they_are(f: Frame, h: Handshake, c: ClientCaps)
    ensures
        h@.protocol_version == h.protocol_version,
        h@.width == h.width,
        h@.height == h.height,
        h@.refresh_hz == h.refresh_hz,
        h@.codecs == h.codecs@,
        c@.protocol_version == c.protocol_version,
        c@.max_width == c.max_width,
        c@.max_height == c.max_height,
        c@.max_refresh_hz == c.max_refresh_hz,
        c@.codecs == c.codecs@,
        match (f, f@) {
            (Frame::Handshake(a), FrameView::Handshake(b)) => a@ == b,
            (
                Frame::VideoConfig { codec, sps_pps },
                FrameView::VideoConfig { codec: k, sps_pps: s },
            ) => codec == k && sps_pps@ == s,
            (
                Frame::Video { pts_us, keyframe, nal },
                FrameView::Video { pts_us: p, keyframe: k, nal: n },
            ) => pts_us == p && keyframe == k && nal@ == n,
            (Frame::Touch(a), FrameView::Touch(b)) => a == b,
            (Frame::Control(a), FrameView::Control(b)) => a == b,
            (Frame::ClockPing { t0_us }, FrameView::ClockPing { t0_us: a }) => t0_us == a,
            (
                Frame::ClockPong { t0_us, t1_us, t2_us },
                FrameView::ClockPong { t0_us: a, t1_us: b, t2_us: c },
            ) => t0_us == a && t1_us == b && t2_us == c,
            (
                Frame::Stats { pts_us, arrive_us, decode_us, present_us },
                FrameView::Stats { pts_us: a, arrive_us: b, decode_us: c, present_us: d },
            ) => pts_us == a && arrive_us == b && decode_us == c && present_us == d,
            _ => false,
        },
{
}

/// A varint that is cut off is read as that.
proof fn lemma_cut_varint(n: nat, bits: nat, k: int)
    requires
        n < vstd::arithmetic::power2::pow2(bits),
        0 <= k < varint(n).len(),
    ensures
        take_varint(varint(n).take(k), bits) == Err::<(nat, Seq<u8>), WireError>(
            WireError::UnexpectedEnd,
        ),
    decreases n,
{
    let cut = varint(n).take(k);
    if n >= 128 && k > 0 {
        let high = n / 128;
        vstd::arithmetic::power2::lemma2_to64();
        if bits <= 7 {
            if bits < 7 {
                vstd::arithmetic::power2::lemma_pow2_strictly_increases(bits, 7);
            }
            assert(false);
        }
        vstd::arithmetic::power2::lemma_pow2_adds(7, (bits - 7) as nat);
        vstd::arithmetic::power2::lemma_pow2_pos((bits - 7) as nat);
        let p = vstd::arithmetic::power2::pow2((bits - 7) as nat);
        assert(high < p) by (nonlinear_arith)
            requires
                high == n / 128,
                n < 128 * p,
        ;
        assert(cut.skip(1) =~= varint(high).take(k - 1));
        lemma_cut_varint(high, (bits - 7) as nat, k - 1);
    }
}

proof fn lemma_cut_u32(n: u32, rest: Seq<u8>, k: int)
    requires
        0 <= k < (varint(n as nat) + rest).len(),
    ensures
        k < varint(n as nat).len() ==> parse_u32((varint(n as nat) + rest).take(k)) == Err::<
            (u32, Seq<u8>),
            WireError,
        >(WireError::UnexpectedEnd),
        k >= varint(n as nat).len() ==> parse_u32((varint(n as nat) + rest).take(k)) == Ok::<
            (u32, Seq<u8>),
            WireError,
        >((n, rest.take(k - varint(n as nat).len()))),
{
    let a = varint(n as nat);
    vstd::arithmetic::power2::lemma2_to64();
    if k < a.len() {
        assert((a + rest).take(k) =~= a.take(k));
        lemma_cut_varint(n as nat, 32, k);
    } else {
        assert((a + rest).take(k) =~= a + rest.take(k - a.len()));
        lemma_u32_field(n, rest.take(k - a.len()));
    }
}

proof fn lemma_cut_u64(n: u64, rest: Seq<u8>, k: int)
    requires
        0 <= k < (varint(n as nat) + rest).len(),
    ensures
        k < varint(n as nat).len() ==> parse_u64((varint(n as nat) + rest).take(k)) == Err::<
            (u64, Seq<u8>),
            WireError,
        >(WireError::UnexpectedEnd),
        k >= varint(n as nat).len() ==> parse_u64((varint(n as nat) + rest).take(k)) == Ok::<
            (u64, Seq<u8>),
            WireError,
        >((n, rest.take(k - varint(n as nat).len()))),
{
    let a = varint(n as nat);
    vstd::arithmetic::power2::lemma2_to64();
    if k < a.len() {
        assert((a + rest).take(k) =~= a.take(k));
        lemma_cut_varint(n as nat, 64, k);
    } else {
        assert((a + rest).take(k) =~= a + rest.take(k - a.len()));
        lemma_u64_field(n, rest.take(k - a.len()));
    }
}

proof fn lemma_cut_word(n: u32, rest: Seq<u8>, k: int)
    requires
        0 <= k < (le32(n) + rest).len(),
    ensures
        k < 4 ==> parse_word((le32(n) + rest).take(k)) == Err::<(u32, Seq<u8>), WireError>(
            WireError::UnexpectedEnd,
        ),
        k >= 4 ==> parse_word((le32(n) + rest).take(k)) == Ok::<(u32, Seq<u8>), WireError>(
            (n, rest.take(k - 4)),
        ),
{
    if k >= 4 {
        assert((le32(n) + rest).take(k) =~= le32(n) + rest.take(k - 4));
        lemma_word_field(n, rest.take(k - 4));
    }
}

proof fn lemma_cut_length(n: nat, rest: Seq<u8>, k: int)
    requires
        n <= usize::MAX,
        0 <= k < (varint(n) + rest).len(),
    ensures
        k < varint(n).len() ==> take_varint((varint(n) + rest).take(k), usize::BITS as nat) == Err::<
            (nat, Seq<u8>),
            WireError,
        >(WireError::UnexpectedEnd),
        k >= varint(n).len() ==> take_varint((varint(n) + rest).take(k), usize::BITS as nat) == Ok::<
            (nat, Seq<u8>),
            WireError,
        >((n, rest.take(k - varint(n).len()))),
{
    let a = varint(n);
    lemma_word_fits(n);
    if k < a.len() {
        assert((a + rest).take(k) =~= a.take(k));
        lemma_cut_varint(n, usize::BITS as nat, k);
    } else {
        assert((a + rest).take(k) =~= a + rest.take(k - a.len()));
        lemma_varint_round_trip(n, usize::BITS as nat, rest.take(k - a.len()));
    }
}

proof fn lemma_cut_codecs(codecs: Seq<VideoCodec>, k: int)
    requires
        0 <= k < varints(codec_indices(codecs)).len(),
    ensures
        parse_some_codecs(varints(codec_indices(codecs)).take(k), codecs.len()) == Err::<
            (Seq<VideoCodec>, Seq<u8>),
            WireError,
        >(WireError::UnexpectedEnd),
    decreases codecs.len(),
{
    let indices = codec_indices(codecs);
    if codecs.len() > 0 {
        let others = codecs.skip(1);
        let tail = varints(codec_indices(others));
        let first = varint(indices[0] as nat).len();
        assert(indices.skip(1) =~= codec_indices(others));
        lemma_cut_u32(indices[0], tail, k);
        if k >= first {
            lemma_cut_codecs(others, k - first);
        }
    }
}

proof fn lemma_cut_handshake(h: HandshakeView, k: int)
    requires
        h.codecs.len() <= usize::MAX,
        0 <= k < FrameView::Handshake(h).payload().len(),
    ensures
        parse_handshake(FrameView::Handshake(h).payload().take(k)) == Err::<
            (HandshakeView, Seq<u8>),
            WireError,
        >(WireError::UnexpectedEnd),
{
    let f = varints(codec_indices(h.codecs));
    let e = varint(h.codecs.len()) + f;
    let d = varint(h.refresh_hz as nat) + e;
    let c = varint(h.height as nat) + d;
    let b = varint(h.width as nat) + c;
    let k1 = k - varint(h.protocol_version as nat).len();
    let k2 = k1 - varint(h.width as nat).len();
    let k3 = k2 - varint(h.height as nat).len();
    let k4 = k3 - varint(h.refresh_hz as nat).len();
    let k5 = k4 - varint(h.codecs.len()).len();
    lemma_cut_u32(h.protocol_version, b, k);
    if k1 >= 0 {
        lemma_cut_u32(h.width, c, k1);
        if k2 >= 0 {
            lemma_cut_u32(h.height, d, k2);
            if k3 >= 0 {
                lemma_cut_u32(h.refresh_hz, e, k3);
                if k4 >= 0 {
                    lemma_cut_length(h.codecs.len(), f, k4);
                    if k5 >= 0 {
                        lemma_cut_codecs(h.codecs, k5);
                    }
                }
            }
        }
    }
}

proof fn lemma_cut_config(codec: VideoCodec, sps_pps: Seq<u8>, k: int)
    requires
        sps_pps.len() <= usize::MAX,
        0 <= k < (FrameView::VideoConfig { codec, sps_pps }).payload().len(),
    ensures
        parse_video_config((FrameView::VideoConfig { codec, sps_pps }).payload().take(k)) == Err::<
            ((VideoCodec, Seq<u8>), Seq<u8>),
            WireError,
        >(WireError::UnexpectedEnd),
{
    let b = varint(sps_pps.len()) + sps_pps;
    let ka = varint(codec.index_of() as nat).len();
    lemma_cut_u32(codec.index_of(), b, k);
    if k >= ka {
        lemma_cut_length(sps_pps.len(), sps_pps, k - ka);
    }
}

proof fn lemma_cut_touch(t: TouchEvent, k: int)
    requires
        0 <= k < FrameView::Touch(t).payload().len(),
    ensures
        parse_touch(FrameView::Touch(t).payload().take(k)) == Err::<(TouchEvent, Seq<u8>), WireError>(
            WireError::UnexpectedEnd,
        ),
{
    let none = Seq::<u8>::empty();
    let d = le32(t.ny_bits);
    let c = le32(t.nx_bits) + d;
    let b = varint(t.phase.index_of() as nat) + c;
    let ka = varint(t.pointer_id as nat).len();
    let kb = varint(t.phase.index_of() as nat).len();
    assert(d + none =~= d);
    lemma_cut_u32(t.pointer_id, b, k);
    if k >= ka {
        lemma_cut_u32(t.phase.index_of(), c, k - ka);
        if k - ka >= kb {
            lemma_cut_word(t.nx_bits, d, k - ka - kb);
            if k - ka - kb >= 4 {
                lemma_cut_word(t.ny_bits, none, k - ka - kb - 4);
            }
        }
    }
}

proof fn lemma_cut_pong(t0: u64, t1: u64, t2: u64, rest: Seq<u8>, k: int)
    requires
        0 <= k < (varint(t0 as nat) + (varint(t1 as nat) + (varint(t2 as nat) + rest))).len(),
    ensures
        ({
            let whole = varint(t0 as nat) + (varint(t1 as nat) + (varint(t2 as nat) + rest));
            let three = varint(t0 as nat).len() + varint(t1 as nat).len() + varint(t2 as nat).len();
            &&& k < three ==> parse_pong(whole.take(k)) == Err::<((u64, u64, u64), Seq<u8>), WireError>(
                WireError::UnexpectedEnd,
            )
            &&& k >= three ==> parse_pong(whole.take(k)) == Ok::<
                ((u64, u64, u64), Seq<u8>),
                WireError,
            >(((t0, t1, t2), rest.take(k - three)))
        }),
{
    let c = varint(t2 as nat) + rest;
    let b = varint(t1 as nat) + c;
    let ka = varint(t0 as nat).len();
    let kb = varint(t1 as nat).len();
    lemma_cut_u64(t0, b, k);
    if k >= ka {
        lemma_cut_u64(t1, c, k - ka);
        if k - ka >= kb {
            lemma_cut_u64(t2, rest, k - ka - kb);
        }
    }
}

proof fn lemma_cut_stats(pts: u64, arrive: u64, decode: u64, present: u64, k: int)
    requires
        ({
            let f = FrameView::Stats {
                pts_us: pts,
                arrive_us: arrive,
                decode_us: decode,
                present_us: present,
            };
            0 <= k < f.payload().len()
        }),
    ensures
        parse_stats(
            (FrameView::Stats {
                pts_us: pts,
                arrive_us: arrive,
                decode_us: decode,
                present_us: present,
            }).payload().take(k),
        ) == Err::<((u64, u64, u64, u64), Seq<u8>), WireError>(WireError::UnexpectedEnd),
{
    let none = Seq::<u8>::empty();
    let d = varint(present as nat);
    let three = varint(pts as nat).len() + varint(arrive as nat).len() + varint(decode as nat).len();
    assert(d + none =~= d);
    lemma_cut_pong(pts, arrive, decode, d, k);
    if k >= three {
        lemma_cut_u64(present, none, k - three);
    }
}

/// A structured payload that is cut off anywhere is refused as cut off.
pub proof fn law_cut_payloads_are_refused(f: FrameView, k: int)
    requires
        f.fits(),
        f !is Video,
        0 <= k < f.payload().len(),
    ensures
        decoded(f.tag(), f.payload().take(k)) == Err::<FrameView, MessageError>(
            MessageError::Decode(WireError::UnexpectedEnd),
        ),
{
    let none = Seq::<u8>::empty();
    match f {
        FrameView::Handshake(h) => {
            lemma_cut_handshake(h, k);
        },
        FrameView::VideoConfig { codec, sps_pps } => {
            lemma_cut_config(codec, sps_pps, k);
        },
        FrameView::Video { .. } => {},
        FrameView::Touch(t) => {
            lemma_cut_touch(t, k);
        },
        FrameView::Control(c) => {
            let a = varint(c.index_of() as nat);
            assert(a + none =~= a);
            lemma_cut_u32(c.index_of(), none, k);
        },
        FrameView::ClockPing { t0_us } => {
            let a = varint(t0_us as nat);
            assert(a + none =~= a);
            lemma_cut_u64(t0_us, none, k);
        },
        FrameView::ClockPong { t0_us, t1_us, t2_us } => {
            let c = varint(t2_us as nat);
            assert(c + none =~= c);
            lemma_cut_pong(t0_us, t1_us, t2_us, none, k);
        },
        FrameView::Stats { pts_us, arrive_us, decode_us, present_us } => {
            lemma_cut_stats(pts_us, arrive_us, decode_us, present_us, k);
        },
    }
}

/// A number that stands for no control message, and one that stands for no phase of a touch, is
/// refused as unknown.
pub proof fn law_unknown_numbers_are_refused(n: u32, pointer_id: u32, rest: Seq<u8>)
    ensures
        n > 4 ==> decoded(5, varint(n as nat)) == Err::<FrameView, MessageError>(
            MessageError::Decode(WireError::UnknownVariant),
        ),
        n > 2 ==> decoded(4, varint(pointer_id as nat) + (varint(n as nat) + rest)) == Err::<
            FrameView,
            MessageError,
        >(MessageError::Decode(WireError::UnknownVariant)),
        n > 1 ==> decoded(2, varint(n as nat) + rest) == Err::<FrameView, MessageError>(
            MessageError::Decode(WireError::UnknownVariant),
        ),
{
    let none = Seq::<u8>::empty();
    assert(varint(n as nat) + none =~= varint(n as nat));
    lemma_u32_field(n, none);
    lemma_u32_field(n, rest);
    lemma_u32_field(pointer_id, varint(n as nat) + rest);
}

} // verus!
