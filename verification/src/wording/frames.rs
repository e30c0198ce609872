//! Frames in the words of an error: every field with its name, in one line.

use vstd::prelude::*;
use crate::protocol::messages::{Control, Frame, FrameView, Handshake, HandshakeView};
use crate::protocol::messages::{TouchEvent, TouchPhase, VideoCodec};
use crate::text::decimal;
use crate::text::{chars_of, push_decimal, push_text, string_of};

verus! {

/// Bytes as numbers, with commas between them.
pub open spec fn bytes_text(bytes: Seq<u8>) -> Seq<char>
    decreases bytes.len(),
{
    if bytes.len() == 0 {
        Seq::empty()
    } else if bytes.len() == 1 {
        decimal(bytes[0] as nat)
    } else {
        bytes_text(bytes.drop_last()) + ", "@ + decimal(bytes.last() as nat)
    }
}

fn push_bytes(out: &mut Vec<char>, bytes: &Vec<u8>)
    ensures
        final(out)@ == old(out)@ + bytes_text(bytes@),
{
    let ghost had = out@;
    let mut i: usize = 0;
    proof {
        assert(had + bytes_text(bytes@.take(0)) =~= had);
    }
    while i < bytes.len()
        invariant
            i <= bytes@.len(),
            out@ == had + bytes_text(bytes@.take(i as int)),
        decreases bytes.len() - i,
    {
        proof {
            assert(bytes@.take(i + 1).drop_last() =~= bytes@.take(i as int));
            assert(bytes@.take(i + 1).last() == bytes@[i as int]);
        }
        if i > 0 {
            push_text(out, ", ");
        }
        push_decimal(out, bytes[i] as u64);
        proof {
            assert(out@ =~= had + bytes_text(bytes@.take(i + 1)));
        }
        i = i + 1;
    }
    proof {
        assert(bytes@.take(i as int) =~= bytes@);
    }
}

/// The name of a codec.
pub open spec fn codec_text(codec: VideoCodec) -> Seq<char> {
    match codec {
        VideoCodec::H264 => "H264"@,
        VideoCodec::Hevc => "Hevc"@,
    }
}

fn codec_name(codec: VideoCodec) -> (r: &'static str)
    ensures
        r@ == codec_text(codec),
{
    match codec {
        VideoCodec::H264 => "H264",
        VideoCodec::Hevc => "Hevc",
    }
}

/// The names of codecs, with commas between them.
pub open spec fn codecs_text(codecs: Seq<VideoCodec>) -> Seq<char>
    decreases codecs.len(),
{
    if codecs.len() == 0 {
        Seq::empty()
    } else if codecs.len() == 1 {
        codec_text(codecs[0])
    } else {
        codecs_text(codecs.drop_last()) + ", "@ + codec_text(codecs.last())
    }
}

fn push_codecs(out: &mut Vec<char>, codecs: &Vec<VideoCodec>)
    ensures
        final(out)@ == old(out)@ + codecs_text(codecs@),
{
    let ghost had = out@;
    let mut i: usize = 0;
    proof {
        assert(had + codecs_text(codecs@.take(0)) =~= had);
    }
    while i < codecs.len()
        invariant
            i <= codecs@.len(),
            out@ == had + codecs_text(codecs@.take(i as int)),
        decreases codecs.len() - i,
    {
        proof {
            assert(codecs@.take(i + 1).drop_last() =~= codecs@.take(i as int));
            assert(codecs@.take(i + 1).last() == codecs@[i as int]);
        }
        if i > 0 {
            push_text(out, ", ");
        }
        push_text(out, codec_name(codecs[i]));
        proof {
            assert(out@ =~= had + codecs_text(codecs@.take(i + 1)));
        }
        i = i + 1;
    }
    proof {
        assert(codecs@.take(i as int) =~= codecs@);
    }
}

/// The name of a phase.
pub open spec fn phase_text(phase: TouchPhase) -> Seq<char> {
    match phase {
        TouchPhase::Down => "Down"@,
        TouchPhase::Move => "Move"@,
        TouchPhase::Up => "Up"@,
    }
}

fn phase_name(phase: TouchPhase) -> (r: &'static str)
    ensures
        r@ == phase_text(phase),
{
    match phase {
        TouchPhase::Down => "Down",
        TouchPhase::Move => "Move",
        TouchPhase::Up => "Up",
    }
}

/// The name of a control message.
pub open spec fn control_text(control: Control) -> Seq<char> {
    match control {
        Control::RequestKeyframe => "RequestKeyframe"@,
        Control::Pause => "Pause"@,
        Control::Resume => "Resume"@,
        Control::Bye => "Bye"@,
        Control::Heartbeat => "Heartbeat"@,
    }
}

fn control_name(control: Control) -> (r: &'static str)
    ensures
        r@ == control_text(control),
{
    match control {
        Control::RequestKeyframe => "RequestKeyframe",
        Control::Pause => "Pause",
        Control::Resume => "Resume",
        Control::Bye => "Bye",
        Control::Heartbeat => "Heartbeat",
    }
}

/// The word for a truth value.
pub open spec fn bool_text(b: bool) -> Seq<char> {
    if b {
        "true"@
    } else {
        "false"@
    }
}

/// A handshake, field by field.
pub open spec fn handshake_text(h: HandshakeView) -> Seq<char> {
    "Handshake(Handshake { protocol_version: "@ + decimal(h.protocol_version as nat) + ", width: "@
        + decimal(h.width as nat) + ", height: "@ + decimal(h.height as nat) + ", refresh_hz: "@
        + decimal(h.refresh_hz as nat) + ", codecs: ["@ + codecs_text(h.codecs) + "] })"@
}

fn handshake_form(h: &Handshake) -> (r: String)
    ensures
        r@ == handshake_text(h@),
{
    let mut out: Vec<char> = chars_of("Handshake(Handshake { protocol_version: ");
    push_decimal(&mut out, h.protocol_version as u64);
    push_text(&mut out, ", width: ");
    push_decimal(&mut out, h.width as u64);
    push_text(&mut out, ", height: ");
    push_decimal(&mut out, h.height as u64);
    push_text(&mut out, ", refresh_hz: ");
    push_decimal(&mut out, h.refresh_hz as u64);
    push_text(&mut out, ", codecs: [");
    push_codecs(&mut out, &h.codecs);
    push_text(&mut out, "] })");
    string_of(&out)
}

/// A touch, field by field, given its coordinates in words.
pub open spec fn touch_text(t: TouchEvent, nx: Seq<char>, ny: Seq<char>) -> Seq<char> {
    "Touch(TouchEvent { pointer_id: "@ + decimal(t.pointer_id as nat) + ", phase: "@ + phase_text(
        t.phase,
    ) + ", nx: "@ + nx + ", ny: "@ + ny + " })"@
}

fn touch_form(t: &TouchEvent, nx: &str, ny: &str) -> (r: String)
    ensures
        r@ == touch_text(*t, nx@, ny@),
{
    let mut out: Vec<char> = chars_of("Touch(TouchEvent { pointer_id: ");
    push_decimal(&mut out, t.pointer_id as u64);
    push_text(&mut out, ", phase: ");
    push_text(&mut out, phase_name(t.phase));
    push_text(&mut out, ", nx: ");
    push_text(&mut out, nx);
    push_text(&mut out, ", ny: ");
    push_text(&mut out, ny);
    push_text(&mut out, " })");
    string_of(&out)
}

/// A frame, field by field, given the coordinates of a touch in words.
pub open spec fn frame_text(f: FrameView, nx: Seq<char>, ny: Seq<char>) -> Seq<char> {
    match f {
        FrameView::Handshake(h) => handshake_text(h),
        FrameView::VideoConfig { codec, sps_pps } => "VideoConfig { codec: "@ + codec_text(codec)
            + ", sps_pps: ["@ + bytes_text(sps_pps) + "] }"@,
        FrameView::Video { pts_us, keyframe, nal } => "Video { pts_us: "@ + decimal(pts_us as nat)
            + ", keyframe: "@ + bool_text(keyframe) + ", nal: ["@ + bytes_text(nal) + "] }"@,
        FrameView::Touch(t) => touch_text(t, nx, ny),
        FrameView::Control(c) => "Control("@ + control_text(c) + ")"@,
        FrameView::ClockPing { t0_us } => "ClockPing { t0_us: "@ + decimal(t0_us as nat) + " }"@,
        FrameView::ClockPong { t0_us, t1_us, t2_us } => "ClockPong { t0_us: "@ + decimal(
            t0_us as nat,
        ) + ", t1_us: "@ + decimal(t1_us as nat) + ", t2_us: "@ + decimal(t2_us as nat) + " }"@,
        FrameView::Stats { pts_us, arrive_us, decode_us, present_us } => "Stats { pts_us: "@
            + decimal(pts_us as nat) + ", arrive_us: "@ + decimal(arrive_us as nat)
            + ", decode_us: "@ + decimal(decode_us as nat) + ", present_us: "@ + decimal(
            present_us as nat,
        ) + " }"@,
    }
}

/// A frame in words. The coordinates of a touch are floating-point numbers, whose words are given.
pub fn frame_form(f: &Frame, nx: &str, ny: &str) -> (r: String)
    ensures
        r@ == frame_text(f@, nx@, ny@),
{
    match f {
        Frame::Handshake(h) => handshake_form(h),
        Frame::VideoConfig { codec, sps_pps } => {
            let mut out: Vec<char> = chars_of("VideoConfig { codec: ");
            push_text(&mut out, codec_name(*codec));
            push_text(&mut out, ", sps_pps: [");
            push_bytes(&mut out, sps_pps);
            push_text(&mut out, "] }");
            string_of(&out)
        },
        Frame::Video { pts_us, keyframe, nal } => {
            let mut out: Vec<char> = chars_of("Video { pts_us: ");
            push_decimal(&mut out, *pts_us);
            push_text(&mut out, ", keyframe: ");
            if *keyframe {
                push_text(&mut out, "true");
            } else {
                push_text(&mut out, "false");
            }
            push_text(&mut out, ", nal: [");
            push_bytes(&mut out, nal);
            push_text(&mut out, "] }");
            string_of(&out)
        },
        Frame::Touch(t) => touch_form(t, nx, ny),
        Frame::Control(c) => {
            let mut out: Vec<char> = chars_of("Control(");
            push_text(&mut out, control_name(*c));
            push_text(&mut out, ")");
            string_of(&out)
        },
        Frame::ClockPing { t0_us } => {
            let mut out: Vec<char> = chars_of("ClockPing { t0_us: ");
            push_decimal(&mut out, *t0_us);
            push_text(&mut out, " }");
            string_of(&out)
        },
        Frame::ClockPong { t0_us, t1_us, t2_us } => {
            let mut out: Vec<char> = chars_of("ClockPong { t0_us: ");
            push_decimal(&mut out, *t0_us);
            push_text(&mut out, ", t1_us: ");
            push_decimal(&mut out, *t1_us);
            push_text(&mut out, ", t2_us: ");
            push_decimal(&mut out, *t2_us);
            push_text(&mut out, " }");
            string_of(&out)
        },
        Frame::Stats { pts_us, arrive_us, decode_us, present_us } => {
            let mut out: Vec<char> = chars_of("Stats { pts_us: ");
            push_decimal(&mut out, *pts_us);
            push_text(&mut out, ", arrive_us: ");
            push_decimal(&mut out, *arrive_us);
            push_text(&mut out, ", decode_us: ");
            push_decimal(&mut out, *decode_us);
            push_text(&mut out, ", present_us: ");
            push_decimal(&mut out, *present_us);
            push_text(&mut out, " }");
            string_of(&out)
        },
    }
}

/// The words for a coordinate whose value is not at hand: its bit pattern.
pub open spec fn bits_text(bits: u32) -> Seq<char> {
    "f32::from_bits("@ + decimal(bits as nat) + ")"@
}

fn bits_form(bits: u32) -> (r: String)
    ensures
        r@ == bits_text(bits),
{
    let mut out: Vec<char> = chars_of("f32::from_bits(");
    push_decimal(&mut out, bits as u64);
    push_text(&mut out, ")");
    string_of(&out)
}

/// A frame in words, with bit patterns for the coordinates of a touch.
pub open spec fn plain_frame_text(f: FrameView) -> Seq<char> {
    match f {
        FrameView::Touch(t) => frame_text(f, bits_text(t.nx_bits), bits_text(t.ny_bits)),
        _ => frame_text(f, Seq::empty(), Seq::empty()),
    }
}

/// A frame in words, with bit patterns for the coordinates of a touch.
pub fn plain_frame_form(f: &Frame) -> (r: String)
    ensures
        r@ == plain_frame_text(f@),
{
    match f {
        Frame::Touch(t) => touch_form(
            t,
            bits_form(t.nx_bits).as_str(),
            bits_form(t.ny_bits).as_str(),
        ),
        _ => frame_form(f, "", ""),
    }
}

} // verus!
