//! What the errors say to a user.

pub mod frames;

use vstd::prelude::*;
use crate::android_client::decode::DecodeError;
use crate::cg_virtual_display::config::VirtualDisplayError;
use crate::io::IoError;
use crate::macos_host::aoa::AoaError;
use crate::macos_host::session::{ClockSyncError, SessionError};
use crate::macos_host::transport::EchoError;
use crate::protocol::messages::{MessageError, NegotiationError, WireError};
use crate::protocol::nal::AccessUnitError;
use crate::text::decimal;
use crate::text::{chars_of, debug_form, debug_text, push_decimal, push_text, string_of};
use self::frames::plain_frame_form;
use self::frames::plain_frame_text;
use crate::xtask::logic::{strings_view, UsageError, UsageErrorView};

verus! {

/// One text behind another.
fn both(a: &str, b: &str) -> (r: String)
    ensures
        r@ == a@ + b@,
{
    let mut out: Vec<char> = chars_of(a);
    push_text(&mut out, b);
    string_of(&out)
}

impl IoError {
    /// The kind of error, without the details.
    pub open spec fn kind_of(self) -> IoError {
        match self {
            IoError::PayloadTooLong => IoError::InvalidInput,
            IoError::FrameTooLong | IoError::UnexpectedReply(_) | IoError::UnexpectedOffer(_) => {
                IoError::InvalidData
            },
            e => e,
        }
    }

    /// The kind of error, without the details: what is too long to be sent is a wrong argument, and
    /// a frame that may not come is invalid data.
    pub fn kind(&self) -> (r: IoError)
        ensures
            r == self.kind_of(),
    {
        match self {
            IoError::PayloadTooLong => IoError::InvalidInput,
            IoError::FrameTooLong | IoError::UnexpectedReply(_) | IoError::UnexpectedOffer(_) => {
                IoError::InvalidData
            },
            IoError::UnexpectedEof => IoError::UnexpectedEof,
            IoError::InvalidData => IoError::InvalidData,
            IoError::InvalidInput => IoError::InvalidInput,
            IoError::WriteZero => IoError::WriteZero,
            IoError::BrokenPipe => IoError::BrokenPipe,
            IoError::ConnectionReset => IoError::ConnectionReset,
            IoError::TimedOut => IoError::TimedOut,
            IoError::NotFound => IoError::NotFound,
            IoError::Unsupported => IoError::Unsupported,
            IoError::Other => IoError::Other,
        }
    }

    /// What the error says.
    pub open spec fn text_of(self) -> Seq<char> {
        match self {
            IoError::UnexpectedEof => "failed to fill whole buffer"@,
            IoError::InvalidData => "invalid data"@,
            IoError::InvalidInput => "invalid input parameter"@,
            IoError::WriteZero => "failed to write whole buffer"@,
            IoError::BrokenPipe => "broken pipe"@,
            IoError::ConnectionReset => "connection reset"@,
            IoError::TimedOut => "timed out"@,
            IoError::PayloadTooLong => "frame payload exceeds MAX_FRAME_LEN"@,
            IoError::FrameTooLong => "frame length exceeds MAX_FRAME_LEN"@,
            IoError::UnexpectedReply(f) => "expected Handshake reply, got "@ + plain_frame_text(f@),
            IoError::UnexpectedOffer(f) => "expected Handshake as first frame, got "@
                + plain_frame_text(f@),
            IoError::NotFound => "entity not found"@,
            IoError::Unsupported => "unsupported"@,
            IoError::Other => "other error"@,
        }
    }

    /// What the error says. The coordinates of an unexpected touch are shown by their bit patterns.
    pub fn text(&self) -> (r: String)
        ensures
            r@ == self.text_of(),
    {
        match self {
            IoError::UnexpectedEof => "failed to fill whole buffer".to_owned(),
            IoError::InvalidData => "invalid data".to_owned(),
            IoError::InvalidInput => "invalid input parameter".to_owned(),
            IoError::WriteZero => "failed to write whole buffer".to_owned(),
            IoError::BrokenPipe => "broken pipe".to_owned(),
            IoError::ConnectionReset => "connection reset".to_owned(),
            IoError::TimedOut => "timed out".to_owned(),
            IoError::PayloadTooLong => "frame payload exceeds MAX_FRAME_LEN".to_owned(),
            IoError::FrameTooLong => "frame length exceeds MAX_FRAME_LEN".to_owned(),
            IoError::UnexpectedReply(f) => both(
                "expected Handshake reply, got ",
                plain_frame_form(f).as_str(),
            ),
            IoError::UnexpectedOffer(f) => both(
                "expected Handshake as first frame, got ",
                plain_frame_form(f).as_str(),
            ),
            IoError::NotFound => "entity not found".to_owned(),
            IoError::Unsupported => "unsupported".to_owned(),
            IoError::Other => "other error".to_owned(),
        }
    }
}

impl WireError {
    /// What the error says.
    pub open spec fn text_of(self) -> Seq<char> {
        match self {
            WireError::UnexpectedEnd => "Hit the end of buffer, expected more data"@,
            WireError::BadVarint => {
                "Found a varint that didn't terminate. Is the usize too big for this platform?"@
            },
            WireError::UnknownVariant => "Serde Deserialization Error"@,
            WireError::Malformed => "The original data was not well encoded"@,
        }
    }

    /// What the error says.
    pub fn text(&self) -> (r: &'static str)
        ensures
            r@ == self.text_of(),
    {
        match self {
            WireError::UnexpectedEnd => "Hit the end of buffer, expected more data",
            WireError::BadVarint => {
                "Found a varint that didn't terminate. Is the usize too big for this platform?"
            },
            WireError::UnknownVariant => "Serde Deserialization Error",
            WireError::Malformed => "The original data was not well encoded",
        }
    }
}

impl MessageError {
    /// What the error says.
    pub open spec fn text_of(self) -> Seq<char> {
        match self {
            MessageError::UnknownTag(t) => "unknown frame tag: "@ + decimal(t as nat),
            MessageError::ShortVideoHeader => "video payload shorter than 9-byte header"@,
            MessageError::Encode(e) => "failed to serialize structured payload: "@ + e.text_of(),
            MessageError::Decode(e) => "failed to deserialize structured payload: "@ + e.text_of(),
            MessageError::TrailingBytes => "structured payload had trailing bytes after the value"@,
            MessageError::Io(e) => "framing I/O error: "@ + e.text_of(),
        }
    }

    /// What the error says.
    pub fn text(&self) -> (r: String)
        ensures
            r@ == self.text_of(),
    {
        match self {
            MessageError::UnknownTag(t) => {
                let mut out: Vec<char> = chars_of("unknown frame tag: ");
                push_decimal(&mut out, *t as u64);
                string_of(&out)
            },
            MessageError::ShortVideoHeader => "video payload shorter than 9-byte header".to_owned(),
            MessageError::Encode(e) => both("failed to serialize structured payload: ", e.text()),
            MessageError::Decode(e) => both("failed to deserialize structured payload: ", e.text()),
            MessageError::TrailingBytes => {
                "structured payload had trailing bytes after the value".to_owned()
            },
            MessageError::Io(e) => both("framing I/O error: ", e.text().as_str()),
        }
    }
}

/// A pair of numbers in round brackets.
pub open spec fn pair_text(pair: (u32, u32)) -> Seq<char> {
    "("@ + decimal(pair.0 as nat) + ", "@ + decimal(pair.1 as nat) + ")"@
}

fn pair_form(pair: (u32, u32)) -> (r: String)
    ensures
        r@ == pair_text(pair),
{
    let mut out: Vec<char> = chars_of("(");
    push_decimal(&mut out, pair.0 as u64);
    push_text(&mut out, ", ");
    push_decimal(&mut out, pair.1 as u64);
    push_text(&mut out, ")");
    string_of(&out)
}

impl NegotiationError {
    /// What the error says: the case it is, and the numbers that do not match.
    pub open spec fn text_of(self) -> Seq<char> {
        match self {
            NegotiationError::VersionMismatch { host, client } => "VersionMismatch { host: "@
                + decimal(host as nat) + ", client: "@ + decimal(client as nat) + " }"@,
            NegotiationError::NoCommonCodec => "NoCommonCodec"@,
            NegotiationError::ResolutionUnsupported { offered, client_max } => {
                "ResolutionUnsupported { offered: "@ + pair_text(offered) + ", client_max: "@
                    + pair_text(client_max) + " }"@
            },
        }
    }

    /// What the error says.
    pub fn text(&self) -> (r: String)
        ensures
            r@ == self.text_of(),
    {
        match self {
            NegotiationError::VersionMismatch { host, client } => {
                let mut out: Vec<char> = chars_of("VersionMismatch { host: ");
                push_decimal(&mut out, *host as u64);
                push_text(&mut out, ", client: ");
                push_decimal(&mut out, *client as u64);
                push_text(&mut out, " }");
                string_of(&out)
            },
            NegotiationError::NoCommonCodec => "NoCommonCodec".to_owned(),
            NegotiationError::ResolutionUnsupported { offered, client_max } => {
                let mut out: Vec<char> = chars_of("ResolutionUnsupported { offered: ");
                push_text(&mut out, pair_form(*offered).as_str());
                push_text(&mut out, ", client_max: ");
                push_text(&mut out, pair_form(*client_max).as_str());
                push_text(&mut out, " }");
                string_of(&out)
            },
        }
    }
}

impl SessionError {
    /// What the error says.
    pub open spec fn text_of(self) -> Seq<char> {
        match self {
            SessionError::Io(e) => "session I/O error: "@ + e.text_of(),
            SessionError::Message(e) => "session message error: "@ + e.text_of(),
            SessionError::Negotiation(e) => "session negotiation error: "@ + e.text_of(),
        }
    }

    /// What the error says.
    pub fn text(&self) -> (r: String)
        ensures
            r@ == self.text_of(),
    {
        match self {
            SessionError::Io(e) => both("session I/O error: ", e.text().as_str()),
            SessionError::Message(e) => both("session message error: ", e.text().as_str()),
            SessionError::Negotiation(e) => both("session negotiation error: ", e.text().as_str()),
        }
    }
}

impl ClockSyncError {
    /// What the error says.
    pub open spec fn text_of(self) -> Seq<char> {
        match self {
            ClockSyncError::UnexpectedReply => "clock-sync reply was not a ClockPong"@,
            ClockSyncError::Message(e) => "clock-sync I/O: "@ + e.text_of(),
        }
    }

    /// What the error says.
    pub fn text(&self) -> (r: String)
        ensures
            r@ == self.text_of(),
    {
        match self {
            ClockSyncError::UnexpectedReply => "clock-sync reply was not a ClockPong".to_owned(),
            ClockSyncError::Message(e) => both("clock-sync I/O: ", e.text().as_str()),
        }
    }
}

impl AccessUnitError {
    /// What the error says.
    pub open spec fn text_of(self) -> Seq<char> {
        match self {
            AccessUnitError::EmptyPayload => "empty payload"@,
        }
    }

    /// What the error says.
    pub fn text(&self) -> (r: &'static str)
        ensures
            r@ == self.text_of(),
    {
        match self {
            AccessUnitError::EmptyPayload => "empty payload",
        }
    }
}

impl DecodeError {
    /// What the error says.
    pub open spec fn text_of(self) -> Seq<char> {
        match self {
            DecodeError::NoConfig => "received a Video frame before any VideoConfig"@,
            DecodeError::AccessUnit(e) => "could not build access unit: "@ + e.text_of(),
            DecodeError::Adapter(message) => "decoder adapter error: "@ + message@,
        }
    }

    /// What the error says.
    pub fn text(&self) -> (r: String)
        ensures
            r@ == self.text_of(),
    {
        match self {
            DecodeError::NoConfig => "received a Video frame before any VideoConfig".to_owned(),
            DecodeError::AccessUnit(e) => both("could not build access unit: ", e.text()),
            DecodeError::Adapter(message) => both("decoder adapter error: ", message.as_str()),
        }
    }
}

impl crate::android_client::session::SessionError {
    /// What the error says.
    pub open spec fn text_of(self) -> Seq<char> {
        match self {
            Self::Io(e) => "transport I/O error: "@ + e.text_of(),
            Self::Message(e) => "protocol message error: "@ + e.text_of(),
            Self::Negotiation(e) => "handshake negotiation failed: "@ + e.text_of(),
            Self::Decode(e) => "decode error: "@ + e.text_of(),
        }
    }

    /// What the error says.
    pub fn text(&self) -> (r: String)
        ensures
            r@ == self.text_of(),
    {
        match self {
            Self::Io(e) => both("transport I/O error: ", e.text().as_str()),
            Self::Message(e) => both("protocol message error: ", e.text().as_str()),
            Self::Negotiation(e) => both("handshake negotiation failed: ", e.text().as_str()),
            Self::Decode(e) => both("decode error: ", e.text().as_str()),
        }
    }
}

impl EchoError {
    /// What the error says.
    pub open spec fn text_of(self) -> Seq<char> {
        match self {
            EchoError::Link(e) => e.text_of(),
            EchoError::Mismatch(offset) => "echo mismatch at byte offset "@ + decimal(
                offset as nat,
            ),
        }
    }

    /// What the error says.
    pub fn text(&self) -> (r: String)
        ensures
            r@ == self.text_of(),
    {
        match self {
            EchoError::Link(e) => e.text(),
            EchoError::Mismatch(offset) => {
                let mut out: Vec<char> = chars_of("echo mismatch at byte offset ");
                push_decimal(&mut out, *offset as u64);
                string_of(&out)
            },
        }
    }
}

/// What is said where there is no phone.
pub const NO_DEVICE: &'static str =
    "no Google/Pixel USB device found (looked for VID 0x18d1 or AOA PID 0x2d00..=0x2d05). Connect the Pixel via USB-C, unlock it, and ensure it is in file-transfer/MTP (not charge-only) mode.";

/// What is said where the phone did not come back.
pub const NOT_REACQUIRED: &'static str =
    "accessory-mode device did not re-enumerate within timeout (see the bus snapshots above \u{2014} if the phone reverted to its normal PID it rejected accessory mode; if it vanished it may need a replug)";

impl AoaError {
    /// What the error says.
    pub open spec fn text_of(self) -> Seq<char> {
        match self {
            AoaError::ShortReply => "AOA get-protocol returned < 2 bytes"@,
            AoaError::Unsupported => "device reports AOA protocol 0, need >= 1"@,
            AoaError::NoDevice => NO_DEVICE@,
            AoaError::NotReacquired => NOT_REACQUIRED@,
            AoaError::NoBulkIn => "no bulk IN endpoint"@,
            AoaError::NoBulkOut => "no bulk OUT endpoint"@,
        }
    }

    /// What the error says.
    pub fn text(&self) -> (r: &'static str)
        ensures
            r@ == self.text_of(),
    {
        match self {
            AoaError::ShortReply => "AOA get-protocol returned < 2 bytes",
            AoaError::Unsupported => "device reports AOA protocol 0, need >= 1",
            AoaError::NoDevice => NO_DEVICE,
            AoaError::NotReacquired => NOT_REACQUIRED,
            AoaError::NoBulkIn => "no bulk IN endpoint",
            AoaError::NoBulkOut => "no bulk OUT endpoint",
        }
    }
}

/// What is said where no display could be made.
pub const CREATION_FAILED: &'static str =
    "CGVirtualDisplay creation failed (private API unavailable or settings rejected)";

impl VirtualDisplayError {
    /// What the error says.
    pub fn text(&self) -> (r: &'static str)
        ensures
            r@ == match *self {
                VirtualDisplayError::CreationFailed => CREATION_FAILED@,
            },
    {
        match self {
            VirtualDisplayError::CreationFailed => CREATION_FAILED,
        }
    }
}

/// Some texts with commas between them.
pub open spec fn listed(items: Seq<Seq<char>>) -> Seq<char>
    decreases items.len(),
{
    if items.len() == 0 {
        Seq::empty()
    } else if items.len() == 1 {
        items[0]
    } else {
        listed(items.drop_last()) + ", "@ + items.last()
    }
}

/// Texts in their debug forms.
pub open spec fn debug_texts(items: Seq<Seq<char>>) -> Seq<Seq<char>> {
    Seq::new(items.len(), |i: int| debug_text(items[i]))
}

/// Append some texts with commas between them.
fn push_list(out: &mut Vec<char>, items: &Vec<String>)
    ensures
        final(out)@ == old(out)@ + listed(strings_view(items@)),
{
    let ghost all = strings_view(items@);
    let mut i: usize = 0;
    proof {
        assert(out@ =~= old(out)@ + listed(all.take(0)));
    }
    while i < items.len()
        invariant
            i <= items@.len(),
            all == strings_view(items@),
            out@ == old(out)@ + listed(all.take(i as int)),
        decreases items.len() - i,
    {
        if i > 0 {
            push_text(out, ", ");
        }
        push_text(out, items[i].as_str());
        proof {
            assert(all.take(i + 1).drop_last() =~= all.take(i as int));
            assert(all.take(i + 1).last() == items@[i as int]@);
            assert(out@ =~= old(out)@ + listed(all.take(i + 1)));
        }
        i += 1;
    }
    proof {
        assert(all.take(i as int) =~= all);
    }
}

/// What is said of a command that does not exist, given its name in quotes.
pub fn unknown_command_text(quoted: &str) -> (r: String)
    ensures
        r@ == "unknown command: "@ + quoted@ + " (run `cargo xtask help`)"@,
{
    let mut out: Vec<char> = chars_of("unknown command: ");
    push_text(&mut out, quoted);
    push_text(&mut out, " (run `cargo xtask help`)");
    string_of(&out)
}

/// What is said of arguments that `make-app` does not take, given each of them in quotes.
pub fn unexpected_arguments_text(quoted: &Vec<String>) -> (r: String)
    ensures
        r@ == "make-app: unexpected arguments: ["@ + listed(strings_view(quoted@)) + "]"@,
{
    let mut out: Vec<char> = chars_of("make-app: unexpected arguments: [");
    push_list(&mut out, quoted);
    push_text(&mut out, "]");
    string_of(&out)
}

impl UsageErrorView {
    /// What the error says.
    pub open spec fn text_of(self) -> Seq<char> {
        match self {
            UsageErrorView::UnknownCommand(name) => "unknown command: "@ + debug_text(name)
                + " (run `cargo xtask help`)"@,
            UsageErrorView::FeaturesWithoutValue => {
                "--features requires a value (e.g. --features live-capture,live-usb)"@
            },
            UsageErrorView::UnexpectedArguments(args) => "make-app: unexpected arguments: ["@
                + listed(debug_texts(args)) + "]"@,
        }
    }
}

impl UsageError {
    /// What the error says.
    pub fn text(&self) -> (r: String)
        ensures
            r@ == self@.text_of(),
    {
        match self {
            UsageError::UnknownCommand(name) => unknown_command_text(
                debug_form(name.as_str()).as_str(),
            ),
            UsageError::FeaturesWithoutValue => {
                "--features requires a value (e.g. --features live-capture,live-usb)".to_owned()
            },
            UsageError::UnexpectedArguments(args) => {
                let mut quoted: Vec<String> = Vec::new();
                let mut i: usize = 0;
                while i < args.len()
                    invariant
                        i <= args@.len(),
                        quoted@.len() == i,
                        forall|j: int|
                            0 <= j < i ==> (#[trigger] quoted@[j])@ == debug_text(args@[j]@),
                    decreases args.len() - i,
                {
                    quoted.push(debug_form(args[i].as_str()));
                    i += 1;
                }
                proof {
                    assert(strings_view(quoted@) =~= debug_texts(strings_view(args@)));
                }
                unexpected_arguments_text(&quoted)
            },
        }
    }
}

/// The error behind an error.
#[derive(Debug, PartialEq, Eq)]
pub enum Cause<'a> {
    Io(&'a IoError),
    Message(&'a MessageError),
    Decode(&'a DecodeError),
    AccessUnit(&'a AccessUnitError),
}

impl MessageError {
    /// The error behind this one: that of the framing layer or the link.
    pub fn source(&self) -> (r: Option<Cause<'_>>)
        ensures
            r == match self {
                MessageError::Io(e) => Some(Cause::Io(e)),
                _ => None,
            },
    {
        match self {
            MessageError::Io(e) => Some(Cause::Io(e)),
            _ => None,
        }
    }
}

impl SessionError {
    /// The error behind this one.
    pub fn source(&self) -> (r: Option<Cause<'_>>)
        ensures
            r == match self {
                SessionError::Io(e) => Some(Cause::Io(e)),
                SessionError::Message(e) => Some(Cause::Message(e)),
                SessionError::Negotiation(_) => None,
            },
    {
        match self {
            SessionError::Io(e) => Some(Cause::Io(e)),
            SessionError::Message(e) => Some(Cause::Message(e)),
            SessionError::Negotiation(_) => None,
        }
    }
}

impl DecodeError {
    /// The error behind this one.
    pub fn source(&self) -> (r: Option<Cause<'_>>)
        ensures
            r == match self {
                DecodeError::AccessUnit(e) => Some(Cause::AccessUnit(e)),
                _ => None,
            },
    {
        match self {
            DecodeError::AccessUnit(e) => Some(Cause::AccessUnit(e)),
            _ => None,
        }
    }
}

impl crate::android_client::session::SessionError {
    /// The error behind this one.
    pub fn source(&self) -> (r: Option<Cause<'_>>)
        ensures
            r == match self {
                Self::Io(e) => Some(Cause::Io(e)),
                Self::Message(e) => Some(Cause::Message(e)),
                Self::Decode(e) => Some(Cause::Decode(e)),
                Self::Negotiation(_) => None,
            },
    {
        match self {
            Self::Io(e) => Some(Cause::Io(e)),
            Self::Message(e) => Some(Cause::Message(e)),
            Self::Decode(e) => Some(Cause::Decode(e)),
            Self::Negotiation(_) => None,
        }
    }
}

/// A kind of error is its own kind. What is too long to be sent is a wrong argument of the sender,
/// and what may not be received is wrong data of the other side.
pub proof fn law_kinds_of_errors(e: IoError)
    ensures
        e.kind_of().kind_of() == e.kind_of(),
        IoError::PayloadTooLong.kind_of() == IoError::InvalidInput,
        IoError::FrameTooLong.kind_of() == IoError::InvalidData,
        e is UnexpectedReply || e is UnexpectedOffer ==> e.kind_of() == IoError::InvalidData,
        e is UnexpectedEof || e is TimedOut || e is WriteZero || e is BrokenPipe ==> e.kind_of() == e,
{
}

} // verus!
