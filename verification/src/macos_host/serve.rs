//! What the live host decides: pacing the encoder, building access units, routing what the phone
//! sends, and keeping the display across connections.

use vstd::prelude::*;
use crate::count::{add_count, capped_count};
use crate::io::IoError;
use crate::protocol::clock::{estimate, ClockOffset};
use crate::protocol::clock::estimate_of;
use crate::protocol::messages::{Control, Frame, MessageError};
use crate::protocol::nal::is_keyframe;
use crate::protocol::nal::{annex_b, has_idr, nal_units, no_marker};
use crate::protocol::nal::{law_annex_b_round_trip, law_keyframes_hold_a_refresh};
use super::encode::{EncodedFrame, EncodedView};
use super::encode_vt::{avcc_to_annex_b, to_annex_b_frame};
use super::encode_vt::{avcc_of, avcc_room, avcc_units, law_walk_inverts_framing};

verus! {

/// The geometry and the refresh rate of the host.
#[derive(Clone, Copy, Debug, PartialEq, Eq, Structural)]
pub struct HostOpts {
    pub width: usize,
    pub height: usize,
    pub fps: u32,
}

impl Default for HostOpts {
    /// 2400 by 1080 pixels, 60 times a second.
    fn default() -> (r: Self)
        ensures
            r == (HostOpts { width: 2400, height: 1080, fps: 60 }),
    {
        HostOpts { width: 2400, height: 1080, fps: 60 }
    }
}

/// How many frames may be with the encoder at a time.
pub const MAX_IN_FLIGHT_ENCODES: u32 = 2;

/// The distance between two presentation times, in microseconds.
pub const FRAME_STEP_US: u64 = 16666;

/// The average bit rate that the encoder is held to, in bits per second.
pub const AVERAGE_BIT_RATE: i32 = 20000000;

/// How many encoded frames wait for the sender at most.
pub const ENCODED_QUEUE_DEPTH: usize = 2;

/// How many frames the host remembers while their reports are on the way.
pub const RETAINED_FRAMES: usize = 256;

/// What happens around the encoder.
#[derive(Clone, Copy, Debug, PartialEq, Eq, Structural)]
pub enum PacerEvent {
    /// A frame was captured.
    Captured,
    /// The encoder is done with a frame it had accepted, well or badly.
    Encoded,
    /// The encoder did not accept a frame.
    SubmitFailed,
    /// An encoded frame was dropped, as the sender is behind.
    QueueFull,
    /// The phone, or a new connection, needs a keyframe.
    KeyframeNeeded,
}

/// A captured frame that goes to the encoder.
#[derive(Clone, Copy, Debug, PartialEq, Eq, Structural)]
pub struct Submission {
    /// The number of the frame.
    pub index: u64,
    /// Its presentation time in microseconds.
    pub pts_us: u64,
    /// Whether it has to become a keyframe.
    pub force_keyframe: bool,
}

/// `a` times the frame step, or the largest time there is where that is smaller.
pub open spec fn pts_of(index: u64) -> u64 {
    if index * FRAME_STEP_US > u64::MAX {
        u64::MAX
    } else {
        (index * FRAME_STEP_US) as u64
    }
}

/// Keeps the encoder from queueing: a frame that is captured while it is busy is shed before it
/// gets there, which needs no keyframe afterwards. A frame that is dropped behind the encoder
/// does, as the frames after it refer to it.
#[derive(Clone, Copy, Debug, PartialEq, Eq, Structural)]
pub struct EncodePacer {
    /// Frames that are with the encoder.
    pub in_flight: u32,
    /// Frames that were shed before the encoder.
    pub dropped: u64,
    /// Frames that were dropped behind the encoder.
    pub shed_post_encode: u64,
    /// Whether the next frame has to become a keyframe.
    pub needs_keyframe: bool,
    /// The number of the next frame.
    pub next_index: u64,
}

impl EncodePacer {
    /// An idle encoder.
    pub open spec fn idle() -> EncodePacer {
        EncodePacer {
            in_flight: 0,
            dropped: 0,
            shed_post_encode: 0,
            needs_keyframe: false,
            next_index: 0,
        }
    }

    /// Whether a frame that is captured now goes to the encoder.
    pub open spec fn accepts(self) -> bool {
        self.in_flight < MAX_IN_FLIGHT_ENCODES
    }

    /// What a frame that is captured now is submitted as, if it is.
    pub open spec fn submission(self) -> Option<Submission> {
        if self.accepts() {
            Some(
                Submission {
                    index: self.next_index,
                    pts_us: pts_of(self.next_index),
                    force_keyframe: self.needs_keyframe,
                },
            )
        } else {
            None
        }
    }

    /// What an event leaves behind.
    pub open spec fn after(self, event: PacerEvent) -> EncodePacer {
        match event {
            PacerEvent::Captured => if self.accepts() {
                EncodePacer {
                    in_flight: (self.in_flight + 1) as u32,
                    needs_keyframe: false,
                    next_index: if self.next_index == u64::MAX {
                        0
                    } else {
                        (self.next_index + 1) as u64
                    },
                    ..self
                }
            } else {
                EncodePacer { dropped: capped_count(self.dropped, 1), ..self }
            },
            PacerEvent::Encoded | PacerEvent::SubmitFailed => EncodePacer {
                in_flight: if self.in_flight > 0 {
                    (self.in_flight - 1) as u32
                } else {
                    0
                },
                ..self
            },
            PacerEvent::QueueFull => EncodePacer {
                shed_post_encode: capped_count(self.shed_post_encode, 1),
                needs_keyframe: true,
                ..self
            },
            PacerEvent::KeyframeNeeded => EncodePacer { needs_keyframe: true, ..self },
        }
    }

    /// An idle encoder.
    pub fn new() -> (r: Self)
        ensures
            r == EncodePacer::idle(),
    {
        EncodePacer {
            in_flight: 0,
            dropped: 0,
            shed_post_encode: 0,
            needs_keyframe: false,
            next_index: 0,
        }
    }

    /// Decide about a captured frame: `None` sheds it.
    pub fn on_captured(&mut self) -> (r: Option<Submission>)
        ensures
            *final(self) == old(self).after(PacerEvent::Captured),
            r == old(self).submission(),
    {
        if self.in_flight >= MAX_IN_FLIGHT_ENCODES {
            self.dropped = add_count(self.dropped, 1);
            return None;
        }
        self.in_flight = self.in_flight + 1;
        let index: u64 = self.next_index;
        self.next_index = index.wrapping_add(1);
        let force_keyframe: bool = self.needs_keyframe;
        self.needs_keyframe = false;
        let pts_us: u64 = match index.checked_mul(FRAME_STEP_US) {
            Some(pts_us) => pts_us,
            None => u64::MAX,
        };
        Some(Submission { index, pts_us, force_keyframe })
    }

    /// Take note that the encoder is done with a frame.
    pub fn on_encoded(&mut self)
        ensures
            *final(self) == old(self).after(PacerEvent::Encoded),
    {
        self.in_flight = self.in_flight.saturating_sub(1);
    }

    /// Take note that the encoder did not accept a frame.
    pub fn on_submit_failed(&mut self)
        ensures
            *final(self) == old(self).after(PacerEvent::SubmitFailed),
    {
        self.in_flight = self.in_flight.saturating_sub(1);
    }

    /// Take note that an encoded frame was dropped.
    pub fn on_queue_full(&mut self)
        ensures
            *final(self) == old(self).after(PacerEvent::QueueFull),
    {
        self.shed_post_encode = add_count(self.shed_post_encode, 1);
        self.needs_keyframe = true;
    }

    /// Ask for a keyframe.
    pub fn request_keyframe(&mut self)
        ensures
            *final(self) == old(self).after(PacerEvent::KeyframeNeeded),
    {
        self.needs_keyframe = true;
    }
}

/// The pacer after a run of events.
pub open spec fn paced(start: EncodePacer, events: Seq<PacerEvent>) -> EncodePacer
    decreases events.len(),
{
    if events.len() == 0 {
        start
    } else {
        paced(start, events.drop_last()).after(events.last())
    }
}

/// How many of the frames that were captured in a run of events went to the encoder.
pub open spec fn submitted(start: EncodePacer, events: Seq<PacerEvent>) -> nat
    decreases events.len(),
{
    if events.len() == 0 {
        0
    } else {
        let before = submitted(start, events.drop_last());
        if events.last() == PacerEvent::Captured && paced(start, events.drop_last()).accepts() {
            before + 1
        } else {
            before
        }
    }
}

/// How many frames the encoder was done with, or did not accept, in a run of events.
pub open spec fn returned(events: Seq<PacerEvent>) -> nat
    decreases events.len(),
{
    if events.len() == 0 {
        0
    } else {
        let before = returned(events.drop_last());
        if events.last() == PacerEvent::Encoded || events.last() == PacerEvent::SubmitFailed {
            before + 1
        } else {
            before
        }
    }
}

/// Whether the encoder never returned more frames than it had been given.
pub open spec fn orderly(start: EncodePacer, events: Seq<PacerEvent>) -> bool
    decreases events.len(),
{
    events.len() == 0 || {
        &&& orderly(start, events.drop_last())
        &&& returned(events) <= submitted(start, events)
    }
}

/// No more frames are with the encoder than there may be, and as long as it returns only what it
/// was given, the count of them is exact: it never leaks.
pub proof fn law_depth_is_bounded_and_exact(events: Seq<PacerEvent>)
    ensures
        paced(EncodePacer::idle(), events).in_flight <= MAX_IN_FLIGHT_ENCODES,
        orderly(EncodePacer::idle(), events) ==> paced(EncodePacer::idle(), events).in_flight
            == submitted(EncodePacer::idle(), events) - returned(events),
    decreases events.len(),
{
    if events.len() > 0 {
        law_depth_is_bounded_and_exact(events.drop_last());
    }
}

/// Once an encoded frame has been dropped, or a keyframe has been asked for, the next frame that
/// goes to the encoder becomes one, whatever happens in between.
pub proof fn law_keyframe_follows_a_gap(start: EncodePacer, gap: PacerEvent, events: Seq<PacerEvent>)
    requires
        gap == PacerEvent::QueueFull || gap == PacerEvent::KeyframeNeeded,
        submitted(start.after(gap), events) == 0,
    ensures
        ({
            let now = paced(start.after(gap), events);
            &&& now.needs_keyframe
            &&& now.accepts() ==> now.submission()->0.force_keyframe
        }),
    decreases events.len(),
{
    if events.len() > 0 {
        law_keyframe_follows_a_gap(start, gap, events.drop_last());
    }
}

/// A frame that is shed before the encoder leaves nothing to repair.
pub proof fn law_early_shedding_is_harmless(pacer: EncodePacer)
    requires
        !pacer.accepts(),
    ensures
        pacer.after(PacerEvent::Captured).needs_keyframe == pacer.needs_keyframe,
        pacer.after(PacerEvent::Captured).next_index == pacer.next_index,
{
}

/// The access unit of an encoder's output: a keyframe carries its parameter sets in front.
pub open spec fn unit_of(
    avcc: Seq<u8>,
    width: int,
    sps: Seq<u8>,
    pps: Seq<u8>,
    stamps: Submission,
    capture_us: u64,
    encode_micros: u64,
) -> EncodedView {
    let picture = avcc_units(avcc, width);
    let keyframe = has_idr(annex_b(picture));
    EncodedView {
        pts_us: stamps.pts_us,
        capture_us,
        keyframe,
        encode_micros,
        annex_b: annex_b(
            if keyframe {
                seq![sps, pps] + picture
            } else {
                picture
            },
        ),
    }
}

/// Build the access unit of an encoder's output.
pub fn encoded_frame(
    avcc: &[u8],
    nal_length_size: usize,
    sps: &[u8],
    pps: &[u8],
    stamps: &Submission,
    capture_us: u64,
    encode_micros: u64,
) -> (r: EncodedFrame)
    ensures
        r@ == unit_of(
            avcc@,
            nal_length_size as int,
            sps@,
            pps@,
            *stamps,
            capture_us,
            encode_micros,
        ),
{
    let picture: Vec<u8> = avcc_to_annex_b(avcc, nal_length_size);
    let keyframe: bool = is_keyframe(picture.as_slice());
    let annex_b: Vec<u8> = to_annex_b_frame(avcc, nal_length_size, keyframe, sps, pps);
    proof {
        let units = avcc_units(avcc@, nal_length_size as int);
        assert(Seq::<Seq<u8>>::empty() + units =~= units);
    }
    EncodedFrame { pts_us: stamps.pts_us, capture_us, keyframe, encode_micros, annex_b }
}

/// What the reader of a connection does about what arrived.
#[derive(Debug, PartialEq, Eq)]
pub enum Inbound {
    /// Hand the answer to the clock synchronisation.
    Pong(Frame),
    /// Hand the report to the stream.
    Stats(Frame),
    /// Make the next frame a keyframe.
    ForceKeyframe,
    /// Nothing.
    Ignore,
    /// Nothing arrived in time: look again.
    Retry,
    /// The phone is gone.
    Ended,
}

/// What the reader of a connection does about what arrived.
pub open spec fn inbound_of(arrived: Result<Frame, MessageError>) -> Inbound {
    match arrived {
        Ok(Frame::ClockPong { t0_us, t1_us, t2_us }) => Inbound::Pong(arrived->Ok_0),
        Ok(Frame::Stats { pts_us, arrive_us, decode_us, present_us }) => Inbound::Stats(
            arrived->Ok_0,
        ),
        Ok(Frame::Control(Control::RequestKeyframe)) => Inbound::ForceKeyframe,
        Ok(_) => Inbound::Ignore,
        Err(MessageError::Io(IoError::TimedOut)) => Inbound::Retry,
        Err(_) => Inbound::Ended,
    }
}

/// Decide what to do about what arrived.
pub fn route_inbound(arrived: Result<Frame, MessageError>) -> (r: Inbound)
    ensures
        r == inbound_of(arrived),
{
    match arrived {
        Ok(Frame::ClockPong { t0_us, t1_us, t2_us }) => Inbound::Pong(
            Frame::ClockPong { t0_us, t1_us, t2_us },
        ),
        Ok(Frame::Stats { pts_us, arrive_us, decode_us, present_us }) => Inbound::Stats(
            Frame::Stats { pts_us, arrive_us, decode_us, present_us },
        ),
        Ok(frame) => if super::session::forces_keyframe(&frame) {
            Inbound::ForceKeyframe
        } else {
            Inbound::Ignore
        },
        Err(MessageError::Io(IoError::TimedOut)) => Inbound::Retry,
        Err(_) => Inbound::Ended,
    }
}

/// The clock offset that a reply to the ping of `t0` gives, with the time of its arrival.
pub open spec fn offset_from(t0: u64, reply: Option<(Frame, u64)>) -> Option<ClockOffset> {
    match reply {
        Some((Frame::ClockPong { t0_us, t1_us, t2_us }, t3)) => Some(
            estimate_of(t0, t1_us, t2_us, t3),
        ),
        _ => None,
    }
}

/// The clock offset of a connection: `reply` is what came back to the ping of `t0` within the time
/// for it, with the time of its arrival. Without an answer there is no offset, and the stream goes
/// on without glass-to-glass figures.
pub fn offset_of_reply(t0: u64, reply: &Option<(Frame, u64)>) -> (r: Option<ClockOffset>)
    ensures
        r == offset_from(t0, *reply),
{
    match reply {
        Some((Frame::ClockPong { t0_us: _, t1_us, t2_us }, t3)) => Some(
            estimate(t0, *t1_us, *t2_us, *t3),
        ),
        _ => None,
    }
}

/// How a connection ended.
#[derive(Clone, Copy, Debug, PartialEq, Eq, Structural)]
pub enum ConnEnd {
    /// The host is to stop.
    Stopped,
    /// The phone went away: wait for it again.
    Disconnected,
}

/// What the end of a connection means.
pub open spec fn end_of(stop_requested: bool) -> ConnEnd {
    if stop_requested {
        ConnEnd::Stopped
    } else {
        ConnEnd::Disconnected
    }
}

/// Classify the end of a connection: only a request to stop ends the host, however the stream
/// ended.
pub fn classify_connection_end(stop_requested: bool) -> (r: ConnEnd)
    ensures
        r == end_of(stop_requested),
{
    if stop_requested {
        ConnEnd::Stopped
    } else {
        ConnEnd::Disconnected
    }
}

/// The last words of the host on a connection.
pub open spec fn last_words(stop_requested: bool) -> Option<Frame> {
    if stop_requested {
        Some(Frame::Control(Control::Bye))
    } else {
        None
    }
}

/// What the host says before it takes a connection down: goodbye if it is to stop, which closes the
/// application on the phone, and nothing otherwise.
pub fn farewell(stop_requested: bool) -> (r: Option<Frame>)
    ensures
        r == last_words(stop_requested),
{
    if stop_requested {
        Some(Frame::Control(Control::Bye))
    } else {
        None
    }
}

/// What the host does next, once its display and its capture are up.
#[derive(Clone, Copy, Debug, PartialEq, Eq, Structural)]
pub enum HostStep {
    /// Look for the phone and open the link.
    BringUp,
    /// Wait a moment before looking again.
    Pause,
    /// Ask for a keyframe and drop the frames of the time without a phone.
    Prepare,
    /// Agree on a configuration.
    Handshake,
    /// Estimate the clock offset.
    ClockSync,
    /// Stream until the phone goes away or the host is to stop.
    Stream,
    /// Take the connection down.
    Close,
    /// Stop the capture and remove the display.
    TearDown,
}

impl HostStep {
    /// The first step.
    pub open spec fn first_of(stop: bool) -> HostStep {
        if stop {
            HostStep::TearDown
        } else {
            HostStep::BringUp
        }
    }

    /// The step after one that went well or not, when the host is to stop or not.
    pub open spec fn after_of(self, ok: bool, stop: bool) -> HostStep {
        match self {
            HostStep::BringUp => if ok {
                HostStep::Prepare
            } else {
                HostStep::Pause
            },
            HostStep::Pause => HostStep::first_of(stop),
            HostStep::Prepare => HostStep::Handshake,
            HostStep::Handshake => if ok {
                HostStep::ClockSync
            } else {
                HostStep::first_of(stop)
            },
            HostStep::ClockSync => HostStep::Stream,
            HostStep::Stream => HostStep::Close,
            HostStep::Close => HostStep::first_of(stop),
            HostStep::TearDown => HostStep::TearDown,
        }
    }

    /// The first step.
    pub fn first(stop: bool) -> (r: HostStep)
        ensures
            r == HostStep::first_of(stop),
    {
        if stop {
            HostStep::TearDown
        } else {
            HostStep::BringUp
        }
    }

    /// Decide about the step after one that went well or not. A handshake that fails is taken as a
    /// phone that went away; a clock synchronisation that fails is done without.
    pub fn after(self, ok: bool, stop: bool) -> (r: HostStep)
        ensures
            r == self.after_of(ok, stop),
    {
        match self {
            HostStep::BringUp => if ok {
                HostStep::Prepare
            } else {
                HostStep::Pause
            },
            HostStep::Prepare => HostStep::Handshake,
            HostStep::Handshake => if ok {
                HostStep::ClockSync
            } else {
                HostStep::first(stop)
            },
            HostStep::ClockSync => HostStep::Stream,
            HostStep::Stream => HostStep::Close,
            HostStep::TearDown => HostStep::TearDown,
            HostStep::Pause | HostStep::Close => match classify_connection_end(stop) {
                ConnEnd::Stopped => HostStep::TearDown,
                ConnEnd::Disconnected => HostStep::BringUp,
            },
        }
    }
}

/// The display is removed only when the host is to stop: no failure and no disconnect does it.
pub proof fn law_display_outlives_disconnects(step: HostStep, ok: bool, stop: bool)
    requires
        step != HostStep::TearDown,
    ensures
        step.after_of(ok, stop) == HostStep::TearDown ==> stop,
        !stop ==> step.after_of(ok, stop) != HostStep::TearDown,
{
}

/// A stream starts only on a prepared connection whose handshake succeeded, and is always followed
/// by taking the connection down.
pub proof fn law_streams_are_prepared_and_closed(step: HostStep, ok: bool, stop: bool)
    ensures
        step.after_of(ok, stop) == HostStep::Stream ==> step == HostStep::ClockSync,
        step.after_of(ok, stop) == HostStep::ClockSync ==> step == HostStep::Handshake && ok,
        step.after_of(ok, stop) == HostStep::Handshake ==> step == HostStep::Prepare,
        step == HostStep::Stream ==> step.after_of(ok, stop) == HostStep::Close,
{
}

/// The presentation times of the frames that went to the encoder in a run of events, in their
/// order.
pub open spec fn times_of(start: EncodePacer, events: Seq<PacerEvent>) -> Seq<u64>
    decreases events.len(),
{
    if events.len() == 0 {
        Seq::empty()
    } else {
        let before = times_of(start, events.drop_last());
        let now = paced(start, events.drop_last());
        if events.last() == PacerEvent::Captured && now.submission() is Some {
            before.push(now.submission()->0.pts_us)
        } else {
            before
        }
    }
}

/// What happens without a frame going to the encoder leaves the number of the next one as it is.
proof fn lemma_number_waits(start: EncodePacer, events: Seq<PacerEvent>)
    requires
        submitted(start, events) == 0,
    ensures
        paced(start, events).next_index == start.next_index,
    decreases events.len(),
{
    if events.len() > 0 {
        lemma_number_waits(start, events.drop_last());
    }
}

/// Frames are evenly timed: of two frames that go to the encoder one after the other, whatever
/// happens in between, the later one's time exceeds the earlier one's by exactly one frame step, as
/// long as that is a time, and its number is the next one; beyond that it stays at the largest time
/// there is, until the numbers begin anew. The first frame of all has the time
/// zero. Sixty steps make a second, as closely as whole microseconds can.
pub proof fn law_frames_are_evenly_timed(
    pacer: EncodePacer,
    between: Seq<PacerEvent>,
    before: Seq<PacerEvent>,
)
    requires
        pacer.accepts(),
        submitted(pacer.after(PacerEvent::Captured), between) == 0,
        paced(pacer.after(PacerEvent::Captured), between).accepts(),
        submitted(EncodePacer::idle(), before) == 0,
    ensures
        ({
            let earlier = pacer.submission();
            let later = paced(pacer.after(PacerEvent::Captured), between).submission();
            &&& earlier is Some
            &&& later is Some
            &&& earlier->0.pts_us + FRAME_STEP_US <= u64::MAX ==> {
                &&& later->0.pts_us == earlier->0.pts_us + FRAME_STEP_US
                &&& later->0.pts_us > earlier->0.pts_us
                &&& later->0.index == earlier->0.index + 1
            }
            &&& earlier->0.pts_us + FRAME_STEP_US > u64::MAX && earlier->0.index < u64::MAX
                ==> later->0.pts_us == u64::MAX
            &&& earlier->0.index == u64::MAX ==> later->0.index == 0 && later->0.pts_us == 0
        }),
        paced(EncodePacer::idle(), before).submission() matches Some(first) ==> first.pts_us == 0
            && first.index == 0,
        60 * FRAME_STEP_US <= 1_000_000 < 60 * (FRAME_STEP_US + 1),
{
    lemma_number_waits(pacer.after(PacerEvent::Captured), between);
    lemma_number_waits(EncodePacer::idle(), before);
}

/// The times of a run of frames ascend strictly from zero, step by step, as long as a step is a
/// time.
pub proof fn law_times_ascend(events: Seq<PacerEvent>)
    requires
        submitted(EncodePacer::idle(), events) * FRAME_STEP_US <= u64::MAX,
    ensures
        ({
            let times = times_of(EncodePacer::idle(), events);
            &&& times.len() == submitted(EncodePacer::idle(), events)
            &&& times.len() > 0 ==> times[0] == 0
            &&& forall|i: int|
                1 <= i < times.len() ==> #[trigger] times[i] == times[i - 1] + FRAME_STEP_US
            &&& forall|i: int, j: int|
                0 <= i < j < times.len() ==> #[trigger] times[i] < #[trigger] times[j]
        }),
{
    lemma_times(events);
    let times = times_of(EncodePacer::idle(), events);
    assert forall|i: int| 1 <= i < times.len() implies #[trigger] times[i] == times[i - 1]
        + FRAME_STEP_US by {
        assert(times[i - 1] == (i - 1) * FRAME_STEP_US);
    }
}

proof fn lemma_times(events: Seq<PacerEvent>)
    requires
        submitted(EncodePacer::idle(), events) * FRAME_STEP_US <= u64::MAX,
    ensures
        ({
            let times = times_of(EncodePacer::idle(), events);
            &&& times.len() == submitted(EncodePacer::idle(), events)
            &&& paced(EncodePacer::idle(), events).next_index == times.len()
            &&& forall|i: int| 0 <= i < times.len() ==> #[trigger] times[i] == i * FRAME_STEP_US
        }),
    decreases events.len(),
{
    if events.len() > 0 {
        lemma_times(events.drop_last());
    }
}

/// Nothing gets lost: of the frames that are captured, each goes to the encoder or is counted as
/// shed before it, and each that is dropped behind the encoder is counted as that.
pub proof fn law_every_frame_is_accounted_for(start: EncodePacer, events: Seq<PacerEvent>)
    requires
        start.dropped + events.len() <= u64::MAX,
        start.shed_post_encode + events.len() <= u64::MAX,
    ensures
        ({
            let now = paced(start, events);
            let captured = events.filter(|e: PacerEvent| e == PacerEvent::Captured).len();
            let full = events.filter(|e: PacerEvent| e == PacerEvent::QueueFull).len();
            &&& captured == submitted(start, events) + (now.dropped - start.dropped)
            &&& full == now.shed_post_encode - start.shed_post_encode
        }),
    decreases events.len(),
{
    reveal(Seq::filter);
    if events.len() > 0 {
        law_every_frame_is_accounted_for(start, events.drop_last());
    }
}

/// A frame goes to the encoder as long as fewer than two are with it. It becomes a keyframe exactly
/// if one was asked for since the last frame went there.
pub proof fn law_keyframes_are_made_on_demand(start: EncodePacer, events: Seq<PacerEvent>)
    requires
        start.accepts(),
        submitted(start.after(PacerEvent::Captured), events) == 0,
    ensures
        ({
            let now = paced(start.after(PacerEvent::Captured), events);
            &&& now.submission() is Some <==> now.in_flight < 2
            &&& now.submission() matches Some(s) ==> (s.force_keyframe <==> exists|i: int|
                0 <= i < events.len() && (#[trigger] events[i] == PacerEvent::QueueFull || events[i]
                    == PacerEvent::KeyframeNeeded))
        }),
{
    lemma_keyframe_wanted(start, events);
}

proof fn lemma_keyframe_wanted(start: EncodePacer, events: Seq<PacerEvent>)
    requires
        start.accepts(),
        submitted(start.after(PacerEvent::Captured), events) == 0,
    ensures
        paced(start.after(PacerEvent::Captured), events).needs_keyframe <==> exists|i: int|
            0 <= i < events.len() && (#[trigger] events[i] == PacerEvent::QueueFull || events[i]
                == PacerEvent::KeyframeNeeded),
    decreases events.len(),
{
    if events.len() > 0 {
        let front = events.drop_last();
        lemma_keyframe_wanted(start, front);
        let last = events[events.len() - 1];
        if paced(start.after(PacerEvent::Captured), front).needs_keyframe {
            let i = choose|i: int|
                0 <= i < front.len() && (#[trigger] front[i] == PacerEvent::QueueFull || front[i]
                    == PacerEvent::KeyframeNeeded);
            assert(events[i] == front[i]);
        } else {
            assert forall|i: int|
                0 <= i < events.len() && (#[trigger] events[i] == PacerEvent::QueueFull || events[i]
                    == PacerEvent::KeyframeNeeded) implies i == events.len() - 1 by {
                if i < events.len() - 1 {
                    assert(front[i] == events[i]);
                }
            }
        }
    }
}

/// An access unit is what the encoder was given and made: its time and stamps are those that went
/// in, and the units that the encoder wrote come back from it in their order, behind the parameter
/// sets where one of them is an instantaneous refresh picture (type 5), and alone where none is.
pub proof fn law_access_unit_is_what_was_encoded(
    units: Seq<Seq<u8>>,
    width: int,
    sps: Seq<u8>,
    pps: Seq<u8>,
    stamps: Submission,
    capture_us: u64,
    encode_micros: u64,
)
    requires
        1 <= width <= 4,
        forall|i: int|
            0 <= i < units.len() ==> 0 < (#[trigger] units[i]).len() < avcc_room(width),
        forall|i: int|
            0 <= i < units.len() ==> no_marker(#[trigger] units[i]) && units[i].last() != 0,
        sps.len() > 0 && no_marker(sps) && sps.last() != 0,
        pps.len() > 0 && no_marker(pps) && pps.last() != 0,
    ensures
        ({
            let unit = unit_of(
                avcc_of(units, width),
                width,
                sps,
                pps,
                stamps,
                capture_us,
                encode_micros,
            );
            let refresh = exists|i: int| 0 <= i < units.len() && (#[trigger] units[i])[0] % 32 == 5;
            &&& unit.pts_us == stamps.pts_us
            &&& unit.capture_us == capture_us
            &&& unit.encode_micros == encode_micros
            &&& unit.keyframe == refresh
            &&& nal_units(unit.annex_b) == if refresh {
                seq![sps, pps] + units
            } else {
                units
            }
        }),
{
    law_walk_inverts_framing(units, width);
    law_annex_b_round_trip(units);
    law_keyframes_hold_a_refresh(annex_b(units));
    let all = seq![sps, pps] + units;
    assert forall|i: int| 0 <= i < all.len() implies no_marker(#[trigger] all[i]) && all[i].len() > 0
        && all[i].last() != 0 by {
        if i >= 2 {
            assert(all[i] == units[i - 2]);
        }
    }
    law_annex_b_round_trip(all);
}

/// The host goes round: it looks for the phone until it is there, prepares, shakes hands,
/// synchronises the clocks, which may fail, streams, closes and looks again. A handshake that fails
/// has it look again. Once it is to stop, it tears down at the next of these turns, and stays down.
pub proof fn law_host_goes_round(ok: bool, stop: bool)
    ensures
        HostStep::first_of(false) == HostStep::BringUp,
        HostStep::first_of(true) == HostStep::TearDown,
        HostStep::BringUp.after_of(true, stop) == HostStep::Prepare,
        HostStep::BringUp.after_of(false, stop) == HostStep::Pause,
        HostStep::Pause.after_of(ok, false) == HostStep::BringUp,
        HostStep::Pause.after_of(ok, true) == HostStep::TearDown,
        HostStep::Prepare.after_of(ok, stop) == HostStep::Handshake,
        HostStep::Handshake.after_of(true, stop) == HostStep::ClockSync,
        HostStep::Handshake.after_of(false, false) == HostStep::BringUp,
        HostStep::Handshake.after_of(false, true) == HostStep::TearDown,
        HostStep::ClockSync.after_of(ok, stop) == HostStep::Stream,
        HostStep::Stream.after_of(ok, stop) == HostStep::Close,
        HostStep::Close.after_of(ok, false) == HostStep::BringUp,
        HostStep::Close.after_of(ok, true) == HostStep::TearDown,
        HostStep::TearDown.after_of(ok, stop) == HostStep::TearDown,
{
}

/// What arrives is handed to whom it concerns, as it came: an answer to a ping to the clock
/// synchronisation, a report to the stream. A request for a keyframe forces one, nothing in time is
/// tried again, any other frame is passed over, and any other error ends the connection.
pub proof fn law_inbound_goes_where_it_belongs(arrived: Result<Frame, MessageError>)
    ensures
        match inbound_of(arrived) {
            Inbound::Pong(f) => arrived == Ok::<Frame, MessageError>(f) && f is ClockPong,
            Inbound::Stats(f) => arrived == Ok::<Frame, MessageError>(f) && f is Stats,
            Inbound::ForceKeyframe => arrived == Ok::<Frame, MessageError>(
                Frame::Control(Control::RequestKeyframe),
            ),
            Inbound::Ignore => arrived matches Ok(f) && f !is ClockPong && f !is Stats && f
                != Frame::Control(Control::RequestKeyframe),
            Inbound::Retry => arrived == Err::<Frame, MessageError>(
                MessageError::Io(IoError::TimedOut),
            ),
            Inbound::Ended => arrived matches Err(e) && e != MessageError::Io(IoError::TimedOut),
        },
{
}

/// The offset of a connection is exact where the ping and its answer took equally long, by the
/// host's own sending time and whatever time the answer echoes. Without an answer, or with another
/// frame, there is none.
pub proof fn law_offset_of_a_fair_exchange(
    t0: u64,
    t0_us: u64,
    t1_us: u64,
    t2_us: u64,
    t3: u64,
    delay: int,
    ahead: int,
)
    requires
        delay >= 0,
        2 * delay <= u64::MAX,
        i64::MIN <= ahead <= i64::MAX,
        t1_us == t0 + delay + ahead,
        t3 == t2_us - ahead + delay,
    ensures
        offset_from(t0, Some((Frame::ClockPong { t0_us, t1_us, t2_us }, t3))) == Some(
            ClockOffset { offset_us: ahead as i64, rtt_us: (2 * delay) as u64 },
        ),
        offset_from(t0, None) is None,
        forall|f: Frame| f !is ClockPong ==> #[trigger] offset_from(t0, Some((f, t3))) is None,
{
    crate::protocol::clock::law_estimate_is_exact(t0, t1_us, t2_us, t3, delay, ahead);
}

/// The host says goodbye exactly if it is to stop, and only then is the end of a connection its own.
pub proof fn law_goodbye_only_on_stopping(stop_requested: bool)
    ensures
        stop_requested <==> last_words(stop_requested) == Some(Frame::Control(Control::Bye)),
        !stop_requested <==> last_words(stop_requested) is None,
        stop_requested <==> end_of(stop_requested) == ConnEnd::Stopped,
{
}

} // verus!
