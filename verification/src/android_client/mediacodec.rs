//! What driving a hardware decoder takes besides the calls to it: what to configure it with, how
//! long to wait for an input slot, and which of the decoded frames to show.

use vstd::prelude::*;
use crate::count::{add_count, capped_count};
use crate::protocol::messages::VideoCodec;
use crate::protocol::nal::{push_unit, CodecConfig};
use crate::protocol::nal::{annex_b, lemma_annex_b_two};

verus! {

/// How long to wait for a buffer, in microseconds.
pub const DEQUEUE_TIMEOUT_US: i64 = 10000;

/// How often to wait for an input slot before the decoder counts as stalled.
pub const MAX_INPUT_DEQUEUE_ATTEMPTS: u32 = 100;

/// The status of an output queue that has nothing ready.
pub const INFO_TRY_AGAIN_LATER: i64 = -1;

/// The status of an output queue whose format has changed.
pub const INFO_OUTPUT_FORMAT_CHANGED: i64 = -2;

/// The status of an output queue whose buffers have changed.
pub const INFO_OUTPUT_BUFFERS_CHANGED: i64 = -3;

/// Why the decoder is not configured.
#[derive(Clone, Copy, Debug, PartialEq, Eq, Structural)]
pub enum ConfigureRefusal {
    /// Only H.264 is decoded.
    UnsupportedCodec,
    /// The decoder is configured already, and its surface bound.
    Reconfigure,
    /// There is no surface to decode to.
    NoSurface,
}

/// Whether the decoder may be configured.
pub open spec fn configurable(codec: VideoCodec, configured: bool, has_surface: bool) -> Result<
    (),
    ConfigureRefusal,
> {
    if codec != VideoCodec::H264 {
        Err(ConfigureRefusal::UnsupportedCodec)
    } else if configured {
        Err(ConfigureRefusal::Reconfigure)
    } else if !has_surface {
        Err(ConfigureRefusal::NoSurface)
    } else {
        Ok(())
    }
}

/// Decide whether to configure the decoder.
pub fn check_configure(codec: VideoCodec, configured: bool, has_surface: bool) -> (r: Result<
    (),
    ConfigureRefusal,
>)
    ensures
        r == configurable(codec, configured, has_surface),
{
    match codec {
        VideoCodec::H264 => {},
        VideoCodec::Hevc => {
            return Err(ConfigureRefusal::UnsupportedCodec);
        },
    }
    if configured {
        return Err(ConfigureRefusal::Reconfigure);
    }
    if !has_surface {
        return Err(ConfigureRefusal::NoSurface);
    }
    Ok(())
}

/// The codec-specific data of a configuration: its parameter sets, each behind a start code.
pub fn csd0(config: &CodecConfig) -> (out: Vec<u8>)
    ensures
        out@ == annex_b(seq![config@.sps, config@.pps]),
{
    let mut out: Vec<u8> = Vec::new();
    push_unit(&mut out, config.sps.as_slice());
    push_unit(&mut out, config.pps.as_slice());
    proof {
        lemma_annex_b_two(config@.sps, config@.pps);
        assert(out@ =~= annex_b(seq![config@.sps, config@.pps]));
    }
    out
}

/// What to do about an input slot that was asked for.
#[derive(Clone, Copy, Debug, PartialEq, Eq, Structural)]
pub enum InputStep {
    /// Fill this slot.
    Fill(u64),
    /// There is none yet: show what is decoded, which makes room, and ask again.
    DrainAndRetry,
    /// There is none, and this was the last try: show what is decoded and give up.
    DrainAndStall,
}

/// The wait for an input slot.
#[derive(Clone, Copy, Debug, PartialEq, Eq, Structural)]
pub struct InputWait {
    pub attempts: u32,
}

impl InputWait {
    /// What the decoder's answer means for a wait, and the wait after it.
    pub open spec fn after_of(self, status: i64) -> (InputWait, InputStep) {
        if status >= 0 {
            (self, InputStep::Fill(status as u64))
        } else {
            (
                InputWait { attempts: (self.attempts + 1) as u32 },
                if self.attempts + 1 >= MAX_INPUT_DEQUEUE_ATTEMPTS {
                    InputStep::DrainAndStall
                } else {
                    InputStep::DrainAndRetry
                },
            )
        }
    }

    /// A wait that begins.
    pub fn new() -> (r: Self)
        ensures
            r.attempts == 0,
    {
        InputWait { attempts: 0 }
    }

    /// Decide what to do about the decoder's answer: a slot, or a number below zero.
    pub fn on_dequeue(&mut self, status: i64) -> (r: InputStep)
        requires
            old(self).attempts < MAX_INPUT_DEQUEUE_ATTEMPTS,
        ensures
            (*final(self), r) == old(self).after_of(status),
    {
        if status >= 0 {
            return InputStep::Fill(status as u64);
        }
        self.attempts = self.attempts + 1;
        if self.attempts >= MAX_INPUT_DEQUEUE_ATTEMPTS {
            InputStep::DrainAndStall
        } else {
            InputStep::DrainAndRetry
        }
    }
}

/// What to do with an input slot. Whatever it is, the slot goes back to the decoder, or it would
/// be lost to it.
#[derive(Clone, Copy, Debug, PartialEq, Eq, Structural)]
pub enum SlotUse {
    /// Copy the access unit into it and queue it.
    Queue,
    /// Queue it empty: the decoder has no memory behind it.
    ReturnMissing,
    /// Queue it empty: the access unit does not fit.
    ReturnTooSmall,
}

/// What to do with an input slot of a capacity, `None` standing for one without memory.
pub open spec fn slot_use_of(capacity: Option<usize>, unit_len: usize) -> SlotUse {
    match capacity {
        None => SlotUse::ReturnMissing,
        Some(capacity) => if unit_len > capacity {
            SlotUse::ReturnTooSmall
        } else {
            SlotUse::Queue
        },
    }
}

/// Decide what to do with an input slot of a capacity, `None` standing for one without memory.
pub fn use_slot(capacity: Option<usize>, unit_len: usize) -> (r: SlotUse)
    ensures
        r == slot_use_of(capacity, unit_len),
{
    match capacity {
        None => SlotUse::ReturnMissing,
        Some(capacity) => if unit_len > capacity {
            SlotUse::ReturnTooSmall
        } else {
            SlotUse::Queue
        },
    }
}

/// A decoded frame that is ready to be shown.
#[derive(Clone, Copy, Debug, PartialEq, Eq, Structural)]
pub struct ReadyOutput {
    /// The buffer it is in.
    pub index: u64,
    /// The presentation time it was submitted with.
    pub pts_us: u64,
    /// When it was decoded.
    pub decode_us: u64,
}

/// A frame that was shown.
#[derive(Clone, Copy, Debug, PartialEq, Eq, Structural)]
pub struct PresentedFrame {
    pub pts_us: u64,
    pub decode_us: u64,
    pub present_us: u64,
}

/// What to do after asking for an output buffer.
#[derive(Clone, Copy, Debug, PartialEq, Eq, Structural)]
pub enum DrainStep {
    /// Ask again.
    Again,
    /// Nothing more is ready.
    Done,
    /// The decoder answered what it should not.
    Failed(i64),
}

/// What the decoder's answer adds to the frames that are ready, and what to do next.
pub open spec fn drained(ready: Seq<ReadyOutput>, status: i64, pts_us: u64, now_us: u64) -> (
    Seq<ReadyOutput>,
    DrainStep,
) {
    if status >= 0 {
        (
            ready.push(ReadyOutput { index: status as u64, pts_us, decode_us: now_us }),
            DrainStep::Again,
        )
    } else if status == INFO_OUTPUT_FORMAT_CHANGED || status == INFO_OUTPUT_BUFFERS_CHANGED {
        (ready, DrainStep::Again)
    } else if status == INFO_TRY_AGAIN_LATER {
        (ready, DrainStep::Done)
    } else {
        (ready, DrainStep::Failed(status))
    }
}

/// How long to wait for the next buffer, in microseconds.
pub open spec fn timeout_of(ready: Seq<ReadyOutput>) -> i64 {
    if ready.len() == 0 {
        DEQUEUE_TIMEOUT_US
    } else {
        0
    }
}

/// What becomes of the frames that are ready: those to drop, and the one to show.
pub open spec fn shown(ready: Seq<ReadyOutput>) -> (Seq<ReadyOutput>, Option<ReadyOutput>) {
    if ready.len() == 0 {
        (ready, None)
    } else {
        (ready.drop_last(), Some(ready.last()))
    }
}

/// Collects the decoded frames that are ready now.
#[derive(Debug, PartialEq, Eq)]
pub struct OutputDrain {
    ready: Vec<ReadyOutput>,
}

impl View for OutputDrain {
    type V = Seq<ReadyOutput>;

    closed spec fn view(&self) -> Seq<ReadyOutput> {
        self.ready@
    }
}

impl OutputDrain {
    /// Nothing collected yet.
    pub fn new() -> (r: Self)
        ensures
            r@ == Seq::<ReadyOutput>::empty(),
    {
        OutputDrain { ready: Vec::new() }
    }

    /// How long to wait for the next buffer, in microseconds: only the first one is waited for.
    pub fn timeout_us(&self) -> (r: i64)
        ensures
            r == timeout_of(self@),
    {
        if self.ready.len() == 0 {
            DEQUEUE_TIMEOUT_US
        } else {
            0
        }
    }

    /// Take the decoder's answer: a buffer, with the presentation time it carries and the time of
    /// the answer, or a number below zero.
    pub fn on_dequeue(&mut self, status: i64, pts_us: u64, now_us: u64) -> (r: DrainStep)
        ensures
            (final(self)@, r) == drained(old(self)@, status, pts_us, now_us),
    {
        if status >= 0 {
            self.ready.push(ReadyOutput { index: status as u64, pts_us, decode_us: now_us });
            return DrainStep::Again;
        }
        if status == INFO_TRY_AGAIN_LATER {
            DrainStep::Done
        } else if status == INFO_OUTPUT_FORMAT_CHANGED || status == INFO_OUTPUT_BUFFERS_CHANGED {
            DrainStep::Again
        } else {
            DrainStep::Failed(status)
        }
    }

    /// Decide what to do with the frames: the newest one is shown, the others are dropped, oldest
    /// first.
    pub fn finish(self) -> (r: (Vec<ReadyOutput>, Option<ReadyOutput>))
        ensures
            (r.0@, r.1) == shown(self@),
    {
        let mut stale: Vec<ReadyOutput> = self.ready;
        let newest: Option<ReadyOutput> = stale.pop();
        proof {
            assert(stale@ =~= shown(self@).0);
        }
        (stale, newest)
    }
}

/// How many access units the decoder holds.
#[derive(Clone, Copy, Debug, PartialEq, Eq, Structural)]
pub struct CodecDepth {
    /// Access units that were queued.
    pub queued: u64,
    /// Frames that came out, shown or dropped.
    pub dequeued: u64,
}

impl CodecDepth {
    /// A decoder that holds nothing.
    pub fn new() -> (r: Self)
        ensures
            r == (CodecDepth { queued: 0, dequeued: 0 }),
    {
        CodecDepth { queued: 0, dequeued: 0 }
    }

    /// An access unit was queued.
    pub fn on_queued(&mut self)
        ensures
            *final(self) == (CodecDepth { queued: capped_count(old(self).queued, 1), ..*old(self) }),
    {
        self.queued = add_count(self.queued, 1);
    }

    /// Frames came out.
    pub fn on_dequeued(&mut self, frames: u64)
        ensures
            *final(self) == (CodecDepth {
                dequeued: capped_count(old(self).dequeued, frames),
                ..*old(self)
            }),
    {
        self.dequeued = add_count(self.dequeued, frames);
    }

    /// How many access units are inside.
    pub open spec fn depth(self) -> int {
        if self.queued > self.dequeued {
            self.queued - self.dequeued
        } else {
            0
        }
    }

    /// How many access units are inside.
    pub fn in_flight(&self) -> (r: u64)
        ensures
            r == self.depth(),
    {
        self.queued.saturating_sub(self.dequeued)
    }
}

/// A number, or the nearest one that fits.
pub open spec fn clamp_i64(n: int) -> int {
    if n > i64::MAX {
        i64::MAX as int
    } else if n < i64::MIN {
        i64::MIN as int
    } else {
        n
    }
}

/// A clock reading in nanoseconds.
pub open spec fn nanoseconds_of(seconds: i64, nanos: i64) -> int {
    clamp_i64(clamp_i64(seconds * 1000000000) + nanos)
}

/// A clock reading in nanoseconds.
pub fn nanoseconds(seconds: i64, nanos: i64) -> (r: i64)
    ensures
        r == nanoseconds_of(seconds, nanos),
{
    let whole: i128 = clamp_to_i64(seconds as i128 * 1000000000) as i128;
    clamp_to_i64(whole + nanos as i128)
}

fn clamp_to_i64(n: i128) -> (r: i64)
    ensures
        r == clamp_i64(n as int),
{
    if n > i64::MAX as i128 {
        i64::MAX
    } else if n < i64::MIN as i128 {
        i64::MIN
    } else {
        n as i64
    }
}

/// The decoder is configured once, for H.264, onto a surface; what is refused first is the codec,
/// then a second time, then a missing surface.
pub proof fn law_configured_once_onto_a_surface(
    codec: VideoCodec,
    configured: bool,
    has_surface: bool,
)
    ensures
        configurable(codec, configured, has_surface) is Ok <==> codec == VideoCodec::H264
            && !configured && has_surface,
        codec == VideoCodec::Hevc <==> configurable(codec, configured, has_surface) == Err::<
            (),
            ConfigureRefusal,
        >(ConfigureRefusal::UnsupportedCodec),
        codec == VideoCodec::H264 && configured <==> configurable(codec, configured, has_surface)
            == Err::<(), ConfigureRefusal>(ConfigureRefusal::Reconfigure),
{
}

/// A wait after some answers without a slot.
pub open spec fn after_refusals(refusals: nat) -> InputWait
    decreases refusals,
{
    if refusals == 0 {
        InputWait { attempts: 0 }
    } else {
        after_refusals((refusals - 1) as nat).after_of(INFO_TRY_AGAIN_LATER).0
    }
}

/// A slot is filled whenever it comes. Without one, what is decoded is shown and the decoder asked
/// again, up to the hundredth time, which is the last.
pub proof fn law_slot_is_waited_for(refusals: nat, status: i64)
    requires
        refusals < 100,
    ensures
        status >= 0 ==> after_refusals(refusals).after_of(status).1 == InputStep::Fill(
            status as u64,
        ),
        status < 0 && refusals < 99 ==> after_refusals(refusals).after_of(status).1
            == InputStep::DrainAndRetry,
        status < 0 && refusals == 99 ==> after_refusals(refusals).after_of(status).1
            == InputStep::DrainAndStall,
{
    lemma_refusals(refusals);
}

proof fn lemma_refusals(refusals: nat)
    requires
        refusals <= 100,
    ensures
        after_refusals(refusals).attempts == refusals,
    decreases refusals,
{
    if refusals > 0 {
        lemma_refusals((refusals - 1) as nat);
    }
}

/// An access unit is queued exactly if there is memory that it fits into.
pub proof fn law_units_go_where_they_fit(capacity: Option<usize>, unit_len: usize)
    ensures
        slot_use_of(capacity, unit_len) == SlotUse::Queue <==> (capacity matches Some(room)
            && unit_len <= room),
        slot_use_of(capacity, unit_len) == SlotUse::ReturnMissing <==> capacity is None,
{
}

/// A decoded frame is kept with the buffer it is in, the time it carries and the time it came out,
/// behind those that came before. Changes of the output are passed over, and nothing more being
/// ready ends the round.
pub proof fn law_outputs_are_kept_in_order(
    ready: Seq<ReadyOutput>,
    status: i64,
    pts_us: u64,
    now_us: u64,
)
    ensures
        ({
            let (now, step) = drained(ready, status, pts_us, now_us);
            &&& status >= 0 ==> {
                &&& now.len() == ready.len() + 1
                &&& now.drop_last() == ready
                &&& now.last().index == status
                &&& now.last().pts_us == pts_us
                &&& now.last().decode_us == now_us
            }
            &&& status < 0 ==> now == ready
            &&& step == DrainStep::Again <==> status >= -3 && status != -1
            &&& step == DrainStep::Done <==> status == -1
            &&& step == DrainStep::Failed(status) <==> status < -3
        }),
{
    let (now, _) = drained(ready, status, pts_us, now_us);
    assert(status >= 0 ==> now.drop_last() =~= ready);
}

/// Of the frames that are ready the newest is shown, and all the others are dropped, in the order in
/// which they came; where one is ready, one is shown.
pub proof fn law_newest_is_shown(ready: Seq<ReadyOutput>, newest: ReadyOutput)
    ensures
        shown(ready.push(newest)) == (ready, Some(newest)),
        shown(Seq::empty()).1 is None,
        shown(Seq::empty()).0.len() == 0,
{
    assert(ready.push(newest).drop_last() =~= ready);
}

/// What is inside the decoder is what was queued and has not come out.
pub proof fn law_depth_is_what_stays_inside(queued: u64, dequeued: u64)
    ensures
        dequeued <= queued ==> dequeued + (CodecDepth { queued, dequeued }).depth() == queued,
        dequeued >= queued ==> (CodecDepth { queued, dequeued }).depth() == 0,
{
}

/// A clock reading is a thousand million times its seconds, and its nanoseconds, where that is a
/// number; else it is the nearest one.
pub proof fn law_reading_in_nanoseconds(seconds: i64, nanos: i64)
    requires
        0 <= nanos < 1_000_000_000,
    ensures
        ({
            let exact = seconds * 1_000_000_000 + nanos;
            &&& i64::MIN <= seconds * 1_000_000_000 && exact <= i64::MAX ==> nanoseconds_of(
                seconds,
                nanos,
            ) == exact
            &&& exact > i64::MAX ==> nanoseconds_of(seconds, nanos) == i64::MAX
        }),
{
}

/// Only the first frame of a round is waited for, a hundredth of a second: once one is ready, the
/// others are taken as they are there.
pub proof fn law_only_the_first_is_waited_for(ready: Seq<ReadyOutput>, next: ReadyOutput)
    ensures
        timeout_of(Seq::empty()) == 10_000,
        timeout_of(ready.push(next)) == 0,
{
}

} // verus!
