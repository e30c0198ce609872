//! The client's receive session: its half of the handshake, and the loop that routes frames to the
//! decoder.

use std::collections::VecDeque;
use vstd::prelude::*;
use crate::count::{add_count, capped_count};
use crate::io::{IoError, LinkState, Transport};
use crate::io::{link_failed, partly_sent, LinkOp};
use crate::macos_host::session::{all_sendable, caps_of, handshake_outcome, lemma_streamed_frames};
use crate::macos_host::session::{items_frames, law_every_unit_sent_once, videos_in, videos_of};
use crate::macos_host::session::{sync_outcome, ClockSyncError, SendSessionSummary, StreamItem};
use crate::macos_host::session::SummaryView;
use crate::protocol::clock::{law_estimate_is_exact, ClockOffset};
use crate::protocol::framing::{after_frame, MAX_FRAME_LEN};
use crate::protocol::messages::{negotiate, AgreedConfig, ClientCaps, Control, Frame, Handshake};
use crate::protocol::messages::{MessageError, NegotiationError, VideoCodec};
use crate::protocol::protocol_version;
use crate::protocol::messages::{law_message_round_trip, lemma_message_shortens};
use crate::protocol::messages::{lemma_wire_of_first, negotiated};
use crate::protocol::messages::{next_message, wire_of, ClientCapsView, FrameView, HandshakeView};
use super::decode::{DecodeError, DecodeSession, VideoDecoder};
use super::decode::{fed, fed_all, lemma_fed_more, DecodeView, DecoderCall};

verus! {

/// Phone-side timing of one frame.
#[derive(Debug, Clone, Copy, PartialEq, Eq)]
pub struct InFlight {
    /// Presentation timestamp: the key.
    pub pts_us: u64,
    /// When the access unit had arrived.
    pub arrive_us: u64,
    /// When it was decoded, once it was.
    pub decode_us: Option<u64>,
}

/// Phone-side per-frame timing, gathered as a frame arrives, is decoded and is presented. Bounded:
/// a frame that is never presented cannot pile up.
#[derive(Debug)]
pub struct StatsTracker {
    inflight: VecDeque<InFlight>,
    capacity: usize,
}

/// The position of the first record of a frame.
pub open spec fn position_of(inflight: Seq<InFlight>, pts_us: u64) -> Option<int>
    decreases inflight.len(),
{
    if inflight.len() == 0 {
        None
    } else if inflight[0].pts_us == pts_us {
        Some(0)
    } else {
        match position_of(inflight.skip(1), pts_us) {
            Some(i) => Some(i + 1),
            None => None,
        }
    }
}

/// The records once a frame has arrived: a full tracker forgets its oldest one.
pub open spec fn arrived(waiting: Seq<InFlight>, limit: nat, pts_us: u64, arrive_us: u64) -> Seq<
    InFlight,
> {
    (if waiting.len() >= limit && waiting.len() > 0 {
        waiting.skip(1)
    } else {
        waiting
    }).push(InFlight { pts_us, arrive_us, decode_us: None })
}

/// The records once a frame was decoded.
pub open spec fn decoded_at(waiting: Seq<InFlight>, pts_us: u64, decode_us: u64) -> Seq<InFlight> {
    match position_of(waiting, pts_us) {
        Some(i) => waiting.update(i, InFlight { decode_us: Some(decode_us), ..waiting[i] }),
        None => waiting,
    }
}

/// The records once a frame was presented.
pub open spec fn presented(waiting: Seq<InFlight>, pts_us: u64) -> Seq<InFlight> {
    match position_of(waiting, pts_us) {
        Some(i) => waiting.remove(i),
        None => waiting,
    }
}

/// The report of a frame that is presented; one that was never decoded, or is forgotten, has none.
pub open spec fn report_of(waiting: Seq<InFlight>, pts_us: u64, present_us: u64) -> Option<
    FrameView,
> {
    match position_of(waiting, pts_us) {
        Some(i) => match waiting[i].decode_us {
            Some(decode_us) => Some(
                FrameView::Stats {
                    pts_us,
                    arrive_us: waiting[i].arrive_us,
                    decode_us,
                    present_us,
                },
            ),
            None => None,
        },
        None => None,
    }
}

impl StatsTracker {
    /// The records that are waiting, oldest first.
    pub closed spec fn waiting(&self) -> Seq<InFlight> {
        self.inflight@
    }

    /// The most records that wait at a time.
    pub closed spec fn limit(&self) -> nat {
        self.capacity as nat
    }

    /// New tracker that keeps at most `capacity` frames, and always at least one.
    pub fn new(capacity: usize) -> (r: Self)
        ensures
            r.waiting() == Seq::<InFlight>::empty(),
            r.limit() == if capacity == 0 {
                1
            } else {
                capacity as nat
            },
    {
        StatsTracker {
            inflight: VecDeque::new(),
            capacity: if capacity == 0 {
                1
            } else {
                capacity
            },
        }
    }

    /// Record the arrival of a frame; a full tracker forgets its oldest frame.
    pub fn on_arrive(&mut self, pts_us: u64, arrive_us: u64)
        ensures
            final(self).limit() == old(self).limit(),
            final(self).waiting() == arrived(
                old(self).waiting(),
                old(self).limit(),
                pts_us,
                arrive_us,
            ),
    {
        if self.inflight.len() >= self.capacity {
            let _ = self.inflight.pop_front();
        }
        self.inflight.push_back(InFlight { pts_us, arrive_us, decode_us: None });
        proof {
            let w = old(self).waiting();
            if w.len() >= old(self).limit() && w.len() > 0 {
                assert(self.waiting() =~= w.skip(1).push(
                    InFlight { pts_us, arrive_us, decode_us: None },
                ));
            }
        }
    }

    fn position(&self, pts_us: u64) -> (r: Option<usize>)
        ensures
            match r {
                Some(i) => i < self.waiting().len() && position_of(self.waiting(), pts_us) == Some(
                    i as int,
                ),
                None => position_of(self.waiting(), pts_us) is None,
            },
    {
        let ghost all = self.inflight@;
        let mut i: usize = 0;
        proof {
            assert(all.skip(0) =~= all);
        }
        while i < self.inflight.len()
            invariant
                all == self.inflight@,
                i <= all.len(),
                match position_of(all.skip(i as int), pts_us) {
                    Some(k) => position_of(all, pts_us) == Some(k + i),
                    None => position_of(all, pts_us) is None,
                },
            decreases all.len() - i,
        {
            proof {
                assert(all.skip(i as int)[0] == all[i as int]);
                assert(all.skip(i as int).skip(1) =~= all.skip(i + 1));
            }
            if self.inflight[i].pts_us == pts_us {
                return Some(i);
            }
            i = i + 1;
        }
        None
    }

    /// Record that a frame was decoded.
    pub fn on_decode(&mut self, pts_us: u64, decode_us: u64)
        ensures
            final(self).limit() == old(self).limit(),
            final(self).waiting() == decoded_at(old(self).waiting(), pts_us, decode_us),
    {
        if let Some(i) = self.position(pts_us) {
            let ghost before = self.inflight@;
            if let Some(record) = self.inflight.remove(i) {
                self.inflight.insert(
                    i,
                    InFlight {
                        pts_us: record.pts_us,
                        arrive_us: record.arrive_us,
                        decode_us: Some(decode_us),
                    },
                );
            }
            proof {
                assert(self.inflight@ =~= before.update(
                    i as int,
                    InFlight { decode_us: Some(decode_us), ..before[i as int] },
                ));
            }
        }
    }

    /// Record that a frame was presented, and produce its report. A frame that was never decoded
    /// has none.
    pub fn on_present(&mut self, pts_us: u64, present_us: u64) -> (r: Option<Frame>)
        ensures
            final(self).limit() == old(self).limit(),
            final(self).waiting() == presented(old(self).waiting(), pts_us),
            match r {
                Some(report) => report_of(old(self).waiting(), pts_us, present_us) == Some(report@),
                None => report_of(old(self).waiting(), pts_us, present_us) is None,
            },
    {
        match self.position(pts_us) {
            Some(i) => match self.inflight.remove(i) {
                Some(record) => match record.decode_us {
                    Some(decode_us) => Some(
                        Frame::Stats {
                            pts_us,
                            arrive_us: record.arrive_us,
                            decode_us,
                            present_us,
                        },
                    ),
                    None => None,
                },
                None => None,
            },
            None => None,
        }
    }
}

/// The place of a record that was just added.
proof fn lemma_position_of_new(waiting: Seq<InFlight>, record: InFlight)
    requires
        position_of(waiting, record.pts_us) is None,
    ensures
        position_of(waiting.push(record), record.pts_us) == Some(waiting.len() as int),
    decreases waiting.len(),
{
    let more = waiting.push(record);
    if waiting.len() > 0 {
        lemma_position_of_new(waiting.skip(1), record);
        assert(more.skip(1) =~= waiting.skip(1).push(record));
    }
}

/// A frame that arrives, is decoded and is presented is reported with its three times, and leaves
/// nothing behind but what was there before, less at most the oldest record.
pub proof fn law_presented_frames_are_reported(
    waiting: Seq<InFlight>,
    limit: nat,
    pts_us: u64,
    arrive_us: u64,
    decode_us: u64,
    present_us: u64,
)
    requires
        position_of(waiting, pts_us) is None,
    ensures
        ({
            let now = decoded_at(arrived(waiting, limit, pts_us, arrive_us), pts_us, decode_us);
            &&& report_of(now, pts_us, present_us) == Some(
                FrameView::Stats { pts_us, arrive_us, decode_us, present_us },
            )
            &&& presented(now, pts_us).is_suffix_of(waiting)
            &&& presented(now, pts_us).len() + 1 >= waiting.len()
        }),
{
    let kept = if waiting.len() >= limit && waiting.len() > 0 {
        waiting.skip(1)
    } else {
        waiting
    };
    let record = InFlight { pts_us, arrive_us, decode_us: None };
    let done = InFlight { pts_us, arrive_us, decode_us: Some(decode_us) };
    lemma_position_of_new(kept, record);
    lemma_position_of_new(kept, done);
    assert(kept.push(record).update(kept.len() as int, done) =~= kept.push(done));
    assert(kept.push(done).remove(kept.len() as int) =~= kept);
    assert(waiting.skip(1) =~= waiting.subrange(
        waiting.len() - waiting.skip(1).len(),
        waiting.len() as int,
    ) || waiting.len() == 0);
    assert(waiting =~= waiting.subrange(0, waiting.len() as int));
}

/// The records after a run of arrivals, each with its time.
pub open spec fn all_arrived(waiting: Seq<InFlight>, limit: nat, arrivals: Seq<(u64, u64)>) -> Seq<
    InFlight,
>
    decreases arrivals.len(),
{
    if arrivals.len() == 0 {
        waiting
    } else {
        arrived(
            all_arrived(waiting, limit, arrivals.drop_last()),
            limit,
            arrivals.last().0,
            arrivals.last().1,
        )
    }
}

/// The records after a run of decoded frames, each with its time.
pub open spec fn all_decoded(waiting: Seq<InFlight>, decodes: Seq<(u64, u64)>) -> Seq<InFlight>
    decreases decodes.len(),
{
    if decodes.len() == 0 {
        waiting
    } else {
        decoded_at(
            all_decoded(waiting, decodes.drop_last()),
            decodes.last().0,
            decodes.last().1,
        )
    }
}

/// The frames of some arrivals or decodes.
pub open spec fn frames_in_order(events: Seq<(u64, u64)>) -> Seq<u64> {
    Seq::new(events.len(), |i: int| events[i].0)
}

/// The first record of a frame, seen from any record of it.
proof fn lemma_position_found(waiting: Seq<InFlight>, pts_us: u64)
    ensures
        match position_of(waiting, pts_us) {
            Some(i) => 0 <= i < waiting.len() && waiting[i].pts_us == pts_us,
            None => forall|i: int| 0 <= i < waiting.len() ==> (#[trigger] waiting[i]).pts_us != pts_us,
        },
    decreases waiting.len(),
{
    if waiting.len() > 0 {
        let rest = waiting.skip(1);
        lemma_position_found(rest, pts_us);
        if waiting[0].pts_us != pts_us && position_of(rest, pts_us) is None {
            assert forall|i: int| 0 <= i < waiting.len() implies (#[trigger] waiting[i]).pts_us
                != pts_us by {
                if i > 0 {
                    assert(rest[i - 1] == waiting[i]);
                }
            }
        }
    }
}

/// After a run of arrivals of an empty tracker, the last ones wait, as many as there is room for.
proof fn lemma_last_arrivals(limit: nat, arrivals: Seq<(u64, u64)>)
    requires
        limit > 0,
    ensures
        ({
            let now = all_arrived(Seq::empty(), limit, arrivals);
            let n = arrivals.len();
            &&& now.len() == if n < limit {
                n
            } else {
                limit
            }
            &&& forall|i: int|
                0 <= i < now.len() ==> (#[trigger] now[i]).pts_us == arrivals[n - now.len() + i].0
        }),
    decreases arrivals.len(),
{
    if arrivals.len() > 0 {
        lemma_last_arrivals(limit, arrivals.drop_last());
    }
}

/// Decoding keeps the frames that wait, and marks those that are decoded.
proof fn lemma_decoded_marks(waiting: Seq<InFlight>, decodes: Seq<(u64, u64)>)
    requires
        forall|i: int, j: int|
            0 <= i < waiting.len() && 0 <= j < waiting.len() && i != j
                ==> (#[trigger] waiting[i]).pts_us != (#[trigger] waiting[j]).pts_us,
    ensures
        ({
            let now = all_decoded(waiting, decodes);
            &&& now.len() == waiting.len()
            &&& forall|i: int| 0 <= i < now.len() ==> (#[trigger] now[i]).pts_us == waiting[i].pts_us
            &&& forall|i: int|
                0 <= i < now.len() && frames_in_order(decodes).contains(waiting[i].pts_us)
                    ==> (#[trigger] now[i]).decode_us is Some
        }),
    decreases decodes.len(),
{
    if decodes.len() > 0 {
        let front = decodes.drop_last();
        let last = decodes.last();
        lemma_decoded_marks(waiting, front);
        let mid = all_decoded(waiting, front);
        let now = all_decoded(waiting, decodes);
        lemma_position_found(mid, last.0);
        assert forall|i: int|
            0 <= i < now.len() && frames_in_order(decodes).contains(waiting[i].pts_us) implies (
        #[trigger] now[i]).decode_us is Some by {
            let p = waiting[i].pts_us;
            assert(mid[i].pts_us == p);
            if p == last.0 {
                let k = position_of(mid, last.0)->Some_0;
                assert(mid[k].pts_us == waiting[k].pts_us);
                assert(k == i);
            } else {
                let k = choose|k: int|
                    0 <= k < frames_in_order(decodes).len() && frames_in_order(decodes)[k] == p;
                assert(decodes[k].0 == p);
                assert(k < decodes.len() - 1);
                assert(frames_in_order(front)[k] == p);
                assert(frames_in_order(front).contains(p));
                assert(mid[i].decode_us is Some);
            }
        }
    }
}

/// When frames have arrived at an empty tracker and all have been decoded, exactly the last ones are
/// reported when they are presented, as many as there is room for: the oldest are forgotten first.
pub proof fn law_last_arrivals_are_reported(
    limit: nat,
    arrivals: Seq<(u64, u64)>,
    decodes: Seq<(u64, u64)>,
    i: int,
    present_us: u64,
)
    requires
        limit > 0,
        frames_in_order(arrivals).no_duplicates(),
        forall|k: int|
            0 <= k < arrivals.len() ==> frames_in_order(decodes).contains(
                (#[trigger] arrivals[k]).0,
            ),
        0 <= i < arrivals.len(),
    ensures
        ({
            let now = all_decoded(all_arrived(Seq::empty(), limit, arrivals), decodes);
            &&& report_of(now, arrivals[i].0, present_us) is Some <==> i + limit >= arrivals.len()
            &&& now.len() <= limit
        }),
{
    let n = arrivals.len();
    let here = all_arrived(Seq::empty(), limit, arrivals);
    let from = n - here.len();
    let p = arrivals[i].0;
    let order = frames_in_order(arrivals);
    lemma_last_arrivals(limit, arrivals);
    assert forall|a: int, b: int| 0 <= a < here.len() && 0 <= b < here.len() && a != b implies (
    #[trigger] here[a]).pts_us != (#[trigger] here[b]).pts_us by {
        assert(order[from + a] != order[from + b]);
    }
    lemma_decoded_marks(here, decodes);
    let now = all_decoded(here, decodes);
    lemma_position_found(now, p);
    assert(order[i] == p);
    if i >= from {
        let k = i - from;
        assert(here[k].pts_us == arrivals[from + k].0);
        assert(now[k].pts_us == p);
        assert(position_of(now, p) is Some);
        let at = position_of(now, p)->Some_0;
        assert(now[at].pts_us == here[at].pts_us);
        assert(here[at].pts_us == arrivals[from + at].0);
    } else if position_of(now, p) is Some {
        let at = position_of(now, p)->Some_0;
        assert(now[at].pts_us == here[at].pts_us);
        assert(here[at].pts_us == arrivals[from + at].0);
        assert(order[from + at] != order[i]);
    }
}

/// A tracker never holds more records than its limit, whatever is recorded.
pub proof fn law_tracker_is_bounded(waiting: Seq<InFlight>, limit: nat, pts_us: u64, time_us: u64)
    requires
        waiting.len() <= limit,
        limit > 0,
    ensures
        arrived(waiting, limit, pts_us, time_us).len() <= limit,
        decoded_at(waiting, pts_us, time_us).len() <= limit,
        presented(waiting, pts_us).len() <= limit,
{
    lemma_position_in_range(waiting, pts_us);
}

proof fn lemma_position_in_range(waiting: Seq<InFlight>, pts_us: u64)
    ensures
        position_of(waiting, pts_us) matches Some(i) ==> 0 <= i < waiting.len(),
    decreases waiting.len(),
{
    if waiting.len() > 0 {
        lemma_position_in_range(waiting.skip(1), pts_us);
    }
}

/// The reply to a clock ping that came in at `t1_us` and is answered at `t2_us`; other frames have
/// none.
pub open spec fn pong_of(frame: FrameView, t1_us: u64, t2_us: u64) -> Option<FrameView> {
    match frame {
        FrameView::ClockPing { t0_us } => Some(FrameView::ClockPong { t0_us, t1_us, t2_us }),
        _ => None,
    }
}

/// The reply to a clock ping, with the client's receive and send times; `None` for any other
/// frame.
pub fn pong_for_ping(frame: Frame, t1_us: u64, t2_us: u64) -> (r: Option<Frame>)
    ensures
        match r {
            Some(pong) => pong_of(frame@, t1_us, t2_us) == Some(pong@),
            None => pong_of(frame@, t1_us, t2_us) is None,
        },
{
    match frame {
        Frame::ClockPing { t0_us } => Some(Frame::ClockPong { t0_us, t1_us, t2_us }),
        _ => None,
    }
}

/// Why the client session failed.
#[derive(Debug, Clone, PartialEq, Eq)]
pub enum SessionError {
    /// A failure of the link.
    Io(IoError),
    /// A framing or message error.
    Message(MessageError),
    /// The offer could not be reconciled with the client's capabilities.
    Negotiation(NegotiationError),
    /// The decoder failed.
    Decode(DecodeError),
}

/// A [`SessionError`] by its values. That an unexpected frame came in place of the host's offer of a
/// handshake is a failure of the link, which holds the frame.
pub enum SessionErrorView {
    Io(IoError),
    Message(MessageError),
    Negotiation(NegotiationError),
    Decode(DecodeError),
    UnexpectedOffer(FrameView),
}

impl View for SessionError {
    type V = SessionErrorView;

    open spec fn view(&self) -> SessionErrorView {
        match self {
            SessionError::Io(IoError::UnexpectedOffer(f)) => SessionErrorView::UnexpectedOffer(f@),
            SessionError::Io(e) => SessionErrorView::Io(*e),
            SessionError::Message(e) => SessionErrorView::Message(*e),
            SessionError::Negotiation(e) => SessionErrorView::Negotiation(*e),
            SessionError::Decode(e) => SessionErrorView::Decode(*e),
        }
    }
}

/// The outcome of a handshake by its values.
pub open spec fn outcome_view(r: Result<AgreedConfig, SessionError>) -> Result<
    AgreedConfig,
    SessionErrorView,
> {
    match r {
        Ok(agreed) => Ok(agreed),
        Err(e) => Err(e@),
    }
}

/// Summary of a completed session.
#[derive(Debug, Clone, Copy, PartialEq, Eq)]
pub struct SessionSummary {
    /// Frames received after the handshake, of all kinds.
    pub frames_received: u64,
    /// Access units submitted to the decoder.
    pub decoded_count: u64,
    /// Keyframes submitted.
    pub keyframe_count: u64,
    /// Whether the decoder was configured.
    pub configured: bool,
    /// The negotiated configuration.
    pub agreed: Option<AgreedConfig>,
    /// Whether the host said goodbye, rather than just closing the link.
    pub ended_by_host_bye: bool,
}

/// The client's capabilities in the fields of an offer, as they travel to the host.
pub open spec fn reply_of(caps: ClientCapsView) -> HandshakeView {
    HandshakeView {
        protocol_version: caps.protocol_version,
        width: caps.max_width,
        height: caps.max_height,
        refresh_hz: caps.max_refresh_hz,
        codecs: caps.codecs,
    }
}

/// What the client's half of the handshake comes to when the host begins with `incoming`.
pub open spec fn client_outcome(caps: ClientCapsView, incoming: Seq<u8>) -> Result<
    AgreedConfig,
    SessionErrorView,
> {
    match next_message(incoming) {
        Err(m) => Err(SessionErrorView::Message(m)),
        Ok(FrameView::Handshake(offer)) => match negotiated(offer, caps) {
            Err(n) => Err(SessionErrorView::Negotiation(n)),
            Ok(agreed) => if FrameView::Handshake(reply_of(caps)).payload().len() > MAX_FRAME_LEN {
                Err(SessionErrorView::Message(MessageError::Io(IoError::PayloadTooLong)))
            } else {
                Ok(agreed)
            },
        },
        Ok(f) => Err(SessionErrorView::UnexpectedOffer(f)),
    }
}

/// Whether `e` comes from a link that failed on the way from `pre` to `post`: a failed flush is a
/// failure of the link as such, and a failed read or write one of the framing layer.
pub open spec fn link_broke(pre: LinkState, post: LinkState, e: SessionError) -> bool {
    match e {
        SessionError::Io(x) => link_failed(pre, post, LinkOp::Flush, x),
        SessionError::Message(MessageError::Io(x)) => {
            ||| link_failed(pre, post, LinkOp::Read, x)
            ||| link_failed(pre, post, LinkOp::Write, x)
        },
        _ => false,
    }
}

/// The goodbye of the host.
pub open spec fn bye() -> FrameView {
    FrameView::Control(Control::Bye)
}

/// The frames that a stream holds for the client: up to the host's goodbye, the end of the stream,
/// or the first thing that is no valid message.
pub open spec fn frames_until_end(bytes: Seq<u8>) -> Seq<FrameView>
    decreases bytes.len(),
{
    match next_message(bytes) {
        Ok(f) => if f == bye() {
            seq![f]
        } else {
            proof {
                lemma_message_shortens(bytes);
            }
            seq![f] + frames_until_end(after_frame(bytes))
        },
        Err(_) => Seq::empty(),
    }
}

/// How a stream ends for the client.
pub enum Ending {
    /// The host said goodbye.
    Bye,
    /// The stream ended; a frame that is cut off at the end counts as no frame.
    Closed,
    /// Something came that is no valid message.
    Failed(MessageError),
}

/// How a stream ends for the client.
pub open spec fn ending(bytes: Seq<u8>) -> Ending
    decreases bytes.len(),
{
    match next_message(bytes) {
        Ok(f) => if f == bye() {
            Ending::Bye
        } else {
            proof {
                lemma_message_shortens(bytes);
            }
            ending(after_frame(bytes))
        },
        Err(MessageError::Io(IoError::UnexpectedEof)) => Ending::Closed,
        Err(m) => Ending::Failed(m),
    }
}

/// How many frames are counted.
pub open spec fn counted(n: nat) -> u64
    decreases n,
{
    if n == 0 {
        0
    } else {
        capped_count(counted((n - 1) as nat), 1)
    }
}

/// What has happened once the client has received the first `n` frames of `all` without an error.
pub open spec fn received_first(
    pre: DecodeView,
    post: DecodeView,
    all: Seq<FrameView>,
    n: int,
    calls: Seq<DecoderCall>,
) -> bool {
    0 <= n <= all.len() && fed_all(pre, post, all.take(n), calls)
}

/// How the receive loop ended on a link that held `incoming`, given the calls it made.
pub open spec fn loop_ended(
    pre: LinkState,
    post: LinkState,
    before: DecodeView,
    after: DecodeView,
    calls: Seq<DecoderCall>,
    r: Result<(u64, bool), SessionError>,
) -> bool {
    let all = frames_until_end(pre.incoming);
    match r {
        Ok((count, by_bye)) => exists|n: int|
            {
                &&& #[trigger] received_first(before, after, all, n, calls)
                &&& count == counted(n as nat)
                &&& {
                    ||| {
                        &&& n == all.len()
                        &&& post.fault == pre.fault
                        &&& by_bye == (ending(pre.incoming) is Bye)
                        &&& ending(pre.incoming) !is Failed
                    }
                    ||| link_failed(pre, post, LinkOp::Read, IoError::UnexpectedEof) && !by_bye
                }
            },
        Err(SessionError::Decode(e)) => exists|n: int, mid: DecodeView, k: int|
            {
                &&& n < all.len()
                &&& 0 <= k <= calls.len()
                &&& #[trigger] received_first(before, mid, all, n, calls.take(k))
                &&& fed(mid, after, all[n], calls.skip(k), Err(e))
            },
        Err(e) => {
            ||| {
                &&& ending(pre.incoming) matches Ending::Failed(m) && e == SessionError::Message(m)
                &&& received_first(before, after, all, all.len() as int, calls)
            }
            ||| {
                &&& link_broke(pre, post, e)
                &&& exists|n: int| #[trigger] received_first(before, after, all, n, calls)
            }
        },
    }
}

/// Whether a read error is just the end of the stream.
fn is_clean_eof(e: &MessageError) -> (r: bool)
    ensures
        r == (e == MessageError::Io(IoError::UnexpectedEof)),
{
    match e {
        MessageError::Io(IoError::UnexpectedEof) => true,
        _ => false,
    }
}

/// Receive frames and route them to the decoder until the host says goodbye or the stream ends.
#[verifier::spinoff_prover]
fn receive_loop<T: Transport, D: VideoDecoder>(
    transport: &mut T,
    decode_session: &mut DecodeSession,
    decoder: &mut D,
) -> (r: Result<(u64, bool), SessionError>)
    ensures
        old(decoder).calls().is_prefix_of(final(decoder).calls()),
        final(transport).state().sent == old(transport).state().sent,
        final(transport).state().flushed == old(transport).state().flushed,
        old(transport).state().all_flushed() ==> final(transport).state().stalled == old(
            transport,
        ).state().stalled,
        loop_ended(
            old(transport).state(),
            final(transport).state(),
            old(decode_session)@,
            final(decode_session)@,
            final(decoder).calls().skip(old(decoder).calls().len() as int),
            r,
        ),
{
    let ghost pre = transport.state();
    let ghost before = decode_session@;
    let ghost made = decoder.calls();
    let ghost all = frames_until_end(pre.incoming);
    let ghost mut n: int = 0;
    let mut frames_received: u64 = 0;
    proof {
        assert(made.skip(made.len() as int) =~= Seq::<DecoderCall>::empty());
        assert(all.take(0) =~= Seq::<FrameView>::empty());
        assert(all.skip(0) =~= all);
    }
    loop
        invariant
            pre == old(transport).state(),
            before == old(decode_session)@,
            made == old(decoder).calls(),
            made.is_prefix_of(decoder.calls()),
            all == frames_until_end(pre.incoming),
            0 <= n <= all.len(),
            all.skip(n) == frames_until_end(transport.state().incoming),
            ending(pre.incoming) == ending(transport.state().incoming),
            received_first(
                before,
                decode_session@,
                all,
                n,
                decoder.calls().skip(made.len() as int),
            ),
            frames_received == counted(n as nat),
            transport.state().sent == pre.sent,
            transport.state().flushed == pre.flushed,
            transport.state().faultless == pre.faultless,
            transport.state().fault == pre.fault,
            pre.all_flushed() ==> transport.state().stalled == pre.stalled,
        decreases transport.state().incoming.len(),
    {
        let ghost here = transport.state().incoming;
        let ghost mid = decode_session@;
        let ghost calls = decoder.calls().skip(made.len() as int);
        let frame: Frame = match Frame::read_from(transport) {
            Ok(f) => f,
            Err(e) => {
                proof {
                    assert(next_message(here) is Err ==> all.skip(n).len() == 0);
                    assert(received_first(before, decode_session@, all, n, calls));
                }
                if is_clean_eof(&e) {
                    return Ok((frames_received, false));
                }
                return Err(SessionError::Message(e));
            },
        };
        frames_received = add_count(frames_received, 1);
        proof {
            lemma_message_shortens(here);
            let rest = all.skip(n);
            lemma_until_end_step(here, frame@);
            assert(rest.len() > 0 && rest[0] == frame@);
            assert(all[n] == rest[0]);
            assert(all.take(n + 1) =~= all.take(n).push(frame@));
            assert(all.skip(n + 1) =~= rest.skip(1));
            assert(frame@ != bye() ==> rest.skip(1) =~= frames_until_end(after_frame(here)));
            assert(frame@ == bye() ==> rest.len() == 1);
        }
        let ghost held = decoder.calls();
        match &frame {
            Frame::VideoConfig { .. } | Frame::Video { .. } => {
                let r = decode_session.feed(&frame, decoder);
                proof {
                    let now = decoder.calls().skip(made.len() as int);
                    let more = decoder.calls().skip(held.len() as int);
                    assert(now.take(calls.len() as int) =~= calls);
                    assert(now.skip(calls.len() as int) =~= more);
                    assert(now =~= calls + more);
                }
                match r {
                    Ok(done) => {
                        proof {
                            assert(done == ());
                            lemma_fed_more(
                                before,
                                mid,
                                decode_session@,
                                all.take(n),
                                frame@,
                                calls,
                                decoder.calls().skip(held.len() as int),
                            );
                        }
                    },
                    Err(e) => {
                        proof {
                            assert(received_first(before, mid, all, n, calls));
                        }
                        return Err(SessionError::Decode(e));
                    },
                }
            },
            Frame::Control(Control::Bye) => {
                proof {
                    let none = Seq::<DecoderCall>::empty();
                    lemma_fed_more(before, mid, mid, all.take(n), frame@, calls, none);
                    assert(calls + none =~= calls);
                    assert(received_first(before, mid, all, n + 1, calls));
                }
                return Ok((frames_received, true));
            },
            _ => {
                proof {
                    let none = Seq::<DecoderCall>::empty();
                    lemma_fed_more(before, mid, mid, all.take(n), frame@, calls, none);
                    assert(calls + none =~= calls);
                }
            },
        }
        proof {
            n = n + 1;
        }
    }
}

/// How a client session ended, given the calls it made.
pub open spec fn session_ended(
    pre: LinkState,
    post: LinkState,
    caps: ClientCapsView,
    before: DecodeView,
    after: DecodeView,
    calls: Seq<DecoderCall>,
    r: Result<SessionSummary, SessionError>,
) -> bool {
    let reply = FrameView::Handshake(reply_of(caps)).wire();
    match client_outcome(caps, pre.incoming) {
        Ok(agreed) => {
            ||| {
                &&& r matches Err(e) && link_broke(pre, post, e)
                &&& partly_sent(pre, post, reply)
                &&& calls.len() == 0
                &&& after == before
            }
            ||| {
                let streaming = LinkState { incoming: after_frame(pre.incoming), ..pre };
                &&& post.sent == pre.sent + reply
                &&& post.all_flushed()
                &&& match r {
                    Ok(s) => {
                        &&& loop_ended(
                            streaming,
                            post,
                            before,
                            after,
                            calls,
                            Ok((s.frames_received, s.ended_by_host_bye)),
                        )
                        &&& s.agreed == Some(agreed)
                        &&& s.decoded_count == after.decoded
                        &&& s.keyframe_count == after.keyframes
                        &&& s.configured == after.configured
                    },
                    Err(e) => loop_ended(streaming, post, before, after, calls, Err(e)),
                }
            }
        },
        Err(outcome) => {
            &&& calls.len() == 0
            &&& after == before
            &&& post.sent == pre.sent
            &&& r matches Err(e) && (e@ == outcome || link_broke(pre, post, e))
        },
    }
}

/// The client's half of the handshake: read the offer, reconcile it, reply with the capabilities.
fn client_handshake<T: Transport>(transport: &mut T, caps: &ClientCaps) -> (r: Result<
    AgreedConfig,
    SessionError,
>)
    ensures
        ({
            let pre = old(transport).state();
            let post = final(transport).state();
            &&& post.faultless == pre.faultless
            &&& (pre.all_flushed() ==> post.stalled == pre.stalled)
            &&& {
                ||| {
                    &&& r matches Err(e) && link_broke(pre, post, e)
                    &&& partly_sent(pre, post, FrameView::Handshake(reply_of(caps@)).wire())
                    &&& client_outcome(caps@, pre.incoming) is Err ==> post.sent == pre.sent
                }
                ||| {
                    &&& outcome_view(r) == client_outcome(caps@, pre.incoming)
                    &&& post.fault == pre.fault
                    &&& r is Ok ==> {
                        &&& post.incoming == after_frame(pre.incoming)
                        &&& post.sent == pre.sent + FrameView::Handshake(reply_of(caps@)).wire()
                        &&& post.all_flushed()
                    }
                    &&& r is Err ==> post.sent == pre.sent
                }
            }
        }),
{
    let offer = match Frame::read_from(transport) {
        Ok(Frame::Handshake(h)) => h,
        Ok(other) => {
            return Err(SessionError::Io(IoError::UnexpectedOffer(other)));
        },
        Err(e) => {
            return Err(SessionError::Message(e));
        },
    };
    let agreed: AgreedConfig = match negotiate(&offer, caps) {
        Ok(agreed) => agreed,
        Err(n) => {
            return Err(SessionError::Negotiation(n));
        },
    };
    let reply = Frame::Handshake(
        Handshake {
            protocol_version: caps.protocol_version,
            width: caps.max_width,
            height: caps.max_height,
            refresh_hz: caps.max_refresh_hz,
            codecs: vstd::slice::slice_to_vec(caps.codecs.as_slice()),
        },
    );
    match reply.write_to(transport) {
        Ok(_) => {},
        Err(e) => {
            return Err(SessionError::Message(e));
        },
    }
    match transport.flush() {
        Ok(_) => Ok(agreed),
        Err(e) => Err(SessionError::Io(e)),
    }
}

/// Perform the client's half of the handshake, then receive: video goes to the decoder, the host's
/// goodbye or the end of the stream ends the session, and everything else is passed over.
#[verifier::spinoff_prover]
pub fn run_session<T: Transport, D: VideoDecoder>(
    transport: &mut T,
    client_caps: &ClientCaps,
    decode_session: &mut DecodeSession,
    decoder: &mut D,
) -> (r: Result<SessionSummary, SessionError>)
    ensures
        old(decoder).calls().is_prefix_of(final(decoder).calls()),
        old(transport).state().all_flushed() ==> final(transport).state().stalled == old(
            transport,
        ).state().stalled,
        session_ended(
            old(transport).state(),
            final(transport).state(),
            client_caps@,
            old(decode_session)@,
            final(decode_session)@,
            final(decoder).calls().skip(old(decoder).calls().len() as int),
            r,
        ),
{
    let ghost pre = transport.state();
    let ghost before = decode_session@;
    proof {
        let made = decoder.calls();
        assert(made.skip(made.len() as int) =~= Seq::<DecoderCall>::empty());
    }
    let agreed: AgreedConfig = match client_handshake(transport, client_caps) {
        Ok(agreed) => agreed,
        Err(e) => {
            return Err(e);
        },
    };
    let ghost ready = transport.state();
    let r = receive_loop(transport, decode_session, decoder);
    proof {
        let streaming = LinkState { incoming: after_frame(pre.incoming), ..pre };
        let calls = decoder.calls().skip(old(decoder).calls().len() as int);
        lemma_loop_ended(
            ready,
            streaming,
            transport.state(),
            before,
            decode_session@,
            calls,
            r,
        );
    }
    match r {
        Ok((frames_received, ended_by_host_bye)) => Ok(
            SessionSummary {
                frames_received,
                decoded_count: decode_session.decoded_count(),
                keyframe_count: decode_session.keyframe_count(),
                configured: decode_session.configured(),
                agreed: Some(agreed),
                ended_by_host_bye,
            },
        ),
        Err(e) => Err(e),
    }
}

/// How the loop ended depends on what came in and on the faults of the link, not on what was sent
/// before.
proof fn lemma_loop_ended(
    a: LinkState,
    b: LinkState,
    post: LinkState,
    before: DecodeView,
    after: DecodeView,
    calls: Seq<DecoderCall>,
    r: Result<(u64, bool), SessionError>,
)
    requires
        a.incoming == b.incoming,
        a.fault == b.fault,
        a.faultless == b.faultless,
        loop_ended(a, post, before, after, calls, r),
    ensures
        loop_ended(b, post, before, after, calls, r),
{
}

/// Whether the application closes itself after a session.
pub open spec fn closes_after(outcome: Result<SessionSummary, SessionError>) -> bool {
    match outcome {
        Ok(summary) => summary.ended_by_host_bye,
        Err(_) => false,
    }
}

/// Whether the application closes itself after a session: only when the host said goodbye. A
/// stream that just ended, and a session that failed, leave it waiting for the next connection.
pub fn closes_app(outcome: &Result<SessionSummary, SessionError>) -> (r: bool)
    ensures
        r == closes_after(*outcome),
{
    match outcome {
        Ok(summary) => summary.ended_by_host_bye,
        Err(_) => false,
    }
}

/// What the phone can do: H.264 up to 3840 by 2160 pixels, 60 times a second.
pub fn client_caps() -> (r: ClientCaps)
    ensures
        r@ == (ClientCapsView {
            protocol_version: 1,
            max_width: 3840,
            max_height: 2160,
            max_refresh_hz: 60,
            codecs: seq![VideoCodec::H264],
        }),
{
    let mut codecs: Vec<VideoCodec> = Vec::new();
    codecs.push(VideoCodec::H264);
    proof {
        assert(codecs@ =~= seq![VideoCodec::H264]);
    }
    ClientCaps {
        protocol_version: protocol_version(),
        max_width: 3840,
        max_height: 2160,
        max_refresh_hz: 60,
        codecs,
    }
}

/// Both ends reach the same configuration: whatever the offer and the capabilities are, the host
/// that reads the client's reply and the client that reads the host's offer come to the same
/// agreement, or both come to none.
pub proof fn law_both_ends_agree(offer: HandshakeView, caps: ClientCapsView)
    requires
        FrameView::Handshake(offer).fits(),
        FrameView::Handshake(reply_of(caps)).fits(),
        FrameView::Handshake(offer).payload().len() <= MAX_FRAME_LEN,
        FrameView::Handshake(reply_of(caps)).payload().len() <= MAX_FRAME_LEN,
    ensures
        ({
            let host = handshake_outcome(offer, FrameView::Handshake(reply_of(caps)).wire());
            let client = client_outcome(caps, FrameView::Handshake(offer).wire());
            match negotiated(offer, caps) {
                Ok(agreed) => {
                    &&& host == Ok::<
                        AgreedConfig,
                        crate::macos_host::session::SessionErrorView,
                    >(agreed)
                    &&& client == Ok::<AgreedConfig, SessionErrorView>(agreed)
                },
                Err(n) => {
                    &&& host == Err::<AgreedConfig, crate::macos_host::session::SessionErrorView>(
                        crate::macos_host::session::SessionErrorView::Negotiation(n),
                    )
                    &&& client == Err::<AgreedConfig, SessionErrorView>(
                        SessionErrorView::Negotiation(n),
                    )
                },
            }
        }),
{
    let none = Seq::<u8>::empty();
    let a = FrameView::Handshake(offer);
    let b = FrameView::Handshake(reply_of(caps));
    law_message_round_trip(a, none);
    law_message_round_trip(b, none);
    assert(a.wire() + none =~= a.wire());
    assert(b.wire() + none =~= b.wire());
    assert(caps_of(reply_of(caps)) =~= caps);
}

/// The client receives exactly the frames that the host has written, in order, up to the first
/// goodbye.
pub proof fn law_client_receives_what_was_sent(frames: Seq<FrameView>)
    requires
        forall|i: int|
            0 <= i < frames.len() ==> (#[trigger] frames[i]).fits() && frames[i].payload().len()
                <= MAX_FRAME_LEN && frames[i] != bye(),
    ensures
        frames_until_end(wire_of(frames)) == frames,
        ending(wire_of(frames)) == Ending::Closed,
        frames_until_end(wire_of(frames.push(bye()))) == frames.push(bye()),
        ending(wire_of(frames.push(bye()))) == Ending::Bye,
    decreases frames.len(),
{
    let none = Seq::<u8>::empty();
    lemma_received_run(frames, none);
    lemma_received_run(frames, bye().wire());
    assert(next_message(none) == Err::<FrameView, MessageError>(
        MessageError::Io(IoError::UnexpectedEof),
    )) by {
        reveal(next_message);
    }
    assert(wire_of(frames) + none =~= wire_of(frames));
    assert(frames + Seq::<FrameView>::empty() =~= frames);
    assert(frames.push(bye()).drop_last() =~= frames);
    crate::protocol::messages::lemma_control_sendable(Control::Bye);
    law_message_round_trip(bye(), none);
    assert(bye().wire() + none =~= bye().wire());
    assert(frames + seq![bye()] =~= frames.push(bye()));
}

/// What a host streams reaches the client: every frame arrives as it was sent and in order, among
/// them every access unit exactly once.
pub proof fn law_stream_arrives_whole(s: SummaryView, items: Seq<StreamItem>)
    requires
        all_sendable(items_frames(s, items)),
    ensures
        frames_until_end(wire_of(items_frames(s, items))) == items_frames(s, items),
        videos_in(frames_until_end(wire_of(items_frames(s, items)))) == videos_of(items),
        ending(wire_of(items_frames(s, items))) == Ending::Closed,
{
    let frames = items_frames(s, items);
    assert forall|i: int| 0 <= i < frames.len() implies (#[trigger] frames[i]).fits()
        && frames[i].payload().len() <= MAX_FRAME_LEN && frames[i] != bye() by {
        lemma_streamed_frames(s, items, i);
        assert(crate::macos_host::session::sendable(frames[i]));
        if let FrameView::VideoConfig { codec, sps_pps } = frames[i] {
            assert(sps_pps.len() <= frames[i].payload().len());
        }
    }
    law_client_receives_what_was_sent(frames);
    law_every_unit_sent_once(s, items);
}

/// One valid message at the front of a stream.
proof fn lemma_until_end_step(bytes: Seq<u8>, f: FrameView)
    requires
        next_message(bytes) == Ok::<FrameView, MessageError>(f),
    ensures
        frames_until_end(bytes) == if f == bye() {
            seq![f]
        } else {
            seq![f] + frames_until_end(after_frame(bytes))
        },
        ending(bytes) == if f == bye() {
            Ending::Bye
        } else {
            ending(after_frame(bytes))
        },
{
}

#[verifier::spinoff_prover]
proof fn lemma_received_run(frames: Seq<FrameView>, rest: Seq<u8>)
    requires
        forall|i: int|
            0 <= i < frames.len() ==> (#[trigger] frames[i]).fits() && frames[i].payload().len()
                <= MAX_FRAME_LEN && frames[i] != bye(),
    ensures
        frames_until_end(wire_of(frames) + rest) == frames + frames_until_end(rest),
        ending(wire_of(frames) + rest) == ending(rest),
    decreases frames.len(),
{
    if frames.len() == 0 {
        assert(wire_of(frames) + rest =~= rest);
        assert(frames + frames_until_end(rest) =~= frames_until_end(rest));
    } else {
        let others = frames.skip(1);
        let behind = wire_of(others) + rest;
        lemma_wire_of_first(frames);
        assert(wire_of(frames) + rest =~= frames[0].wire() + behind);
        law_message_round_trip(frames[0], behind);
        lemma_until_end_step(frames[0].wire() + behind, frames[0]);
        lemma_received_run(others, rest);
        assert(seq![frames[0]] + (others + frames_until_end(rest)) =~= frames + frames_until_end(
            rest,
        ));
    }
}

/// A clock exchange is exact where both messages took equally long: the host that gets the phone's
/// reply to its ping knows what the phone's clock is ahead by, and the round trip.
pub proof fn law_clock_exchange_is_exact(
    t0_us: u64,
    t1_us: u64,
    t2_us: u64,
    t3_us: u64,
    delay: int,
    ahead: int,
)
    requires
        delay >= 0,
        2 * delay <= u64::MAX,
        i64::MIN <= ahead <= i64::MAX,
        t1_us == t0_us + delay + ahead,
        t3_us == t2_us - ahead + delay,
    ensures
        pong_of(FrameView::ClockPing { t0_us }, t1_us, t2_us) matches Some(pong) && sync_outcome(
            pong,
            t0_us,
            t3_us,
        ) == Ok::<ClockOffset, ClockSyncError>(
            ClockOffset { offset_us: ahead as i64, rtt_us: (2 * delay) as u64 },
        ),
{
    law_estimate_is_exact(t0_us, t1_us, t2_us, t3_us, delay, ahead);
}

/// Only pings are answered, and the answer echoes the ping's own time.
pub proof fn law_only_pings_are_answered(frame: FrameView, t1_us: u64, t2_us: u64)
    ensures
        pong_of(frame, t1_us, t2_us) is Some <==> frame is ClockPing,
        frame matches FrameView::ClockPing { t0_us } ==> pong_of(frame, t1_us, t2_us) == Some(
            FrameView::ClockPong { t0_us, t1_us, t2_us },
        ),
{
}

/// Removing a record leaves the first record of every other frame.
proof fn lemma_position_elsewhere(waiting: Seq<InFlight>, at: int, other: u64)
    requires
        0 <= at < waiting.len(),
        waiting[at].pts_us != other,
    ensures
        position_of(waiting.remove(at), other) == match position_of(waiting, other) {
            Some(i) => Some(
                if i > at {
                    i - 1
                } else {
                    i
                },
            ),
            None => None,
        },
    decreases waiting.len(),
{
    lemma_position_found(waiting, other);
    if at == 0 {
        assert(waiting.remove(0) =~= waiting.skip(1));
    } else {
        lemma_position_elsewhere(waiting.skip(1), at - 1, other);
        assert(waiting.remove(at).skip(1) =~= waiting.skip(1).remove(at - 1));
        assert(waiting.remove(at)[0] == waiting[0]);
    }
}

/// Changing a record but for its frame leaves all positions.
proof fn lemma_position_updated(waiting: Seq<InFlight>, at: int, record: InFlight, pts_us: u64)
    requires
        0 <= at < waiting.len(),
        record.pts_us == waiting[at].pts_us,
    ensures
        position_of(waiting.update(at, record), pts_us) == position_of(waiting, pts_us),
    decreases waiting.len(),
{
    let now = waiting.update(at, record);
    if at == 0 {
        assert(now.skip(1) =~= waiting.skip(1));
    } else {
        lemma_position_updated(waiting.skip(1), at - 1, record, pts_us);
        assert(now.skip(1) =~= waiting.skip(1).update(at - 1, record));
    }
}

/// A record behind the others changes no position that was there.
proof fn lemma_position_before(waiting: Seq<InFlight>, record: InFlight, pts_us: u64)
    requires
        record.pts_us != pts_us,
    ensures
        position_of(waiting.push(record), pts_us) == position_of(waiting, pts_us),
    decreases waiting.len(),
{
    let more = waiting.push(record);
    reveal_with_fuel(position_of, 2);
    if waiting.len() == 0 {
        assert(more.skip(1) =~= Seq::<InFlight>::empty());
    } else {
        lemma_position_before(waiting.skip(1), record, pts_us);
        assert(more.skip(1) =~= waiting.skip(1).push(record));
    }
}

/// Frames do not mix: what happens to one frame does not change what is reported of another,
/// whether that frame arrives (while there is room), is decoded or is presented.
pub proof fn law_frames_do_not_mix(
    waiting: Seq<InFlight>,
    limit: nat,
    pts_us: u64,
    time_us: u64,
    other: u64,
    present_us: u64,
)
    requires
        other != pts_us,
    ensures
        waiting.len() < limit ==> report_of(
            arrived(waiting, limit, pts_us, time_us),
            other,
            present_us,
        ) == report_of(waiting, other, present_us),
        report_of(decoded_at(waiting, pts_us, time_us), other, present_us) == report_of(
            waiting,
            other,
            present_us,
        ),
        report_of(presented(waiting, pts_us), other, present_us) == report_of(
            waiting,
            other,
            present_us,
        ),
{
    lemma_position_found(waiting, pts_us);
    lemma_position_found(waiting, other);
    lemma_position_before(waiting, InFlight { pts_us, arrive_us: time_us, decode_us: None }, other);
    match position_of(waiting, pts_us) {
        Some(i) => {
            lemma_position_elsewhere(waiting, i, other);
            lemma_position_updated(
                waiting,
                i,
                InFlight { decode_us: Some(time_us), ..waiting[i] },
                other,
            );
        },
        None => {},
    }
}

/// A frame that was not decoded has no report, and neither has one that is not known. A frame that
/// was decoded twice is reported with the later time.
pub proof fn law_report_needs_a_decode(
    waiting: Seq<InFlight>,
    limit: nat,
    pts_us: u64,
    arrive_us: u64,
    first_us: u64,
    again_us: u64,
    present_us: u64,
)
    requires
        position_of(waiting, pts_us) is None,
    ensures
        report_of(waiting, pts_us, present_us) is None,
        report_of(arrived(waiting, limit, pts_us, arrive_us), pts_us, present_us) is None,
        report_of(
            decoded_at(
                decoded_at(arrived(waiting, limit, pts_us, arrive_us), pts_us, first_us),
                pts_us,
                again_us,
            ),
            pts_us,
            present_us,
        ) == Some(FrameView::Stats { pts_us, arrive_us, decode_us: again_us, present_us }),
{
    let kept = if waiting.len() >= limit && waiting.len() > 0 {
        waiting.skip(1)
    } else {
        waiting
    };
    let record = InFlight { pts_us, arrive_us, decode_us: None };
    let once = InFlight { pts_us, arrive_us, decode_us: Some(first_us) };
    let twice = InFlight { pts_us, arrive_us, decode_us: Some(again_us) };
    lemma_position_of_new(kept, record);
    lemma_position_of_new(kept, once);
    lemma_position_of_new(kept, twice);
    assert(kept.push(record).update(kept.len() as int, once) =~= kept.push(once));
    assert(kept.push(once).update(kept.len() as int, twice) =~= kept.push(twice));
}

/// The client says what it can do: an offer of exactly that is accepted as it is.
pub proof fn law_client_accepts_its_own_limits(caps: ClientCapsView)
    requires
        caps.codecs.len() > 0,
    ensures
        negotiated(reply_of(caps), caps) == Ok::<AgreedConfig, NegotiationError>(
            AgreedConfig {
                width: caps.max_width,
                height: caps.max_height,
                refresh_hz: caps.max_refresh_hz,
                codec: caps.codecs[0],
            },
        ),
        caps_of(reply_of(caps)) == caps,
{
    assert(caps.codecs.contains(caps.codecs[0]));
    assert(caps_of(reply_of(caps)) =~= caps);
}

/// Frames are counted one by one, as far as a count goes.
pub proof fn law_frames_are_counted(n: nat)
    ensures
        n <= u64::MAX ==> counted(n) == n,
        n > u64::MAX ==> counted(n) == u64::MAX,
    decreases n,
{
    if n > 0 {
        law_frames_are_counted((n - 1) as nat);
    }
}

/// How many of some calls submit an access unit, or a keyframe.
pub open spec fn submissions(calls: Seq<DecoderCall>, keyframes_only: bool) -> nat
    decreases calls.len(),
{
    if calls.len() == 0 {
        0
    } else {
        submissions(calls.drop_last(), keyframes_only) + match calls.last() {
            DecoderCall::Decode { input, .. } => if input.keyframe || !keyframes_only {
                1nat
            } else {
                0nat
            },
            _ => 0nat,
        }
    }
}

proof fn lemma_submissions_concat(a: Seq<DecoderCall>, b: Seq<DecoderCall>, keyframes_only: bool)
    ensures
        submissions(a + b, keyframes_only) == submissions(a, keyframes_only) + submissions(
            b,
            keyframes_only,
        ),
    decreases b.len(),
{
    if b.len() == 0 {
        assert(a + b =~= a);
    } else {
        lemma_submissions_concat(a, b.drop_last(), keyframes_only);
        assert((a + b).drop_last() =~= a + b.drop_last());
    }
}

/// One frame that went well submits at most one access unit, and is counted as that.
proof fn lemma_frame_submits(
    pre: DecodeView,
    post: DecodeView,
    frame: FrameView,
    calls: Seq<DecoderCall>,
)
    requires
        fed(pre, post, frame, calls, Ok(())),
        pre.decoded < u64::MAX,
        pre.keyframes < u64::MAX,
    ensures
        post.decoded == pre.decoded + submissions(calls, false),
        post.keyframes == pre.keyframes + submissions(calls, true),
        submissions(calls, false) <= 1,
        submissions(calls, true) <= 1,
{
    let none = Seq::<DecoderCall>::empty();
    reveal_with_fuel(submissions, 3);
    assert(submissions(none, false) == 0 && submissions(none, true) == 0);
    if calls.len() == 0 {
        assert(calls =~= none);
    } else if calls.len() == 1 {
        assert(calls =~= none.push(calls[0]));
        assert(calls.drop_last() =~= none);
        assert(calls.skip(1) =~= none);
    } else {
        assert(frame is Video);
        assert(calls.skip(1).len() == calls.len() - 1);
        assert(calls.skip(1)[0] == calls[1]);
        assert(calls.skip(1).len() == 1);
        assert(calls.last() == calls[1]);
        assert(calls.drop_last() =~= none.push(calls[0]));
        assert(calls.drop_last().drop_last() =~= none);
    }
}

/// A session counts what the decoder was given: in a run of frames that went well, as many access
/// units as were submitted to it, and as many keyframes.
pub proof fn law_session_counts_submissions(
    pre: DecodeView,
    post: DecodeView,
    frames: Seq<FrameView>,
    calls: Seq<DecoderCall>,
)
    requires
        fed_all(pre, post, frames, calls),
        pre.decoded + frames.len() <= u64::MAX,
        pre.keyframes + frames.len() <= u64::MAX,
    ensures
        post.decoded == pre.decoded + submissions(calls, false),
        post.keyframes == pre.keyframes + submissions(calls, true),
        submissions(calls, false) <= frames.len(),
        submissions(calls, true) <= frames.len(),
    decreases frames.len(),
{
    if frames.len() > 0 {
        let (mid, n) = choose|mid: DecodeView, n: int|
            {
                &&& 0 <= n <= calls.len()
                &&& fed_all(pre, mid, frames.drop_last(), calls.take(n))
                &&& #[trigger] fed(mid, post, frames.last(), calls.skip(n), Ok(()))
            };
        law_session_counts_submissions(pre, mid, frames.drop_last(), calls.take(n));
        let more = calls.skip(n);
        assert(calls =~= calls.take(n) + more);
        lemma_submissions_concat(calls.take(n), more, false);
        lemma_submissions_concat(calls.take(n), more, true);
        lemma_frame_submits(mid, post, frames.last(), more);
    }
}

/// Only a goodbye of the host closes the application: a stream that just ends does not, and neither
/// does a session that failed.
pub proof fn law_only_goodbye_closes(
    pre: LinkState,
    post: LinkState,
    before: DecodeView,
    after: DecodeView,
    calls: Seq<DecoderCall>,
    s: SessionSummary,
    e: SessionError,
)
    requires
        loop_ended(
            pre,
            post,
            before,
            after,
            calls,
            Ok((s.frames_received, s.ended_by_host_bye)),
        ),
    ensures
        closes_after(Ok(s)) ==> ending(pre.incoming) is Bye,
        pre.faultless && ending(pre.incoming) is Bye ==> closes_after(Ok(s)),
        !closes_after(Err(e)),
{
}

/// The summary of a session is what happened: what was agreed on, how many access units and
/// keyframes the decoder was given, and whether it is configured.
pub proof fn law_summary_is_what_happened(
    pre: LinkState,
    post: LinkState,
    caps: ClientCapsView,
    before: DecodeView,
    after: DecodeView,
    calls: Seq<DecoderCall>,
    s: SessionSummary,
)
    requires
        session_ended(pre, post, caps, before, after, calls, Ok(s)),
        before.decoded == 0,
        before.keyframes == 0,
        pre.incoming.len() <= u64::MAX,
    ensures
        client_outcome(caps, pre.incoming) matches Ok(agreed) && s.agreed == Some(agreed),
        s.decoded_count == submissions(calls, false),
        s.keyframe_count == submissions(calls, true),
        s.configured == after.configured,
        post.sent == pre.sent + FrameView::Handshake(reply_of(caps)).wire(),
{
    let stream = after_frame(pre.incoming);
    let all = frames_until_end(stream);
    let n = choose|n: int| #[trigger] received_first(before, after, all, n, calls);
    lemma_message_shortens(pre.incoming);
    lemma_frames_fit(stream);
    assert(all.take(n).len() <= u64::MAX);
    law_session_counts_submissions(before, after, all.take(n), calls);
}

/// A stream holds no more frames than bytes.
proof fn lemma_frames_fit(bytes: Seq<u8>)
    ensures
        frames_until_end(bytes).len() <= bytes.len(),
    decreases bytes.len(),
{
    if let Ok(f) = next_message(bytes) {
        lemma_message_shortens(bytes);
        lemma_frames_fit(after_frame(bytes));
    }
}

/// What is no valid message ends a stream with its error, after all that came before it; only the
/// end of the stream itself is no error.
pub proof fn law_bad_message_fails(frames: Seq<FrameView>, rest: Seq<u8>, m: MessageError)
    requires
        forall|i: int|
            0 <= i < frames.len() ==> (#[trigger] frames[i]).fits() && frames[i].payload().len()
                <= MAX_FRAME_LEN && frames[i] != bye(),
        next_message(rest) == Err::<FrameView, MessageError>(m),
    ensures
        frames_until_end(wire_of(frames) + rest) == frames,
        m != MessageError::Io(IoError::UnexpectedEof) ==> ending(wire_of(frames) + rest)
            == Ending::Failed(m),
        m == MessageError::Io(IoError::UnexpectedEof) ==> ending(wire_of(frames) + rest)
            == Ending::Closed,
{
    lemma_received_run(frames, rest);
    assert(frames + Seq::<FrameView>::empty() =~= frames);
}

/// From end to end: what a host that shook hands and streamed has put on the link is, for the
/// client at the other end, first the host's offer and then the stream, every access unit of it
/// exactly once and in order; and nothing of it is held back.
pub proof fn law_session_reaches_the_client(
    pre: LinkState,
    post: LinkState,
    offer: HandshakeView,
    items: Seq<StreamItem>,
    s: SendSessionSummary,
)
    requires
        crate::macos_host::session::session_ended(pre, post, offer, items, Ok(s)),
        pre.sent.len() == 0,
        FrameView::Handshake(offer).fits(),
        all_sendable(
            items_frames(crate::macos_host::session::fresh_summary(s.agreed_config), items),
        ),
    ensures
        next_message(post.sent) == Ok::<FrameView, MessageError>(FrameView::Handshake(offer)),
        videos_in(frames_until_end(after_frame(post.sent))) == videos_of(items),
        ending(after_frame(post.sent)) == Ending::Closed,
        post.flushed == post.sent.len(),
{
    let start = crate::macos_host::session::fresh_summary(s.agreed_config);
    let hello = FrameView::Handshake(offer);
    let stream = wire_of(items_frames(start, items));
    assert(pre.sent + hello.wire() + stream =~= hello.wire() + stream);
    law_message_round_trip(hello, stream);
    law_stream_arrives_whole(start, items);
}

} // verus!
