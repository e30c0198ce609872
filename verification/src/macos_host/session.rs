//! The host's send sessions: handshake, clock sync, and the stream of frames.
//!
//! Every session follows one wire contract: `VideoConfig` goes out before every keyframe, so that
//! a decoder that joins late can always configure itself, `Video` follows for every access unit,
//! and every frame is flushed, as the link may buffer.

use std::collections::VecDeque;
use vstd::prelude::*;
use crate::count::{add_bytes, add_count, capped_count, capped_sum};
use crate::io::{ByteSink, IoError, LinkState, Transport};
use crate::io::{link_failed, link_failed_somehow, partly_sent, writes_only, LinkOp};
use crate::protocol::clock::{estimate, estimate_of, ClockOffset};
use crate::protocol::framing::{write_frame, MAX_FRAME_LEN};
use crate::protocol::framing::{after_frame, frame_bytes};
use crate::protocol::messages::{negotiate, tag, video_payload, AgreedConfig, ClientCaps, Control};
use crate::protocol::messages::{Frame, Handshake, MessageError, NegotiationError, VideoCodec};
use crate::protocol::messages::{lemma_no_message, lemma_wire_of_concat, negotiated};
use crate::protocol::messages::{next_message, wire_of};
use crate::protocol::messages::{ClientCapsView, FrameView, HandshakeView};
use crate::protocol::nal::{extract_codec_config, push_unit, CodecConfig};
use crate::protocol::nal::{annex_b, config_view, lemma_annex_b_two, CodecConfigView};
use crate::protocol::protocol_version;
use crate::time::{said_since, Clock};
use super::capture::{CapturedFrame, Capturer};
use super::encode::{EncodedFrame, Encoder, LatencyStats};
use super::encode::{config_after, inputs_of, outputs_of, EncodedView};
use super::latency::{HostStamps, PipelineLatency, ReportSink};
use super::latency::{dropped_recorded, host_recorded, stats_recorded, PipelineView, ReportView};
use super::latency::{law_each_stage_by_itself, law_nothing_evicted_with_room};
use super::latency::{law_store_is_bounded, one_more_sample};

verus! {

/// Errors during session setup or streaming.
#[derive(Debug, Clone, PartialEq, Eq)]
pub enum SessionError {
    /// A failure of the link.
    Io(IoError),
    /// A framing or message error.
    Message(MessageError),
    /// The handshake could not be reconciled.
    Negotiation(NegotiationError),
}

/// A [`SessionError`] by its values. That an unexpected frame came in place of the client's reply to
/// the handshake is an error of the framing layer, which holds the frame.
pub enum SessionErrorView {
    Io(IoError),
    Message(MessageError),
    Negotiation(NegotiationError),
    UnexpectedReply(FrameView),
}

impl View for SessionError {
    type V = SessionErrorView;

    open spec fn view(&self) -> SessionErrorView {
        match self {
            SessionError::Io(e) => SessionErrorView::Io(*e),
            SessionError::Message(MessageError::Io(IoError::UnexpectedReply(f))) => {
                SessionErrorView::UnexpectedReply(f@)
            },
            SessionError::Message(e) => SessionErrorView::Message(*e),
            SessionError::Negotiation(e) => SessionErrorView::Negotiation(*e),
        }
    }
}

/// The outcome of a handshake by its values.
pub open spec fn outcome_view(r: Result<AgreedConfig, SessionError>) -> Result<
    AgreedConfig,
    SessionErrorView,
> {
    match r {
        Ok(agreed) => Ok(agreed),
        Err(e) => Err(e@),
    }
}

/// Whether `e` comes from a link that failed on the way from `pre` to `post`: a failed flush is a
/// failure of the link as such, and a failed read or write one of the framing layer.
pub open spec fn link_broke(pre: LinkState, post: LinkState, e: SessionError) -> bool {
    match e {
        SessionError::Io(x) => link_failed(pre, post, LinkOp::Flush, x),
        SessionError::Message(MessageError::Io(x)) => {
            ||| link_failed(pre, post, LinkOp::Read, x)
            ||| link_failed(pre, post, LinkOp::Write, x)
        },
        _ => false,
    }
}

/// Summary of a host send session.
#[derive(Debug, Clone, PartialEq, Eq)]
pub struct SendSessionSummary {
    /// Number of frames sent.
    pub frames: u64,
    /// Total bytes of the frames that were written after the handshake.
    pub bytes_sent: usize,
    /// Codec config from the first keyframe that carried one.
    pub codec_config: Option<CodecConfig>,
    /// Per-frame encode latency.
    pub latency: LatencyStats,
    /// The negotiated configuration.
    pub agreed_config: AgreedConfig,
}

/// A [`SendSessionSummary`] by its values.
#[verifier::ext_equal]
pub struct SummaryView {
    pub frames: u64,
    pub bytes_sent: usize,
    pub codec_config: Option<CodecConfigView>,
    pub latency: Seq<u64>,
    pub agreed_config: AgreedConfig,
}

impl View for SendSessionSummary {
    type V = SummaryView;

    open spec fn view(&self) -> SummaryView {
        SummaryView {
            frames: self.frames,
            bytes_sent: self.bytes_sent,
            codec_config: config_view(self.codec_config),
            latency: self.latency@,
            agreed_config: self.agreed_config,
        }
    }
}

/// The summary of a session that has sent nothing yet.
pub open spec fn fresh_summary(agreed: AgreedConfig) -> SummaryView {
    SummaryView {
        frames: 0,
        bytes_sent: 0,
        codec_config: None,
        latency: Seq::empty(),
        agreed_config: agreed,
    }
}

fn new_summary(agreed: AgreedConfig) -> (s: SendSessionSummary)
    ensures
        s@ == fresh_summary(agreed),
{
    SendSessionSummary {
        frames: 0,
        bytes_sent: 0,
        codec_config: None,
        latency: LatencyStats::new(),
        agreed_config: agreed,
    }
}

/// The capabilities that the client's reply stands for: its maxima in the fields of an offer.
pub open spec fn caps_of(reply: HandshakeView) -> ClientCapsView {
    ClientCapsView {
        protocol_version: reply.protocol_version,
        max_width: reply.width,
        max_height: reply.height,
        max_refresh_hz: reply.refresh_hz,
        codecs: reply.codecs,
    }
}

/// Whether a frame is short enough to be sent.
pub open spec fn sendable(f: FrameView) -> bool {
    f.payload().len() <= MAX_FRAME_LEN
}

/// What the handshake comes to when the client answers with `incoming`.
pub open spec fn handshake_outcome(offer: HandshakeView, incoming: Seq<u8>) -> Result<
    AgreedConfig,
    SessionErrorView,
> {
    if !sendable(FrameView::Handshake(offer)) {
        Err(SessionErrorView::Message(MessageError::Io(IoError::PayloadTooLong)))
    } else {
        match next_message(incoming) {
            Err(m) => Err(SessionErrorView::Message(m)),
            Ok(FrameView::Handshake(reply)) => match negotiated(offer, caps_of(reply)) {
                Ok(agreed) => Ok(agreed),
                Err(n) => Err(SessionErrorView::Negotiation(n)),
            },
            Ok(f) => Err(SessionErrorView::UnexpectedReply(f)),
        }
    }
}

/// What the handshake does to a link that holds up.
pub open spec fn handshake_done(pre: LinkState, post: LinkState, offer: HandshakeView) -> bool {
    &&& post.fault == pre.fault
    &&& if sendable(FrameView::Handshake(offer)) {
        &&& post.sent == pre.sent + FrameView::Handshake(offer).wire()
        &&& post.all_flushed()
        &&& post.incoming == after_frame(pre.incoming)
    } else {
        &&& post.sent == pre.sent
        &&& post.incoming == pre.incoming
    }
}

/// Perform the host side of the handshake: send the offer, flush, read the client's reply, which
/// holds its capabilities in the fields of an offer, and reconcile the two.
pub fn perform_handshake<T: Transport>(transport: &mut T, offer: Handshake) -> (r: Result<
    AgreedConfig,
    SessionError,
>)
    ensures
        final(transport).state().faultless == old(transport).state().faultless,
        final(transport).state().stalled == old(transport).state().stalled,
        ({
            let pre = old(transport).state();
            let post = final(transport).state();
            ||| {
                &&& r matches Err(e) && link_broke(pre, post, e)
                &&& partly_sent(pre, post, FrameView::Handshake(offer@).wire())
            }
            ||| {
                &&& outcome_view(r) == handshake_outcome(offer@, pre.incoming)
                &&& handshake_done(pre, post, offer@)
            }
        }),
{
    let hello = Frame::Handshake(offer.copy());
    match hello.write_to(transport) {
        Ok(_) => {},
        Err(e) => {
            return Err(SessionError::Message(e));
        },
    }
    match transport.flush() {
        Ok(_) => {},
        Err(e) => {
            return Err(SessionError::Io(e));
        },
    }
    proof {
        lemma_no_message(transport.state().incoming);
    }
    let reply = match Frame::read_from(transport) {
        Ok(Frame::Handshake(h)) => h,
        Ok(other) => {
            return Err(SessionError::Message(MessageError::Io(IoError::UnexpectedReply(other))));
        },
        Err(e) => {
            return Err(SessionError::Message(e));
        },
    };
    let caps = ClientCaps {
        protocol_version: reply.protocol_version,
        max_width: reply.width,
        max_height: reply.height,
        max_refresh_hz: reply.refresh_hz,
        codecs: reply.codecs,
    };
    match negotiate(&offer, &caps) {
        Ok(agreed) => Ok(agreed),
        Err(n) => Err(SessionError::Negotiation(n)),
    }
}

/// Why a clock-sync exchange failed.
#[derive(Debug, Clone, PartialEq, Eq)]
pub enum ClockSyncError {
    /// The reply was not a `ClockPong`.
    UnexpectedReply,
    /// A framing, message or link error.
    Message(MessageError),
}

/// What a clock exchange comes to, given the reply and the host times at its two ends. The host's
/// own sending time counts, whatever the reply echoes.
pub open spec fn sync_outcome(reply: FrameView, t0: u64, t3: u64) -> Result<
    ClockOffset,
    ClockSyncError,
> {
    match reply {
        FrameView::ClockPong { t0_us: _, t1_us, t2_us } => Ok(estimate_of(t0, t1_us, t2_us, t3)),
        _ => Err(ClockSyncError::UnexpectedReply),
    }
}

/// The result of a clock exchange whose reply has been read.
pub fn clock_sync_result(reply: Frame, t0: u64, t3: u64) -> (r: Result<ClockOffset, ClockSyncError>)
    ensures
        r == sync_outcome(reply@, t0, t3),
{
    match reply {
        Frame::ClockPong { t0_us: _, t1_us, t2_us } => Ok(estimate(t0, t1_us, t2_us, t3)),
        _ => Err(ClockSyncError::UnexpectedReply),
    }
}

/// The effect of a clock exchange in which the host's clock said `said`: the time of the ping and,
/// if there is a reply, the time of its arrival.
pub open spec fn clock_synced(
    pre: LinkState,
    post: LinkState,
    said: Seq<u64>,
    r: Result<ClockOffset, ClockSyncError>,
) -> bool {
    let ping = (FrameView::ClockPing { t0_us: said[0] }).wire();
    &&& {
        ||| {
            &&& r matches Err(ClockSyncError::Message(MessageError::Io(e))) && link_failed_somehow(
                pre,
                post,
                e,
            )
            &&& partly_sent(pre, post, ping)
            &&& said.len() == 1
        }
        ||| {
            &&& match next_message(pre.incoming) {
                Err(m) => {
                    &&& said.len() == 1
                    &&& r == Err::<ClockOffset, ClockSyncError>(ClockSyncError::Message(m))
                },
                Ok(reply) => {
                    &&& said.len() == 2
                    &&& r == sync_outcome(reply, said[0], said[1])
                },
            }
            &&& post.sent == pre.sent + ping
            &&& post.all_flushed()
            &&& post.incoming == after_frame(pre.incoming)
            &&& post.fault == pre.fault
        }
    }
}

/// Run one clock-sync exchange. `clock` supplies host time: it is asked once before the ping and
/// once after the reply has come.
pub fn perform_clock_sync<T: Transport, C: Clock>(transport: &mut T, clock: &mut C) -> (r: Result<
    ClockOffset,
    ClockSyncError,
>)
    requires
        old(clock).running(),
    ensures
        final(transport).state().faultless == old(transport).state().faultless,
        final(transport).state().stalled == old(transport).state().stalled,
        final(clock).running(),
        old(clock).log().is_prefix_of(final(clock).log()),
        clock_synced(
            old(transport).state(),
            final(transport).state(),
            said_since(old(clock).log(), final(clock).log()),
            r,
        ),
{
    let ghost before = clock.log();
    let t0: u64 = clock.now_us();
    let ping = Frame::ClockPing { t0_us: t0 };
    proof {
        crate::protocol::messages::lemma_ping_sendable(t0);
        assert(said_since(before, clock.log()) =~= seq![t0]);
    }
    match ping.write_to(transport) {
        Ok(_) => {},
        Err(e) => {
            return Err(ClockSyncError::Message(e));
        },
    }
    match transport.flush() {
        Ok(_) => {},
        Err(e) => {
            return Err(ClockSyncError::Message(MessageError::Io(e)));
        },
    }
    let reply: Frame = match Frame::read_from(transport) {
        Ok(reply) => reply,
        Err(e) => {
            return Err(ClockSyncError::Message(e));
        },
    };
    let t3: u64 = clock.now_us();
    proof {
        assert(said_since(before, clock.log()) =~= seq![t0, t3]);
    }
    clock_sync_result(reply, t0, t3)
}

/// A codec configuration as the payload of a `VideoConfig`: the two parameter sets as an Annex-B
/// stream.
pub fn codec_config_to_annex_b(config: &CodecConfig) -> (out: Vec<u8>)
    ensures
        out@ == annex_b(seq![config@.sps, config@.pps]),
{
    let mut out: Vec<u8> = Vec::new();
    push_unit(&mut out, config.sps.as_slice());
    push_unit(&mut out, config.pps.as_slice());
    proof {
        lemma_annex_b_two(config@.sps, config@.pps);
        assert(out@ =~= annex_b(seq![config@.sps, config@.pps]));
    }
    out
}

/// The frames that one access unit puts on the wire: on a keyframe the configuration, as far as it
/// is known, then the access unit.
pub open spec fn frames_for(
    e: EncodedView,
    config: Option<CodecConfigView>,
    codec: VideoCodec,
) -> Seq<FrameView> {
    let video = FrameView::Video { pts_us: e.pts_us, keyframe: e.keyframe, nal: e.annex_b };
    match config {
        Some(c) => if e.keyframe {
            seq![FrameView::VideoConfig { codec, sps_pps: annex_b(seq![c.sps, c.pps]) }, video]
        } else {
            seq![video]
        },
        None => seq![video],
    }
}

/// Whether every one of `frames` is short enough to be sent.
pub open spec fn all_sendable(frames: Seq<FrameView>) -> bool {
    forall|i: int| 0 <= i < frames.len() ==> sendable(#[trigger] frames[i])
}

/// Write one payload and add its frame to the byte count.
fn send_payload<W: ByteSink>(w: &mut W, t: u8, payload: &Vec<u8>, total: &mut usize) -> (r: Result<
    (),
    SessionError,
>)
    ensures
        writes_only(old(w).state(), final(w).state()),
        match r {
            Ok(_) => {
                &&& payload@.len() <= MAX_FRAME_LEN
                &&& final(w).state().sent == old(w).state().sent + frame_bytes(t, payload@)
                &&& final(w).state().fault == old(w).state().fault
                &&& *final(total) == capped_sum(
                    *old(total) as int,
                    frame_bytes(t, payload@).len() as int,
                )
            },
            Err(e) => {
                &&& partly_sent(old(w).state(), final(w).state(), frame_bytes(t, payload@))
                &&& {
                    ||| link_broke(old(w).state(), final(w).state(), e)
                    ||| {
                        &&& e == SessionError::Message(MessageError::Io(IoError::PayloadTooLong))
                        &&& payload@.len() > MAX_FRAME_LEN
                    }
                }
            },
        },
{
    match write_frame(w, t, payload.as_slice()) {
        Ok(_) => {
            *total = add_bytes(*total, 5);
            *total = add_bytes(*total, payload.len());
            Ok(())
        },
        Err(e) => Err(SessionError::Message(MessageError::Io(e))),
    }
}

/// Send one access unit: remember the codec configuration of the first keyframe that carries one,
/// send it ahead of every keyframe, then the access unit, then flush.
#[verifier::spinoff_prover]
#[verifier::rlimit(30)]
fn send_encoded_frame<W: ByteSink>(
    e: &EncodedFrame,
    w: &mut W,
    total: &mut usize,
    codec_config: &mut Option<CodecConfig>,
    codec: VideoCodec,
) -> (r: Result<(), SessionError>)
    ensures
        writes_only(old(w).state(), final(w).state()),
        config_view(*final(codec_config)) == config_after(config_view(*old(codec_config)), e@),
        ({
            let frames = frames_for(e@, config_view(*final(codec_config)), codec);
            match r {
                Ok(_) => {
                    &&& all_sendable(frames)
                    &&& final(w).state().sent == old(w).state().sent + wire_of(frames)
                    &&& final(w).state().all_flushed()
                    &&& final(w).state().fault == old(w).state().fault
                    &&& *final(total) == capped_sum(
                        *old(total) as int,
                        wire_of(frames).len() as int,
                    )
                },
                Err(err) => {
                    &&& partly_sent(old(w).state(), final(w).state(), wire_of(frames))
                    &&& {
                        ||| link_broke(old(w).state(), final(w).state(), err)
                        ||| {
                            &&& err == SessionError::Message(
                                MessageError::Io(IoError::PayloadTooLong),
                            )
                            &&& !all_sendable(frames)
                        }
                    }
                },
            }
        }),
{
    let ghost pre = w.state();
    let ghost count = *total;
    if codec_config.is_none() && e.keyframe {
        *codec_config = extract_codec_config(e.annex_b.as_slice());
    }
    let ghost known = config_view(*codec_config);
    let ghost frames = frames_for(e@, known, codec);
    let ghost video = frames.last();
    proof {
        assert(wire_of(frames) == wire_of(frames.drop_last()) + video.wire());
        assert(frames.drop_last().len() == 0 ==> wire_of(frames.drop_last()) =~= Seq::<u8>::empty());
        assert(video == frames[frames.len() - 1]);
    }
    if e.keyframe {
        if let Some(config) = codec_config.as_ref() {
            let frame = Frame::VideoConfig { codec, sps_pps: codec_config_to_annex_b(config) };
            proof {
                assert(frames[0] == frame@);
                assert(frames.drop_last() =~= seq![frame@]);
                assert(wire_of(seq![frame@].drop_last()) =~= Seq::<u8>::empty());
                assert(wire_of(frames.drop_last()) =~= frame@.wire());
            }
            match frame.to_tag_payload() {
                Ok((t, payload)) => {
                    match send_payload(w, t, &payload, total) {
                        Ok(_) => {},
                        Err(err) => {
                            return Err(err);
                        },
                    }
                },
                Err(err) => {
                    return Err(SessionError::Message(err));
                },
            }
        }
    }
    let ghost mid = w.state();
    proof {
        assert(mid.sent =~= pre.sent + wire_of(frames.drop_last()));
        assert(*total == capped_sum(count as int, wire_of(frames.drop_last()).len() as int));
    }
    let payload = video_payload(e.pts_us, e.keyframe, &e.annex_b);
    match send_payload(w, tag::VIDEO, &payload, total) {
        Ok(_) => {},
        Err(err) => {
            return Err(err);
        },
    }
    proof {
        assert(w.state().sent =~= pre.sent + wire_of(frames));
    }
    match w.flush() {
        Ok(_) => Ok(()),
        Err(err) => Err(SessionError::Io(err)),
    }
}

/// One thing that a stream sends: an access unit, or a heartbeat while it is idle.
pub enum StreamItem {
    Unit(EncodedView),
    Heartbeat,
}

/// The summary once an access unit has been sent.
pub open spec fn unit_sent(s: SummaryView, e: EncodedView) -> SummaryView {
    let config = config_after(s.codec_config, e);
    SummaryView {
        frames: capped_count(s.frames, 1),
        bytes_sent: capped_sum(
            s.bytes_sent as int,
            wire_of(frames_for(e, config, s.agreed_config.codec)).len() as int,
        ) as usize,
        codec_config: config,
        latency: s.latency.push(e.encode_micros),
        ..s
    }
}

/// The frame of a heartbeat.
pub open spec fn heartbeat() -> FrameView {
    FrameView::Control(Control::Heartbeat)
}

/// The summary once a heartbeat has been sent.
pub open spec fn heartbeat_sent(s: SummaryView) -> SummaryView {
    SummaryView {
        bytes_sent: capped_sum(s.bytes_sent as int, heartbeat().wire().len() as int) as usize,
        ..s
    }
}

/// The summary once one thing has been sent.
#[verifier::opaque]
pub open spec fn item_sent(s: SummaryView, item: StreamItem) -> SummaryView {
    match item {
        StreamItem::Unit(e) => unit_sent(s, e),
        StreamItem::Heartbeat => heartbeat_sent(s),
    }
}

/// The summary once several things have been sent.
pub open spec fn items_sent(s: SummaryView, items: Seq<StreamItem>) -> SummaryView
    decreases items.len(),
{
    if items.len() == 0 {
        s
    } else {
        item_sent(items_sent(s, items.drop_last()), items.last())
    }
}

/// The frames of one thing, sent by a session with the summary `s`.
#[verifier::opaque]
pub open spec fn item_frames(s: SummaryView, item: StreamItem) -> Seq<FrameView> {
    match item {
        StreamItem::Unit(e) => frames_for(
            e,
            config_after(s.codec_config, e),
            s.agreed_config.codec,
        ),
        StreamItem::Heartbeat => seq![heartbeat()],
    }
}

/// The frames of several things, in order.
pub open spec fn items_frames(s: SummaryView, items: Seq<StreamItem>) -> Seq<FrameView>
    decreases items.len(),
{
    if items.len() == 0 {
        Seq::empty()
    } else {
        items_frames(s, items.drop_last()) + item_frames(
            items_sent(s, items.drop_last()),
            items.last(),
        )
    }
}

/// The access units of a run of the encoder, as things to send.
pub open spec fn units(frames: Seq<EncodedView>) -> Seq<StreamItem> {
    Seq::new(frames.len(), |i: int| StreamItem::Unit(frames[i]))
}

/// One more thing, sent behind the others.
proof fn lemma_item_added(s: SummaryView, items: Seq<StreamItem>, item: StreamItem)
    ensures
        items_sent(s, items.push(item)) == item_sent(items_sent(s, items), item),
        items_frames(s, items.push(item)) == items_frames(s, items) + item_frames(
            items_sent(s, items),
            item,
        ),
        wire_of(items_frames(s, items.push(item))) == wire_of(items_frames(s, items)) + wire_of(
            item_frames(items_sent(s, items), item),
        ),
{
    assert(items.push(item).drop_last() =~= items);
    lemma_wire_of_concat(items_frames(s, items), item_frames(items_sent(s, items), item));
}

/// What sending one thing does to a link and a summary.
pub open spec fn item_step(
    pre: LinkState,
    post: LinkState,
    before: SummaryView,
    after: SummaryView,
    item: StreamItem,
    r: Result<(), SessionError>,
) -> bool {
    &&& writes_only(pre, post)
    &&& match r {
        Ok(_) => {
            &&& all_sendable(item_frames(before, item))
            &&& post.sent == pre.sent + wire_of(item_frames(before, item))
            &&& post.all_flushed()
            &&& post.fault == pre.fault
            &&& after == item_sent(before, item)
        },
        Err(err) => {
            &&& partly_sent(pre, post, wire_of(item_frames(before, item)))
            &&& {
                ||| link_broke(pre, post, err)
                ||| {
                    &&& err == SessionError::Message(MessageError::Io(IoError::PayloadTooLong))
                    &&& !all_sendable(item_frames(before, item))
                }
            }
        },
    }
}

/// Send one access unit and account for it.
fn stream_unit<W: ByteSink>(summary: &mut SendSessionSummary, e: &EncodedFrame, w: &mut W) -> (r:
    Result<(), SessionError>)
    ensures
        item_step(
            old(w).state(),
            final(w).state(),
            old(summary)@,
            final(summary)@,
            StreamItem::Unit(e@),
            r,
        ),
{
    proof {
        reveal(item_sent);
        reveal(item_frames);
    }
    let codec: VideoCodec = summary.agreed_config.codec;
    match send_encoded_frame(e, w, &mut summary.bytes_sent, &mut summary.codec_config, codec) {
        Ok(_) => {},
        Err(err) => {
            return Err(err);
        },
    }
    summary.latency.record(e.encode_micros);
    summary.frames = add_count(summary.frames, 1);
    Ok(())
}

/// Send one heartbeat and account for it: on an idle stream it makes a dead link show.
fn stream_heartbeat<W: ByteSink>(summary: &mut SendSessionSummary, w: &mut W) -> (r: Result<
    (),
    SessionError,
>)
    ensures
        item_step(
            old(w).state(),
            final(w).state(),
            old(summary)@,
            final(summary)@,
            StreamItem::Heartbeat,
            r,
        ),
{
    proof {
        reveal(item_sent);
        reveal(item_frames);
    }
    let beat = Frame::Control(Control::Heartbeat);
    proof {
        crate::protocol::messages::lemma_control_sendable(Control::Heartbeat);
        reveal_with_fuel(wire_of, 2);
        assert(seq![heartbeat()].drop_last() =~= Seq::<FrameView>::empty());
        assert(wire_of(seq![heartbeat()]) =~= heartbeat().wire());
    }
    match beat.to_tag_payload() {
        Ok((t, payload)) => {
            match send_payload(w, t, &payload, &mut summary.bytes_sent) {
                Ok(_) => {},
                Err(err) => {
                    return Err(err);
                },
            }
        },
        Err(err) => {
            return Err(SessionError::Message(err));
        },
    }
    match w.flush() {
        Ok(_) => Ok(()),
        Err(err) => Err(SessionError::Io(err)),
    }
}

/// What a link and a summary look like after `items` were sent from the link state `pre` by a
/// session that began with `start`.
pub open spec fn streamed(
    pre: LinkState,
    post: LinkState,
    start: SummaryView,
    after: SummaryView,
    items: Seq<StreamItem>,
) -> bool {
    &&& writes_only(pre, post)
    &&& post.sent == pre.sent + wire_of(items_frames(start, items))
    &&& all_sendable(items_frames(start, items))
    &&& (pre.all_flushed() ==> post.all_flushed())
    &&& post.fault == pre.fault
    &&& after == items_sent(start, items)
}

proof fn lemma_nothing_streamed(pre: LinkState, start: SummaryView)
    ensures
        streamed(pre, pre, start, start, Seq::empty()),
{
    assert(pre.sent + wire_of(items_frames(start, Seq::empty())) =~= pre.sent);
}

proof fn lemma_streamed_more(
    pre: LinkState,
    mid: LinkState,
    post: LinkState,
    start: SummaryView,
    before: SummaryView,
    after: SummaryView,
    items: Seq<StreamItem>,
    item: StreamItem,
)
    requires
        streamed(pre, mid, start, before, items),
        item_step(mid, post, before, after, item, Ok(())),
    ensures
        streamed(pre, post, start, after, items.push(item)),
{
    lemma_item_added(start, items, item);
    let had = items_frames(start, items);
    let new = item_frames(before, item);
    assert(post.sent =~= pre.sent + wire_of(items_frames(start, items.push(item))));
    assert forall|i: int| 0 <= i < (had + new).len() implies sendable(#[trigger] (had + new)[i]) by {
        if i >= had.len() {
            assert((had + new)[i] == new[i - had.len()]);
        } else {
            assert((had + new)[i] == had[i]);
        }
    }
}

/// How a session that shook hands and then streamed `items` ended.
pub open spec fn session_ended(
    pre: LinkState,
    post: LinkState,
    offer: HandshakeView,
    items: Seq<StreamItem>,
    r: Result<SendSessionSummary, SessionError>,
) -> bool {
    let hello = FrameView::Handshake(offer);
    match r {
        Ok(s) => {
            &&& handshake_outcome(offer, pre.incoming) == Ok::<AgreedConfig, SessionErrorView>(
                s.agreed_config,
            )
            &&& s@ == items_sent(fresh_summary(s.agreed_config), items)
            &&& post.sent == pre.sent + hello.wire() + wire_of(
                items_frames(fresh_summary(s.agreed_config), items),
            )
            &&& post.all_flushed()
            &&& post.incoming == after_frame(pre.incoming)
            &&& post.fault == pre.fault
        },
        Err(e) => {
            let stream = match handshake_outcome(offer, pre.incoming) {
                Ok(agreed) => items_frames(fresh_summary(agreed), items),
                Err(_) => Seq::empty(),
            };
            &&& partly_sent(pre, post, hello.wire() + wire_of(stream))
            &&& {
                ||| link_broke(pre, post, e)
                ||| handshake_outcome(offer, pre.incoming) == Err::<AgreedConfig, _>(e@)
                ||| {
                    &&& e == SessionError::Message(MessageError::Io(IoError::PayloadTooLong))
                    &&& handshake_outcome(offer, pre.incoming) is Ok
                    &&& !all_sendable(stream)
                }
            }
        },
    }
}

/// How streaming `items` from the link state `pre` ended.
pub open spec fn stream_ended(
    pre: LinkState,
    post: LinkState,
    start: SummaryView,
    after: SummaryView,
    items: Seq<StreamItem>,
    r: Result<(), SessionError>,
) -> bool {
    match r {
        Ok(_) => streamed(pre, post, start, after, items),
        Err(e) => {
            &&& writes_only(pre, post)
            &&& partly_sent(pre, post, wire_of(items_frames(start, items)))
            &&& {
                ||| link_broke(pre, post, e)
                ||| {
                    &&& e == SessionError::Message(MessageError::Io(IoError::PayloadTooLong))
                    &&& !all_sendable(items_frames(start, items))
                }
            }
        },
    }
}

/// Pull, encode and send up to `max_frames` frames.
#[verifier::spinoff_prover]
fn stream_captured<C: Capturer, E: Encoder, W: ByteSink>(
    capturer: &mut C,
    encoder: &mut E,
    w: &mut W,
    summary: &mut SendSessionSummary,
    max_frames: u64,
) -> (r: Result<(), SessionError>)
    ensures
        old(encoder).produced().is_prefix_of(final(encoder).produced()),
        ({
            let run = final(encoder).produced().skip(old(encoder).produced().len() as int);
            &&& final(capturer).delivered() == old(capturer).delivered() + inputs_of(run)
            &&& run.len() <= max_frames
            &&& stream_ended(
                old(w).state(),
                final(w).state(),
                old(summary)@,
                final(summary)@,
                units(outputs_of(run)),
                r,
            )
            &&& r is Ok ==> run.len() == max_frames || final(capturer).ended()
        }),
{
    let ghost pre = w.state();
    let ghost start = summary@;
    let ghost made = encoder.produced();
    let ghost seen = capturer.delivered();
    let mut sent: u64 = 0;
    proof {
        let none = Seq::<(CapturedFrame, EncodedView)>::empty();
        assert(made.skip(made.len() as int) =~= none);
        assert(seen + inputs_of(none) =~= seen);
        assert(units(outputs_of(none)) =~= Seq::<StreamItem>::empty());
        lemma_nothing_streamed(pre, start);
    }
    while sent < max_frames
        invariant
            pre == old(w).state(),
            start == old(summary)@,
            made == old(encoder).produced(),
            seen == old(capturer).delivered(),
            made.is_prefix_of(encoder.produced()),
            sent <= max_frames,
            encoder.produced().skip(made.len() as int).len() == sent,
            capturer.delivered() == seen + inputs_of(encoder.produced().skip(made.len() as int)),
            streamed(
                pre,
                w.state(),
                start,
                summary@,
                units(outputs_of(encoder.produced().skip(made.len() as int))),
            ),
        ensures
            sent == max_frames || capturer.ended(),
        decreases max_frames - sent,
    {
        let ghost run = encoder.produced().skip(made.len() as int);
        let ghost items = units(outputs_of(run));
        let ghost mid = w.state();
        let ghost before = summary@;
        let captured: CapturedFrame = match capturer.next_frame() {
            Some(captured) => captured,
            None => {
                break;
            },
        };
        let encoded: EncodedFrame = encoder.encode(&captured);
        let ghost now = encoder.produced().skip(made.len() as int);
        let ghost item = StreamItem::Unit(encoded@);
        proof {
            assert(now =~= run.push((captured, encoded@)));
            assert(inputs_of(now) =~= inputs_of(run).push(captured));
            assert(capturer.delivered() =~= seen + inputs_of(now));
            assert(units(outputs_of(now)) =~= items.push(item));
        }
        match stream_unit(summary, &encoded, w) {
            Ok(_) => {},
            Err(e) => {
                proof {
                    lemma_stream_broken(pre, mid, w.state(), start, before, summary@, items, item, e);
                }
                return Err(e);
            },
        }
        proof {
            lemma_streamed_more(pre, mid, w.state(), start, before, summary@, items, item);
        }
        sent = sent + 1;
    }
    Ok(())
}

proof fn lemma_stream_broken(
    pre: LinkState,
    mid: LinkState,
    post: LinkState,
    start: SummaryView,
    before: SummaryView,
    after: SummaryView,
    items: Seq<StreamItem>,
    item: StreamItem,
    e: SessionError,
)
    requires
        streamed(pre, mid, start, before, items),
        item_step(mid, post, before, after, item, Err(e)),
    ensures
        stream_ended(pre, post, start, after, items.push(item), Err(e)),
{
    lemma_item_added(start, items, item);
    lemma_unsendable(items_frames(start, items), item_frames(before, item));
}

/// Streaming behind a handshake is a session.
proof fn lemma_session(
    pre: LinkState,
    ready: LinkState,
    post: LinkState,
    offer: HandshakeView,
    agreed: AgreedConfig,
    items: Seq<StreamItem>,
    after: SendSessionSummary,
    r: Result<(), SessionError>,
)
    requires
        handshake_outcome(offer, pre.incoming) == Ok::<AgreedConfig, SessionErrorView>(agreed),
        handshake_done(pre, ready, offer),
        ready.faultless == pre.faultless,
        ready.stalled == pre.stalled,
        stream_ended(ready, post, fresh_summary(agreed), after@, items, r),
    ensures
        post.stalled == pre.stalled,
        match r {
            Ok(_) => session_ended(pre, post, offer, items, Ok(after)),
            Err(e) => session_ended(pre, post, offer, items, Err(e)),
        },
{
    if r is Ok {
        lemma_agreed_stays(fresh_summary(agreed), items);
    }
}

/// Sending keeps the agreed configuration.
proof fn lemma_agreed_stays(s: SummaryView, items: Seq<StreamItem>)
    ensures
        items_sent(s, items).agreed_config == s.agreed_config,
    decreases items.len(),
{
    reveal(item_sent);
    if items.len() > 0 {
        lemma_agreed_stays(s, items.drop_last());
    }
}

/// Drive a send session for up to `max_frames` frames: shake hands, then pull frames from
/// `capturer`, encode them with `encoder` and send them.
#[verifier::spinoff_prover]
pub fn run_send_session<C: Capturer, E: Encoder, T: Transport>(
    capturer: &mut C,
    encoder: &mut E,
    transport: &mut T,
    offer: Handshake,
    max_frames: u64,
) -> (r: Result<SendSessionSummary, SessionError>)
    ensures
        final(transport).state().stalled == old(transport).state().stalled,
        old(encoder).produced().is_prefix_of(final(encoder).produced()),
        ({
            let run = final(encoder).produced().skip(old(encoder).produced().len() as int);
            &&& final(capturer).delivered() == old(capturer).delivered() + inputs_of(run)
            &&& run.len() <= max_frames
            &&& session_ended(
                old(transport).state(),
                final(transport).state(),
                offer@,
                units(outputs_of(run)),
                r,
            )
            &&& r is Ok ==> run.len() == max_frames || final(capturer).ended()
            &&& handshake_outcome(offer@, old(transport).state().incoming) is Err ==> run.len() == 0
        }),
{
    let ghost pre = transport.state();
    let ghost view = offer@;
    proof {
        let made = encoder.produced();
        let none = Seq::<(CapturedFrame, EncodedView)>::empty();
        assert(made.skip(made.len() as int) =~= none);
        assert(capturer.delivered() + inputs_of(none) =~= capturer.delivered());
        assert(units(outputs_of(none)) =~= Seq::<StreamItem>::empty());
    }
    let agreed: AgreedConfig = match perform_handshake(transport, offer) {
        Ok(agreed) => agreed,
        Err(e) => {
            return Err(e);
        },
    };
    let ghost ready = transport.state();
    let mut summary = new_summary(agreed);
    let r = stream_captured(capturer, encoder, transport, &mut summary, max_frames);
    proof {
        let run = encoder.produced().skip(old(encoder).produced().len() as int);
        lemma_session(
            pre,
            ready,
            transport.state(),
            view,
            agreed,
            units(outputs_of(run)),
            summary,
            r,
        );
    }
    match r {
        Ok(_) => Ok(summary),
        Err(e) => Err(e),
    }
}

/// A list with an unsendable tail is unsendable.
proof fn lemma_unsendable(a: Seq<FrameView>, b: Seq<FrameView>)
    ensures
        all_sendable(a + b) ==> all_sendable(b),
{
    if all_sendable(a + b) {
        assert forall|i: int| 0 <= i < b.len() implies sendable(#[trigger] b[i]) by {
            assert((a + b)[a.len() + i] == b[i]);
        }
    }
}

/// The frames of a longer run begin with those of a shorter one.
proof fn lemma_items_prefix(s: SummaryView, items: Seq<StreamItem>, n: int)
    requires
        0 <= n <= items.len(),
    ensures
        items_frames(s, items.take(n)).is_prefix_of(items_frames(s, items)),
        wire_of(items_frames(s, items.take(n))).is_prefix_of(wire_of(items_frames(s, items))),
        all_sendable(items_frames(s, items)) ==> all_sendable(items_frames(s, items.take(n))),
    decreases items.len(),
{
    let whole = items_frames(s, items);
    let part = items_frames(s, items.take(n));
    if n == items.len() {
        assert(items.take(n) =~= items);
    } else {
        lemma_items_prefix(s, items.drop_last(), n);
        assert(items.drop_last().take(n) =~= items.take(n));
    }
    assert(part.is_prefix_of(whole));
    let rest = whole.skip(part.len() as int);
    assert(whole =~= part + rest);
    lemma_wire_of_concat(part, rest);
    assert(wire_of(part) =~= wire_of(whole).subrange(0, wire_of(part).len() as int));
    if all_sendable(whole) {
        assert forall|i: int| 0 <= i < part.len() implies sendable(#[trigger] part[i]) by {
            assert(part[i] == whole[i]);
        }
    }
}

/// What the source of a live stream reports next.
#[derive(Debug, Clone, PartialEq, Eq)]
pub enum StreamEvent {
    /// An access unit is there.
    Frame(EncodedFrame),
    /// Nothing came within the heartbeat interval.
    Idle,
    /// The capture has stopped: nothing more will come.
    Closed,
}

/// What a stream sends in answer to a run of events, which ends with the first `Closed`.
pub open spec fn items_of(events: Seq<StreamEvent>) -> Seq<StreamItem>
    decreases events.len(),
{
    if events.len() == 0 {
        Seq::empty()
    } else {
        match events[0] {
            StreamEvent::Frame(e) => seq![StreamItem::Unit(e@)] + items_of(events.skip(1)),
            StreamEvent::Idle => seq![StreamItem::Heartbeat] + items_of(events.skip(1)),
            StreamEvent::Closed => Seq::empty(),
        }
    }
}

/// Answer a run of events.
#[verifier::spinoff_prover]
fn stream_events<W: ByteSink>(
    events: &Vec<StreamEvent>,
    w: &mut W,
    summary: &mut SendSessionSummary,
) -> (r: Result<(), SessionError>)
    ensures
        stream_ended(
            old(w).state(),
            final(w).state(),
            old(summary)@,
            final(summary)@,
            items_of(events@),
            r,
        ),
{
    let ghost pre = w.state();
    let ghost start = summary@;
    let ghost all = items_of(events@);
    let ghost mut done: Seq<StreamItem> = Seq::empty();
    let mut i: usize = 0;
    proof {
        lemma_nothing_streamed(pre, start);
        assert(events@.skip(0) =~= events@);
        assert(done + all =~= all);
    }
    while i < events.len()
        invariant_except_break
            all == done + items_of(events@.skip(i as int)),
        invariant
            i <= events@.len(),
            pre == old(w).state(),
            start == old(summary)@,
            all == items_of(events@),
            streamed(pre, w.state(), start, summary@, done),
        ensures
            done == all,
        decreases events.len() - i,
    {
        let ghost mid = w.state();
        let ghost before = summary@;
        let ghost rest = events@.skip(i as int);
        let ghost mut item: StreamItem = StreamItem::Heartbeat;
        proof {
            assert(rest[0] == events@[i as int]);
            assert(rest.skip(1) =~= events@.skip(i + 1));
        }
        let r: Result<(), SessionError> = match &events[i] {
            StreamEvent::Frame(e) => {
                proof {
                    item = StreamItem::Unit(e@);
                }
                stream_unit(summary, e, w)
            },
            StreamEvent::Idle => stream_heartbeat(summary, w),
            StreamEvent::Closed => {
                proof {
                    assert(done + items_of(rest) =~= done);
                }
                break;
            },
        };
        proof {
            assert(items_of(rest) == seq![item] + items_of(events@.skip(i + 1)));
            assert(all =~= done.push(item) + items_of(events@.skip(i + 1)));
            assert(all.take(done.len() as int + 1) =~= done.push(item));
        }
        match r {
            Ok(_) => {},
            Err(e) => {
                proof {
                    lemma_stream_broken(pre, mid, w.state(), start, before, summary@, done, item, e);
                    lemma_items_prefix(start, all, done.len() as int + 1);
                }
                return Err(e);
            },
        }
        proof {
            lemma_streamed_more(pre, mid, w.state(), start, before, summary@, done, item);
            done = done.push(item);
        }
        i = i + 1;
        proof {
            if i == events@.len() {
                assert(events@.skip(i as int) =~= Seq::<StreamEvent>::empty());
                assert(done + items_of(events@.skip(i as int)) =~= done);
            }
        }
    }
    Ok(())
}

/// Drive a send session from a run of pre-encoded frames, as a live source reports them: shake
/// hands, then send every access unit, and a heartbeat whenever the source is idle.
#[verifier::spinoff_prover]
pub fn run_stream_session<T: Transport>(
    events: Vec<StreamEvent>,
    transport: &mut T,
    offer: Handshake,
) -> (r: Result<SendSessionSummary, SessionError>)
    ensures
        final(transport).state().stalled == old(transport).state().stalled,
        session_ended(
            old(transport).state(),
            final(transport).state(),
            offer@,
            items_of(events@),
            r,
        ),
{
    let ghost pre = transport.state();
    let ghost view = offer@;
    let agreed: AgreedConfig = match perform_handshake(transport, offer) {
        Ok(agreed) => agreed,
        Err(e) => {
            return Err(e);
        },
    };
    let ghost ready = transport.state();
    let mut summary = new_summary(agreed);
    let r = stream_events(&events, transport, &mut summary);
    proof {
        lemma_session(
            pre,
            ready,
            transport.state(),
            view,
            agreed,
            items_of(events@),
            summary,
            r,
        );
    }
    match r {
        Ok(_) => Ok(summary),
        Err(e) => Err(e),
    }
}

/// The values of a list of frames.
pub open spec fn encoded_views(frames: Seq<EncodedFrame>) -> Seq<EncodedView> {
    Seq::new(frames.len(), |i: int| frames[i]@)
}

/// The position of the last keyframe.
pub open spec fn last_keyframe(frames: Seq<EncodedView>) -> Option<int>
    decreases frames.len(),
{
    if frames.len() == 0 {
        None
    } else if frames.last().keyframe {
        Some(frames.len() - 1)
    } else {
        last_keyframe(frames.drop_last())
    }
}

/// The part of a backlog that is worth sending: from the last keyframe on. Without a keyframe it
/// is all of it, as each frame depends on the one before.
pub open spec fn coalesced(frames: Seq<EncodedView>) -> Seq<EncodedView> {
    match last_keyframe(frames) {
        Some(i) => frames.skip(i),
        None => frames,
    }
}

/// [`last_keyframe`] is the greatest position of a keyframe.
proof fn lemma_last_keyframe(frames: Seq<EncodedView>)
    ensures
        match last_keyframe(frames) {
            Some(k) => {
                &&& 0 <= k < frames.len()
                &&& frames[k].keyframe
                &&& forall|i: int| k < i < frames.len() ==> !(#[trigger] frames[i]).keyframe
            },
            None => forall|i: int| 0 <= i < frames.len() ==> !(#[trigger] frames[i]).keyframe,
        },
    decreases frames.len(),
{
    if frames.len() > 0 && !frames.last().keyframe {
        lemma_last_keyframe(frames.drop_last());
        assert forall|i: int| 0 <= i < frames.len() - 1 implies frames.drop_last()[i]
            == #[trigger] frames[i] by {}
    }
}

/// Shed what a keyframe in the backlog has made stale: everything before the last one.
pub fn coalesce_to_latest_keyframe(backlog: Vec<EncodedFrame>) -> (kept: Vec<EncodedFrame>)
    ensures
        encoded_views(kept@) == coalesced(encoded_views(backlog@)),
{
    let ghost all = encoded_views(backlog@);
    let mut frames = backlog;
    let mut n: usize = frames.len();
    proof {
        lemma_last_keyframe(all);
    }
    while n > 0
        invariant
            n <= frames@.len(),
            all == encoded_views(frames@),
            all == encoded_views(backlog@),
            match last_keyframe(all) {
                Some(k) => 0 <= k < n && all[k].keyframe && (forall|i: int|
                    k < i < all.len() ==> !(#[trigger] all[i]).keyframe),
                None => forall|i: int| 0 <= i < all.len() ==> !(#[trigger] all[i]).keyframe,
            },
        decreases n,
    {
        n = n - 1;
        proof {
            assert(all[n as int] == frames@[n as int]@);
        }
        if frames[n].keyframe {
            let kept = frames.split_off(n);
            proof {
                assert(encoded_views(kept@) =~= all.skip(n as int));
            }
            return kept;
        }
    }
    frames
}

/// What a connection admits of a backlog: what is worth sending of it, but nothing before the
/// connection's first keyframe, as a fresh decoder cannot start anywhere else.
pub open spec fn admitted(seen_keyframe: bool, backlog: Seq<EncodedView>) -> Seq<EncodedView> {
    if seen_keyframe || last_keyframe(backlog) is Some {
        coalesced(backlog)
    } else {
        Seq::empty()
    }
}

/// The readings of a clock two by two: when each access unit was handed over, and when it had been
/// sent. A last reading without its pair belongs to a unit that was not sent.
pub open spec fn pairs(said: Seq<u64>) -> Seq<(u64, u64)> {
    Seq::new((said.len() / 2) as nat, |i: int| (said[2 * i], said[2 * i + 1]))
}

/// The pipeline once every one of `frames` has been recorded with its sending times.
pub open spec fn hosts_recorded(
    p: PipelineView,
    frames: Seq<EncodedView>,
    times: Seq<(u64, u64)>,
) -> PipelineView
    decreases frames.len(),
{
    if frames.len() == 0 {
        p
    } else {
        host_recorded(
            hosts_recorded(p, frames.drop_last(), times.drop_last()),
            frames.last().pts_us,
            HostStamps {
                capture_us: frames.last().capture_us,
                encode_done_us: times.last().0,
                send_done_us: times.last().1,
            },
        )
    }
}

/// The pipeline once one frame from the client has been taken in: a report is fused as soon as the
/// clocks are synchronised; anything else is no report.
pub open spec fn client_frame_recorded(
    p: PipelineView,
    f: FrameView,
    offset: Option<ClockOffset>,
) -> PipelineView {
    match (f, offset) {
        (FrameView::Stats { pts_us, arrive_us, decode_us, present_us }, Some(o)) => stats_recorded(
            p,
            pts_us,
            arrive_us,
            decode_us,
            present_us,
            o.offset_us,
        ),
        _ => p,
    }
}

/// The pipeline once several frames from the client have been taken in.
pub open spec fn client_frames_recorded(
    p: PipelineView,
    frames: Seq<Frame>,
    offset: Option<ClockOffset>,
) -> PipelineView
    decreases frames.len(),
{
    if frames.len() == 0 {
        p
    } else {
        client_frame_recorded(
            client_frames_recorded(p, frames.drop_last(), offset),
            frames.last()@,
            offset,
        )
    }
}

/// Take in what the client has reported.
pub fn drain_stats(frames: &Vec<Frame>, offset: Option<ClockOffset>, pipeline: &mut PipelineLatency)
    ensures
        final(pipeline)@ == client_frames_recorded(old(pipeline)@, frames@, offset),
        old(pipeline)@.wf() ==> final(pipeline)@.wf(),
{
    let mut i: usize = 0;
    proof {
        assert(frames@.take(0) =~= Seq::<Frame>::empty());
    }
    while i < frames.len()
        invariant
            i <= frames@.len(),
            pipeline@ == client_frames_recorded(old(pipeline)@, frames@.take(i as int), offset),
            old(pipeline)@.wf() ==> pipeline@.wf(),
        decreases frames.len() - i,
    {
        proof {
            assert(frames@.take(i + 1).drop_last() =~= frames@.take(i as int));
            assert(frames@.take(i + 1).last() == frames@[i as int]);
        }
        if let Frame::Stats { pts_us, arrive_us, decode_us, present_us } = &frames[i] {
            if let Some(o) = offset {
                pipeline.record_stats(*pts_us, *arrive_us, *decode_us, *present_us, o);
            }
        }
        i = i + 1;
    }
    proof {
        assert(frames@.take(i as int) =~= frames@);
    }
}

/// One live connection: the summary so far, and whether its first keyframe has gone out.
#[derive(Debug, Clone, PartialEq, Eq)]
pub struct StreamSession {
    summary: SendSessionSummary,
    seen_keyframe: bool,
}

impl StreamSession {
    /// The summary so far.
    pub closed spec fn summary_view(&self) -> SummaryView {
        self.summary@
    }

    /// Whether the connection's first keyframe has been admitted.
    pub closed spec fn seen(&self) -> bool {
        self.seen_keyframe
    }

    /// A connection on which nothing has been sent since its handshake.
    pub fn new(agreed: AgreedConfig) -> (r: Self)
        ensures
            r.summary_view() == fresh_summary(agreed),
            !r.seen(),
    {
        StreamSession { summary: new_summary(agreed), seen_keyframe: false }
    }

    /// Decide what to send of a backlog (oldest first); what is shed is counted.
    pub fn select(&mut self, backlog: Vec<EncodedFrame>, pipeline: &mut PipelineLatency) -> (r: Vec<
        EncodedFrame,
    >)
        ensures
            encoded_views(r@) == admitted(old(self).seen(), encoded_views(backlog@)),
            final(self).seen() == (old(self).seen() || r@.len() > 0),
            final(self).summary_view() == old(self).summary_view(),
            final(pipeline)@ == dropped_recorded(
                old(pipeline)@,
                (backlog@.len() - r@.len()) as u64,
            ),
            r@.len() <= backlog@.len(),
            old(pipeline)@.wf() ==> final(pipeline)@.wf(),
    {
        let ghost all = encoded_views(backlog@);
        let drained: usize = backlog.len();
        let mut to_send = coalesce_to_latest_keyframe(backlog);
        proof {
            lemma_last_keyframe(all);
            assert(encoded_views(to_send@).len() == to_send@.len());
        }
        if !self.seen_keyframe {
            if to_send.len() > 0 {
                proof {
                    assert(encoded_views(to_send@)[0] == to_send@[0]@);
                }
                if to_send[0].keyframe {
                    self.seen_keyframe = true;
                } else {
                    to_send = Vec::new();
                    proof {
                        assert(encoded_views(to_send@) =~= Seq::<EncodedView>::empty());
                    }
                }
            }
        }
        let shed: usize = drained - to_send.len();
        pipeline.record_dropped(shed as u64);
        to_send
    }

    /// Send one admitted access unit.
    pub fn send<W: ByteSink>(&mut self, e: &EncodedFrame, w: &mut W) -> (r: Result<
        (),
        SessionError,
    >)
        ensures
            final(self).seen() == old(self).seen(),
            item_step(
                old(w).state(),
                final(w).state(),
                old(self).summary_view(),
                final(self).summary_view(),
                StreamItem::Unit(e@),
                r,
            ),
    {
        stream_unit(&mut self.summary, e, w)
    }

    /// Probe an idle link.
    pub fn idle<W: ByteSink>(&mut self, w: &mut W) -> (r: Result<(), SessionError>)
        ensures
            final(self).seen() == old(self).seen(),
            item_step(
                old(w).state(),
                final(w).state(),
                old(self).summary_view(),
                final(self).summary_view(),
                StreamItem::Heartbeat,
                r,
            ),
    {
        stream_heartbeat(&mut self.summary, w)
    }

    /// The summary of the connection.
    pub fn finish(self) -> (s: SendSessionSummary)
        ensures
            s@ == self.summary_view(),
    {
        self.summary
    }

    /// Deal with a backlog: decide what to send of it, send that, and record when each frame was
    /// handed over and when it had been sent. `clock` supplies host time. A frame that could not be
    /// sent has been handed over, but is not recorded.
    #[verifier::spinoff_prover]
    #[verifier::rlimit(30)]
    pub fn on_frames<W: ByteSink, C: Clock>(
        &mut self,
        backlog: Vec<EncodedFrame>,
        w: &mut W,
        pipeline: &mut PipelineLatency,
        clock: &mut C,
    ) -> (r: Result<(), SessionError>)
        requires
            old(clock).running(),
        ensures
            final(clock).running(),
            old(clock).log().is_prefix_of(final(clock).log()),
            ({
                let frames = admitted(old(self).seen(), encoded_views(backlog@));
                let shed = dropped_recorded(
                    old(pipeline)@,
                    (backlog@.len() - frames.len()) as u64,
                );
                let said = said_since(old(clock).log(), final(clock).log());
                let n = pairs(said).len();
                &&& final(self).seen() == (old(self).seen() || frames.len() > 0)
                &&& stream_ended(
                    old(w).state(),
                    final(w).state(),
                    old(self).summary_view(),
                    final(self).summary_view(),
                    units(frames),
                    r,
                )
                &&& n <= frames.len()
                &&& final(pipeline)@ == hosts_recorded(shed, frames.take(n as int), pairs(said))
                &&& match r {
                    Ok(_) => said.len() == 2 * frames.len(),
                    Err(_) => said.len() == 2 * n + 1 && n < frames.len(),
                }
            }),
            old(pipeline)@.wf() ==> final(pipeline)@.wf(),
    {
        let ghost pre = w.state();
        let ghost start = self.summary_view();
        let ghost all = encoded_views(backlog@);
        let ghost asked = clock.log();
        let to_send = self.select(backlog, pipeline);
        let ghost frames = encoded_views(to_send@);
        let ghost shed = pipeline@;
        let ghost seen = self.seen();
        let mut i: usize = 0;
        proof {
            lemma_nothing_streamed(pre, start);
            assert(units(frames).take(0) =~= Seq::<StreamItem>::empty());
            assert(frames.take(0) =~= Seq::<EncodedView>::empty());
            assert(pairs(said_since(asked, clock.log())) =~= Seq::<(u64, u64)>::empty());
        }
        while i < to_send.len()
            invariant
                clock.running(),
                asked == old(clock).log(),
                asked.is_prefix_of(clock.log()),
                said_since(asked, clock.log()).len() == 2 * i,
                i <= to_send@.len(),
                frames == encoded_views(to_send@),
                self.seen() == seen,
                streamed(
                    pre,
                    w.state(),
                    start,
                    self.summary_view(),
                    units(frames).take(i as int),
                ),
                pipeline@ == hosts_recorded(
                    shed,
                    frames.take(i as int),
                    pairs(said_since(asked, clock.log())),
                ),
                shed.wf() ==> pipeline@.wf(),
                shed == dropped_recorded(old(pipeline)@, (backlog@.len() - frames.len()) as u64),
                pre == old(w).state(),
                start == old(self).summary_view(),
                seen == (old(self).seen() || frames.len() > 0),
                frames == admitted(old(self).seen(), all),
                old(pipeline)@.wf() ==> shed.wf(),
                all == encoded_views(backlog@),
            decreases to_send.len() - i,
        {
            let ghost mid = w.state();
            let ghost before = self.summary_view();
            let ghost done = units(frames).take(i as int);
            let ghost item = StreamItem::Unit(to_send@[i as int]@);
            let ghost said = said_since(asked, clock.log());
            proof {
                assert(units(frames)[i as int] == item);
                assert(units(frames).take(i + 1) =~= done.push(item));
            }
            let encode_done_us: u64 = clock.now_us();
            proof {
                assert(said_since(asked, clock.log()) =~= said.push(encode_done_us));
                assert(pairs(said.push(encode_done_us)) =~= pairs(said));
            }
            match self.send(&to_send[i], w) {
                Ok(_) => {},
                Err(e) => {
                    proof {
                        lemma_stream_broken(
                            pre,
                            mid,
                            w.state(),
                            start,
                            before,
                            self.summary_view(),
                            done,
                            item,
                            e,
                        );
                        lemma_items_prefix(start, units(frames), i + 1);
                    }
                    return Err(e);
                },
            }
            let send_done_us: u64 = clock.now_us();
            pipeline.record_host(
                to_send[i].pts_us,
                to_send[i].capture_us,
                encode_done_us,
                send_done_us,
            );
            proof {
                lemma_streamed_more(
                    pre,
                    mid,
                    w.state(),
                    start,
                    before,
                    self.summary_view(),
                    done,
                    item,
                );
                let more = said.push(encode_done_us).push(send_done_us);
                assert(said_since(asked, clock.log()) =~= more);
                assert(pairs(more) =~= pairs(said).push((encode_done_us, send_done_us)));
                assert(pairs(more).drop_last() =~= pairs(said));
                assert(frames.take(i + 1).drop_last() =~= frames.take(i as int));
                assert(frames.take(i + 1).last() == to_send@[i as int]@);
            }
            i = i + 1;
        }
        proof {
            assert(units(frames).take(i as int) =~= units(frames));
            assert(frames.take(i as int) =~= frames);
        }
        Ok(())
    }
}

/// What one turn of a live stream found.
#[derive(Debug, Clone, PartialEq, Eq)]
pub enum Found {
    /// The host is asked to stop.
    Stop,
    /// Access units were waiting, the oldest first.
    Frames(Vec<EncodedFrame>),
    /// Nothing came within the heartbeat interval.
    Idle,
    /// The capture has stopped: nothing more will come.
    Closed,
}

impl Found {
    /// Whether the stream ends here.
    pub open spec fn ends(self) -> bool {
        self is Stop || self is Closed
    }

    /// The access units to send, given whether the connection's first keyframe has gone out.
    pub open spec fn units(self, seen_keyframe: bool) -> Seq<EncodedView> {
        match self {
            Found::Frames(backlog) => admitted(seen_keyframe, encoded_views(backlog@)),
            _ => Seq::empty(),
        }
    }

    /// What is sent: the admitted access units, or a heartbeat while there are none to come by.
    pub open spec fn items(self, seen_keyframe: bool) -> Seq<StreamItem> {
        match self {
            Found::Idle => seq![StreamItem::Heartbeat],
            _ => units(self.units(seen_keyframe)),
        }
    }
}

/// One turn of a live stream.
#[derive(Debug, Clone, PartialEq, Eq)]
pub struct Turn {
    /// What it found.
    pub found: Found,
    /// What the client has sent by the end of the turn.
    pub stats: Vec<Frame>,
    /// When the turn ended, in microseconds since the stream began.
    pub at_us: u64,
}

/// What a live stream keeps from turn to turn, besides its summary.
#[verifier::ext_equal]
pub struct LiveView {
    /// Whether the connection's first keyframe has gone out.
    pub seen: bool,
    /// The latency bookkeeping.
    pub pipeline: PipelineView,
    /// When the latest report was made.
    pub last_report_us: u64,
    /// The reports made.
    pub reports: Seq<ReportView>,
}

/// Whether a report is due at `now_us`, `each_us` or more after the latest.
pub open spec fn report_due(last_us: u64, now_us: u64, each_us: u64) -> bool {
    each_us == 0 || now_us - last_us >= each_us
}

/// The pipeline once a turn has counted what it sheds.
pub open spec fn shed_in(v: LiveView, found: Found) -> PipelineView {
    match found {
        Found::Frames(backlog) => dropped_recorded(
            v.pipeline,
            (backlog@.len() - found.units(v.seen).len()) as u64,
        ),
        _ => v.pipeline,
    }
}

/// The effect of sending what a turn found, of which the access units of `times` were handed over
/// and sent: what is shed is counted, and what was sent is recorded. If sending broke off, `times`
/// are fewer than the access units.
pub open spec fn turn_sent(v: LiveView, found: Found, times: Seq<(u64, u64)>) -> LiveView {
    LiveView {
        seen: v.seen || found.units(v.seen).len() > 0,
        pipeline: hosts_recorded(
            shed_in(v, found),
            found.units(v.seen).take(times.len() as int),
            times,
        ),
        ..v
    }
}

/// The effect of what follows the sending of a turn: what the client has reported is taken in.
/// Unless the stream ends, a report follows where one is due.
pub open spec fn turn_settled(
    v: LiveView,
    goes_on: bool,
    stats: Seq<Frame>,
    at_us: u64,
    offset: Option<ClockOffset>,
    each_us: u64,
) -> LiveView {
    let pipeline = client_frames_recorded(v.pipeline, stats, offset);
    let due = goes_on && report_due(v.last_report_us, at_us, each_us);
    LiveView {
        seen: v.seen,
        pipeline,
        last_report_us: if due {
            at_us
        } else {
            v.last_report_us
        },
        reports: if due {
            v.reports.push(pipeline.report)
        } else {
            v.reports
        },
    }
}

/// The effect of one turn, in which the access units were handed over and sent at `times`.
#[verifier::opaque]
pub open spec fn turn_done(
    v: LiveView,
    turn: Turn,
    times: Seq<(u64, u64)>,
    offset: Option<ClockOffset>,
    each_us: u64,
) -> LiveView {
    turn_settled(
        turn_sent(v, turn.found, times),
        !turn.found.ends(),
        turn.stats@,
        turn.at_us,
        offset,
        each_us,
    )
}

/// The access units that a run of turns sends, up to the turn that ends the stream.
pub open spec fn run_units(seen_keyframe: bool, turns: Seq<Turn>) -> Seq<EncodedView>
    decreases turns.len(),
{
    if turns.len() == 0 || turns[0].found.ends() {
        Seq::empty()
    } else {
        let first = turns[0].found.units(seen_keyframe);
        first + run_units(seen_keyframe || first.len() > 0, turns.skip(1))
    }
}

/// Everything that a run of turns sends, up to the turn that ends the stream.
pub open spec fn run_items(seen_keyframe: bool, turns: Seq<Turn>) -> Seq<StreamItem>
    decreases turns.len(),
{
    if turns.len() == 0 || turns[0].found.ends() {
        Seq::empty()
    } else {
        let first = turns[0].found.units(seen_keyframe);
        turns[0].found.items(seen_keyframe) + run_items(
            seen_keyframe || first.len() > 0,
            turns.skip(1),
        )
    }
}

/// The effect of a run of turns, up to the one that ends the stream, whose access units were handed
/// over and sent at `times`.
pub open spec fn run_done(
    v: LiveView,
    turns: Seq<Turn>,
    times: Seq<(u64, u64)>,
    offset: Option<ClockOffset>,
    each_us: u64,
) -> LiveView
    decreases turns.len(),
{
    if turns.len() == 0 {
        v
    } else {
        let n = turns[0].found.units(v.seen).len() as int;
        let after = turn_done(v, turns[0], times.take(n), offset, each_us);
        if turns[0].found.ends() {
            after
        } else {
            run_done(after, turns.skip(1), times.skip(n), offset, each_us)
        }
    }
}

/// A live stream: its connection, how the client's clock relates to the host's, and when the next
/// report is due.
#[derive(Debug, Clone, PartialEq, Eq)]
pub struct LiveStream {
    session: StreamSession,
    offset: Option<ClockOffset>,
    report_each_us: u64,
    last_report_us: u64,
}

impl LiveStream {
    /// The summary so far.
    pub closed spec fn summary_view(&self) -> SummaryView {
        self.session.summary_view()
    }

    /// How the client's clock relates to the host's, where that is known.
    pub closed spec fn offset(&self) -> Option<ClockOffset> {
        self.offset
    }

    /// The least time between two reports.
    pub closed spec fn each_us(&self) -> u64 {
        self.report_each_us
    }

    /// What the stream keeps, with the pipeline and the reports that go with it.
    pub closed spec fn live(&self, pipeline: PipelineView, reports: Seq<ReportView>) -> LiveView {
        LiveView {
            seen: self.session.seen(),
            pipeline,
            last_report_us: self.last_report_us,
            reports,
        }
    }

    /// A stream on a connection that has just shaken hands.
    pub fn new(agreed: AgreedConfig, offset: Option<ClockOffset>, report_each_us: u64) -> (r: Self)
        ensures
            r.summary_view() == fresh_summary(agreed),
            r.offset() == offset,
            r.each_us() == report_each_us,
            forall|p: PipelineView, reports: Seq<ReportView>| #[trigger]
                r.live(p, reports) == (LiveView {
                    seen: false,
                    pipeline: p,
                    last_report_us: 0,
                    reports,
                }),
    {
        LiveStream {
            session: StreamSession::new(agreed),
            offset,
            report_each_us,
            last_report_us: 0,
        }
    }

    /// Send what a turn found. `clock` supplies host time. The result says whether the stream goes on.
    pub fn send<W: ByteSink, C: Clock>(
        &mut self,
        found: Found,
        w: &mut W,
        pipeline: &mut PipelineLatency,
        clock: &mut C,
    ) -> (r: Result<bool, SessionError>)
        requires
            old(clock).running(),
        ensures
            final(clock).running(),
            old(clock).log().is_prefix_of(final(clock).log()),
            final(self).offset() == old(self).offset(),
            final(self).each_us() == old(self).each_us(),
            old(pipeline)@.wf() ==> final(pipeline)@.wf(),
            ({
                let said = said_since(old(clock).log(), final(clock).log());
                let seen = old(self).live(old(pipeline)@, Seq::empty()).seen;
                let sent = found.units(seen);
                &&& stream_ended(
                    old(w).state(),
                    final(w).state(),
                    old(self).summary_view(),
                    final(self).summary_view(),
                    found.items(seen),
                    match r {
                        Ok(_) => Ok(()),
                        Err(e) => Err(e),
                    },
                )
                &&& forall|reports: Seq<ReportView>| #[trigger]
                    final(self).live(final(pipeline)@, reports) == turn_sent(
                        old(self).live(old(pipeline)@, reports),
                        found,
                        pairs(said),
                    )
                &&& match r {
                    Ok(goes_on) => goes_on == !found.ends() && said.len() == 2 * sent.len(),
                    Err(_) => {
                        &&& !found.ends()
                        &&& pairs(said).len() <= sent.len()
                        &&& said.len() <= 2 * pairs(said).len() + 1
                    },
                }
            }),
    {
        let ghost seen = self.live(pipeline@, Seq::empty()).seen;
        let ghost what = found;
        let ghost asked = clock.log();
        proof {
            lemma_nothing_streamed(w.state(), self.summary_view());
            assert(said_since(asked, asked) =~= Seq::<u64>::empty());
            assert(pairs(Seq::<u64>::empty()) =~= Seq::<(u64, u64)>::empty());
            let none = Seq::<EncodedView>::empty();
            assert(none.take(0) =~= none);
            assert(units(none) =~= Seq::<StreamItem>::empty());
        }
        match found {
            Found::Frames(backlog) => match self.session.on_frames(backlog, w, pipeline, clock) {
                Ok(_) => {
                    proof {
                        let sent = what.units(seen);
                        assert(sent.take(sent.len() as int) =~= sent);
                    }
                    Ok(true)
                },
                Err(e) => Err(e),
            },
            Found::Idle => match self.session.idle(w) {
                Ok(_) => {
                    proof {
                        lemma_one_item(
                            old(w).state(),
                            w.state(),
                            old(self).summary_view(),
                            self.summary_view(),
                            StreamItem::Heartbeat,
                        );
                    }
                    Ok(true)
                },
                Err(e) => {
                    proof {
                        lemma_stream_broken(
                            old(w).state(),
                            old(w).state(),
                            w.state(),
                            old(self).summary_view(),
                            old(self).summary_view(),
                            self.summary_view(),
                            Seq::empty(),
                            StreamItem::Heartbeat,
                            e,
                        );
                        assert(Seq::<StreamItem>::empty().push(StreamItem::Heartbeat)
                            =~= seq![StreamItem::Heartbeat]);
                    }
                    Err(e)
                },
            },
            Found::Stop | Found::Closed => Ok(false),
        }
    }

    /// Take in what the client has reported by the end of a turn, and report where that is due.
    pub fn settle<R: ReportSink>(
        &mut self,
        goes_on: bool,
        stats: &Vec<Frame>,
        at_us: u64,
        pipeline: &mut PipelineLatency,
        reports: &mut R,
    )
        ensures
            final(self).offset() == old(self).offset(),
            final(self).each_us() == old(self).each_us(),
            final(self).summary_view() == old(self).summary_view(),
            old(pipeline)@.wf() ==> final(pipeline)@.wf(),
            final(self).live(final(pipeline)@, final(reports).reported()) == turn_settled(
                old(self).live(old(pipeline)@, old(reports).reported()),
                goes_on,
                stats@,
                at_us,
                old(self).offset(),
                old(self).each_us(),
            ),
    {
        drain_stats(stats, self.offset, pipeline);
        if goes_on {
            let due: bool = self.report_each_us == 0 || (at_us >= self.last_report_us && at_us
                - self.last_report_us >= self.report_each_us);
            if due {
                reports.report(pipeline.report());
                self.last_report_us = at_us;
            }
        }
    }

    /// Take one turn: send what it found, take in what the client reports, and report where that is
    /// due. `clock` supplies host time. The result says whether the stream goes on.
    pub fn turn<W: ByteSink, R: ReportSink, C: Clock>(
        &mut self,
        turn: Turn,
        w: &mut W,
        pipeline: &mut PipelineLatency,
        reports: &mut R,
        clock: &mut C,
    ) -> (r: Result<bool, SessionError>)
        requires
            old(clock).running(),
        ensures
            final(clock).running(),
            old(clock).log().is_prefix_of(final(clock).log()),
            final(self).offset() == old(self).offset(),
            final(self).each_us() == old(self).each_us(),
            old(pipeline)@.wf() ==> final(pipeline)@.wf(),
            ({
                let before = old(self).live(old(pipeline)@, old(reports).reported());
                let after = final(self).live(final(pipeline)@, final(reports).reported());
                let said = said_since(old(clock).log(), final(clock).log());
                let sent = turn.found.units(before.seen);
                &&& stream_ended(
                    old(w).state(),
                    final(w).state(),
                    old(self).summary_view(),
                    final(self).summary_view(),
                    turn.found.items(before.seen),
                    match r {
                        Ok(_) => Ok(()),
                        Err(e) => Err(e),
                    },
                )
                &&& match r {
                    Ok(goes_on) => {
                        &&& goes_on == !turn.found.ends()
                        &&& said.len() == 2 * sent.len()
                        &&& after == turn_done(
                            before,
                            turn,
                            pairs(said),
                            old(self).offset(),
                            old(self).each_us(),
                        )
                    },
                    Err(_) => {
                        &&& !turn.found.ends()
                        &&& pairs(said).len() <= sent.len()
                        &&& said.len() <= 2 * pairs(said).len() + 1
                        &&& after == turn_sent(before, turn.found, pairs(said))
                    },
                }
            }),
    {
        proof {
            reveal(turn_done);
        }
        match self.send(turn.found, w, pipeline, clock) {
            Ok(goes_on) => {
                self.settle(goes_on, &turn.stats, turn.at_us, pipeline, reports);
                Ok(goes_on)
            },
            Err(e) => Err(e),
        }
    }

    /// The summary of the connection.
    pub fn finish(self) -> (s: SendSessionSummary)
        ensures
            s@ == self.summary_view(),
    {
        self.session.finish()
    }
}

proof fn lemma_one_item(
    pre: LinkState,
    post: LinkState,
    before: SummaryView,
    after: SummaryView,
    item: StreamItem,
)
    requires
        item_step(pre, post, before, after, item, Ok(())),
    ensures
        streamed(pre, post, before, after, seq![item]),
{
    lemma_nothing_streamed(pre, before);
    lemma_streamed_more(pre, pre, post, before, before, after, Seq::empty(), item);
    assert(Seq::<StreamItem>::empty().push(item) =~= seq![item]);
}

/// Appending what a turn sends to what was sent before it.
proof fn lemma_streamed_on(
    pre: LinkState,
    mid: LinkState,
    post: LinkState,
    start: SummaryView,
    before: SummaryView,
    after: SummaryView,
    done: Seq<StreamItem>,
    items: Seq<StreamItem>,
)
    requires
        streamed(pre, mid, start, before, done),
        streamed(mid, post, before, after, items),
    ensures
        streamed(pre, post, start, after, done + items),
{
    lemma_items_appended(start, done, items);
    lemma_wire_of_concat(items_frames(start, done), items_frames(before, items));
    let had = items_frames(start, done);
    let new = items_frames(before, items);
    assert(post.sent =~= pre.sent + wire_of(had + new));
    assert forall|i: int| 0 <= i < (had + new).len() implies sendable(#[trigger] (had + new)[i]) by {
        if i >= had.len() {
            assert((had + new)[i] == new[i - had.len()]);
        } else {
            assert((had + new)[i] == had[i]);
        }
    }
}

#[verifier::spinoff_prover]
proof fn lemma_items_appended(s: SummaryView, done: Seq<StreamItem>, items: Seq<StreamItem>)
    ensures
        items_sent(s, done + items) == items_sent(items_sent(s, done), items),
        items_frames(s, done + items) == items_frames(s, done) + items_frames(
            items_sent(s, done),
            items,
        ),
    decreases items.len(),
{
    if items.len() == 0 {
        assert(done + items =~= done);
        assert(items_frames(s, done) + items_frames(items_sent(s, done), items)
            =~= items_frames(s, done));
    } else {
        lemma_items_appended(s, done, items.drop_last());
        assert((done + items).drop_last() =~= done + items.drop_last());
        assert((done + items).last() == items.last());
        let mid = items_sent(s, done);
        assert(items_frames(s, done + items) =~= items_frames(s, done) + items_frames(mid, items));
    }
}

/// A turn that breaks off breaks off the run.
proof fn lemma_run_broken(
    pre: LinkState,
    mid: LinkState,
    post: LinkState,
    start: SummaryView,
    before: SummaryView,
    after: SummaryView,
    done: Seq<StreamItem>,
    items: Seq<StreamItem>,
    all: Seq<StreamItem>,
    e: SessionError,
)
    requires
        streamed(pre, mid, start, before, done),
        stream_ended(mid, post, before, after, items, Err(e)),
        (done + items).is_prefix_of(all),
    ensures
        stream_ended(pre, post, start, after, all, Err(e)),
{
    lemma_items_appended(start, done, items);
    lemma_unsendable(items_frames(start, done), items_frames(before, items));
    lemma_items_prefix(start, all, (done + items).len() as int);
    assert(all.take((done + items).len() as int) =~= done + items);
    lemma_wire_of_concat(items_frames(start, done), items_frames(before, items));
    let so_far = wire_of(items_frames(start, done + items));
    assert(mid.sent + wire_of(items_frames(before, items)) =~= pre.sent + so_far);
    assert(post.sent.is_prefix_of(pre.sent + so_far));
    assert(post.sent =~= (pre.sent + wire_of(items_frames(start, all))).subrange(
        0,
        post.sent.len() as int,
    ));
}

/// The state that a run of turns has reached before the turn `j`, with the access units so far sent
/// at `times`.
pub open spec fn reached(
    v: LiveView,
    turns: Seq<Turn>,
    j: int,
    times: Seq<(u64, u64)>,
    offset: Option<ClockOffset>,
    each_us: u64,
) -> LiveView {
    run_done(v, turns.take(j), times.take(run_units(v.seen, turns.take(j)).len() as int), offset, each_us)
}

/// Whether a run of turns that broke off at the turn `j` has left `after` behind, when only the
/// access units of `times` had been sent.
pub open spec fn broke_at(
    v: LiveView,
    turns: Seq<Turn>,
    j: int,
    times: Seq<(u64, u64)>,
    offset: Option<ClockOffset>,
    each_us: u64,
    after: LiveView,
) -> bool {
    let before = reached(v, turns, j, times, offset, each_us);
    let done = run_units(v.seen, turns.take(j)).len();
    &&& 0 <= j < turns.len()
    &&& forall|i: int| 0 <= i <= j ==> !(#[trigger] turns[i]).found.ends()
    &&& done <= times.len() <= done + turns[j].found.units(before.seen).len()
    &&& after == turn_sent(before, turns[j].found, times.skip(done as int))
}

/// A turn with access units to send has seen a keyframe.
proof fn lemma_turn_seen(
    v: LiveView,
    turn: Turn,
    times: Seq<(u64, u64)>,
    offset: Option<ClockOffset>,
    each_us: u64,
)
    ensures
        turn_done(v, turn, times, offset, each_us).seen == (v.seen || turn.found.units(
            v.seen,
        ).len() > 0),
{
    reveal(turn_done);
}

/// One more turn of a run that has not ended.
#[verifier::spinoff_prover]
proof fn lemma_run_more(
    v: LiveView,
    turns: Seq<Turn>,
    turn: Turn,
    times: Seq<(u64, u64)>,
    new: Seq<(u64, u64)>,
    offset: Option<ClockOffset>,
    each_us: u64,
)
    requires
        forall|i: int| 0 <= i < turns.len() ==> !(#[trigger] turns[i]).found.ends(),
        times.len() == run_units(v.seen, turns).len(),
        new.len() == turn.found.units(run_done(v, turns, times, offset, each_us).seen).len(),
    ensures
        ({
            let now = run_done(v, turns, times, offset, each_us);
            &&& now.seen == (v.seen || times.len() > 0)
            &&& run_done(v, turns.push(turn), times + new, offset, each_us) == turn_done(
                now,
                turn,
                new,
                offset,
                each_us,
            )
            &&& run_units(v.seen, turns.push(turn)) == run_units(v.seen, turns)
                + turn.found.units(now.seen)
            &&& run_items(v.seen, turns.push(turn)) == run_items(v.seen, turns)
                + turn.found.items(now.seen)
        }),
    decreases turns.len(),
{
    let more = turns.push(turn);
    let now = run_done(v, turns, times, offset, each_us);
    if turns.len() == 0 {
        assert(more[0] == turn);
        assert(more.skip(1) =~= Seq::<Turn>::empty());
        assert((times + new).take(new.len() as int) =~= new);
        assert(now == v);
        let after = turn_done(v, turn, new, offset, each_us);
        lemma_turn_seen(v, turn, new, offset, each_us);
        assert(run_done(after, more.skip(1), (times + new).skip(new.len() as int), offset, each_us)
            == after);
        assert(run_done(v, more, times + new, offset, each_us) == after);
        assert(run_units(v.seen || turn.found.units(v.seen).len() > 0, more.skip(1)) =~= Seq::<
            EncodedView,
        >::empty());
        assert(run_items(v.seen || turn.found.units(v.seen).len() > 0, more.skip(1)) =~= Seq::<
            StreamItem,
        >::empty());
        assert(turn.found.units(v.seen) + Seq::<EncodedView>::empty() =~= turn.found.units(v.seen));
        assert(Seq::<EncodedView>::empty() + turn.found.units(v.seen) =~= turn.found.units(v.seen));
        assert(turn.found.items(v.seen) + Seq::<StreamItem>::empty() =~= turn.found.items(v.seen));
        assert(Seq::<StreamItem>::empty() + turn.found.items(v.seen) =~= turn.found.items(v.seen));
        if turn.found.ends() {
            assert(turn.found.units(v.seen) =~= Seq::<EncodedView>::empty());
            assert(turn.found.items(v.seen) =~= Seq::<StreamItem>::empty());
        }
    } else {
        let first = turns[0].found.units(v.seen);
        let n = first.len() as int;
        let after = turn_done(v, turns[0], times.take(n), offset, each_us);
        lemma_turn_seen(v, turns[0], times.take(n), offset, each_us);
        let rest = turns.skip(1);
        assert(more[0] == turns[0]);
        assert(more.skip(1) =~= rest.push(turn));
        assert((times + new).take(n) =~= times.take(n));
        assert((times + new).skip(n) =~= times.skip(n) + new);
        assert forall|i: int| 0 <= i < rest.len() implies !(#[trigger] rest[i]).found.ends() by {
            assert(rest[i] == turns[i + 1]);
        }
        assert(now == run_done(after, rest, times.skip(n), offset, each_us));
        lemma_run_more(after, rest, turn, times.skip(n), new, offset, each_us);
        assert(run_done(v, more, times + new, offset, each_us) == run_done(
            after,
            rest.push(turn),
            times.skip(n) + new,
            offset,
            each_us,
        ));
        assert(first + (run_units(after.seen, rest) + turn.found.units(now.seen)) =~= (first
            + run_units(after.seen, rest)) + turn.found.units(now.seen));
        let items = turns[0].found.items(v.seen);
        assert(items + (run_items(after.seen, rest) + turn.found.items(now.seen)) =~= (items
            + run_items(after.seen, rest)) + turn.found.items(now.seen));
    }
}

/// What comes behind the turn that ends a run does not count.
proof fn lemma_run_ends(
    v: LiveView,
    turns: Seq<Turn>,
    j: int,
    times: Seq<(u64, u64)>,
    offset: Option<ClockOffset>,
    each_us: u64,
)
    requires
        0 <= j < turns.len(),
        turns[j].found.ends(),
    ensures
        run_done(v, turns.take(j + 1), times, offset, each_us) == run_done(
            v,
            turns,
            times,
            offset,
            each_us,
        ),
        run_units(v.seen, turns.take(j + 1)) == run_units(v.seen, turns),
        run_items(v.seen, turns.take(j + 1)) == run_items(v.seen, turns),
    decreases j,
{
    let some = turns.take(j + 1);
    assert(some[0] == turns[0]);
    if j > 0 {
        assert(some.skip(1) =~= turns.skip(1).take(j));
        let n = turns[0].found.units(v.seen).len() as int;
        let after = turn_done(v, turns[0], times.take(n), offset, each_us);
        lemma_turn_seen(v, turns[0], times.take(n), offset, each_us);
        lemma_run_ends(after, turns.skip(1), j - 1, times.skip(n), offset, each_us);
    }
}

/// The beginning of a run sends the beginning of what the run sends.
proof fn lemma_run_prefix(seen_keyframe: bool, turns: Seq<Turn>, j: int)
    requires
        0 <= j <= turns.len(),
    ensures
        run_items(seen_keyframe, turns.take(j)).is_prefix_of(run_items(seen_keyframe, turns)),
    decreases turns.len(),
{
    let some = turns.take(j);
    if j > 0 && !turns[0].found.ends() {
        assert(some[0] == turns[0]);
        assert(some.skip(1) =~= turns.skip(1).take(j - 1));
        let seen = seen_keyframe || turns[0].found.units(seen_keyframe).len() > 0;
        lemma_run_prefix(seen, turns.skip(1), j - 1);
        let first = turns[0].found.items(seen_keyframe);
        let a = run_items(seen, turns.skip(1).take(j - 1));
        let b = run_items(seen, turns.skip(1));
        assert(first + a =~= (first + b).take((first + a).len() as int));
    }
}

/// The readings of one more turn, behind those of complete pairs.
proof fn lemma_pairs_appended(said: Seq<u64>, new: Seq<u64>)
    requires
        said.len() % 2 == 0,
    ensures
        pairs(said + new) == pairs(said) + pairs(new),
{
    let all = said + new;
    assert(pairs(all).len() == pairs(said).len() + pairs(new).len());
    assert forall|i: int| 0 <= i < pairs(all).len() implies pairs(all)[i] == (pairs(said) + pairs(
        new,
    ))[i] by {
        let k = pairs(said).len() as int;
        if i < k {
            assert(all[2 * i] == said[2 * i] && all[2 * i + 1] == said[2 * i + 1]);
        } else {
            assert(2 * i - said.len() == 2 * (i - k));
            assert(all[2 * i] == new[2 * (i - k)]);
            assert(all[2 * i + 1] == new[2 * (i - k) + 1]);
        }
    }
    assert(pairs(all) =~= pairs(said) + pairs(new));
}

/// The state in which a live stream begins.
pub open spec fn stream_begins(pipeline: PipelineView, reports: Seq<ReportView>) -> LiveView {
    LiveView { seen: false, pipeline, last_report_us: 0, reports }
}

/// One more turn of a run, whose readings are `new`; if it ends the run, the run is whole.
proof fn lemma_turn_joined(
    begin: LiveView,
    turns: Seq<Turn>,
    j: int,
    said: Seq<u64>,
    new: Seq<u64>,
    offset: Option<ClockOffset>,
    each_us: u64,
)
    requires
        0 <= j < turns.len(),
        forall|i: int| 0 <= i < j ==> !(#[trigger] turns[i]).found.ends(),
        said.len() == 2 * run_units(begin.seen, turns.take(j)).len(),
        ({
            let now = run_done(begin, turns.take(j), pairs(said), offset, each_us);
            new.len() == 2 * turns[j].found.units(now.seen).len()
        }),
    ensures
        ({
            let now = run_done(begin, turns.take(j), pairs(said), offset, each_us);
            let next = turns.take(j + 1);
            &&& run_done(begin, next, pairs(said + new), offset, each_us) == turn_done(
                now,
                turns[j],
                pairs(new),
                offset,
                each_us,
            )
            &&& (said + new).len() == 2 * run_units(begin.seen, next).len()
            &&& run_items(begin.seen, next) == run_items(begin.seen, turns.take(j))
                + turns[j].found.items(now.seen)
            &&& turns[j].found.ends() ==> {
                &&& run_done(begin, next, pairs(said + new), offset, each_us) == run_done(
                    begin,
                    turns,
                    pairs(said + new),
                    offset,
                    each_us,
                )
                &&& run_units(begin.seen, next) == run_units(begin.seen, turns)
                &&& run_items(begin.seen, next) == run_items(begin.seen, turns)
            }
        }),
{
    let some = turns.take(j);
    lemma_pairs_appended(said, new);
    assert(turns.take(j + 1) =~= some.push(turns[j]));
    assert forall|i: int| 0 <= i < some.len() implies !(#[trigger] some[i]).found.ends() by {
        assert(some[i] == turns[i]);
    }
    lemma_run_more(begin, some, turns[j], pairs(said), pairs(new), offset, each_us);
    if turns[j].found.ends() {
        lemma_run_ends(begin, turns, j, pairs(said + new), offset, each_us);
    }
}

/// A turn of a run breaks off once its readings are `new`, and leaves `after`.
proof fn lemma_turn_broken_off(
    begin: LiveView,
    turns: Seq<Turn>,
    j: int,
    said: Seq<u64>,
    new: Seq<u64>,
    offset: Option<ClockOffset>,
    each_us: u64,
    after: LiveView,
)
    requires
        0 <= j < turns.len(),
        forall|i: int| 0 <= i < j ==> !(#[trigger] turns[i]).found.ends(),
        !turns[j].found.ends(),
        said.len() == 2 * run_units(begin.seen, turns.take(j)).len(),
        ({
            let now = run_done(begin, turns.take(j), pairs(said), offset, each_us);
            &&& pairs(new).len() <= turns[j].found.units(now.seen).len()
            &&& after == turn_sent(now, turns[j].found, pairs(new))
        }),
    ensures
        broke_at(begin, turns, j, pairs(said + new), offset, each_us, after),
        ({
            let now = run_done(begin, turns.take(j), pairs(said), offset, each_us);
            (run_items(begin.seen, turns.take(j)) + turns[j].found.items(now.seen)).is_prefix_of(
                run_items(begin.seen, turns),
            )
        }),
{
    let some = turns.take(j);
    let now = run_done(begin, some, pairs(said), offset, each_us);
    let times = Seq::new(turns[j].found.units(now.seen).len(), |i: int| (0u64, 0u64));
    lemma_pairs_appended(said, new);
    assert(turns.take(j + 1) =~= some.push(turns[j]));
    assert forall|i: int| 0 <= i < some.len() implies !(#[trigger] some[i]).found.ends() by {
        assert(some[i] == turns[i]);
    }
    lemma_run_more(begin, some, turns[j], pairs(said), times, offset, each_us);
    lemma_run_prefix(begin.seen, turns, j + 1);
    let all = pairs(said + new);
    assert(all.take(pairs(said).len() as int) =~= pairs(said));
    assert(all.skip(pairs(said).len() as int) =~= pairs(new));
}

/// Drive a live stream turn by turn, on a connection that has shaken hands as `agreed`, until a
/// turn ends it or there are no more: send what is to be sent, fuse what the client reports with
/// the host's own times, and report every `report_each_us`. `clock` supplies host time: it is asked
/// before and after each access unit is sent. A stream that breaks off leaves the records of what
/// had been sent.
#[verifier::spinoff_prover]
pub fn run_stream_session_instrumented<W: ByteSink, R: ReportSink, C: Clock>(
    turns: VecDeque<Turn>,
    w: &mut W,
    agreed: AgreedConfig,
    offset: Option<ClockOffset>,
    pipeline: &mut PipelineLatency,
    report_each_us: u64,
    reports: &mut R,
    clock: &mut C,
) -> (r: Result<SendSessionSummary, SessionError>)
    requires
        old(clock).running(),
    ensures
        old(pipeline)@.wf() ==> final(pipeline)@.wf(),
        final(clock).running(),
        old(clock).log().is_prefix_of(final(clock).log()),
        ({
            let begin = stream_begins(old(pipeline)@, old(reports).reported());
            let said = said_since(old(clock).log(), final(clock).log());
            match r {
                Ok(s) => {
                    let end = run_done(begin, turns@, pairs(said), offset, report_each_us);
                    &&& streamed(
                        old(w).state(),
                        final(w).state(),
                        fresh_summary(agreed),
                        s@,
                        run_items(false, turns@),
                    )
                    &&& said.len() == 2 * run_units(false, turns@).len()
                    &&& final(pipeline)@ == end.pipeline
                    &&& final(reports).reported() == end.reports
                },
                Err(e) => {
                    let stream = items_frames(fresh_summary(agreed), run_items(false, turns@));
                    &&& writes_only(old(w).state(), final(w).state())
                    &&& partly_sent(old(w).state(), final(w).state(), wire_of(stream))
                    &&& {
                        ||| link_broke(old(w).state(), final(w).state(), e)
                        ||| {
                            &&& e == SessionError::Message(MessageError::Io(IoError::PayloadTooLong))
                            &&& !all_sendable(stream)
                        }
                    }
                    &&& exists|j: int, after: LiveView|
                        {
                            &&& #[trigger] broke_at(
                                begin,
                                turns@,
                                j,
                                pairs(said),
                                offset,
                                report_each_us,
                                after,
                            )
                            &&& final(pipeline)@ == after.pipeline
                            &&& final(reports).reported() == after.reports
                        }
                },
            }
        }),
{
    let ghost pre = w.state();
    let ghost start = fresh_summary(agreed);
    let ghost whole = turns@;
    let ghost asked = clock.log();
    let ghost mut j: int = 0;
    let mut rest = turns;
    let mut stream = LiveStream::new(agreed, offset, report_each_us);
    let ghost begin = stream.live(pipeline@, reports.reported());
    proof {
        lemma_nothing_streamed(pre, start);
        assert(whole.take(0) =~= Seq::<Turn>::empty());
        assert(whole.skip(0) =~= whole);
        assert(said_since(asked, asked) =~= Seq::<u64>::empty());
    }
    loop
        invariant_except_break
            0 <= j <= whole.len(),
            rest@ == whole.skip(j),
            forall|i: int| 0 <= i < j ==> !(#[trigger] whole[i]).found.ends(),
            streamed(
                pre,
                w.state(),
                start,
                stream.summary_view(),
                run_items(false, whole.take(j)),
            ),
            ({
                let said = said_since(asked, clock.log());
                &&& said.len() == 2 * run_units(false, whole.take(j)).len()
                &&& stream.live(pipeline@, reports.reported()) == run_done(
                    begin,
                    whole.take(j),
                    pairs(said),
                    offset,
                    report_each_us,
                )
            }),
        invariant
            clock.running(),
            asked == old(clock).log(),
            asked.is_prefix_of(clock.log()),
            pre == old(w).state(),
            start == fresh_summary(agreed),
            whole == turns@,
            begin == stream_begins(old(pipeline)@, old(reports).reported()),
            stream.offset() == offset,
            stream.each_us() == report_each_us,
            old(pipeline)@.wf() ==> pipeline@.wf(),
        ensures
            streamed(pre, w.state(), start, stream.summary_view(), run_items(false, whole)),
            said_since(asked, clock.log()).len() == 2 * run_units(false, whole).len(),
            stream.live(pipeline@, reports.reported()) == run_done(
                begin,
                whole,
                pairs(said_since(asked, clock.log())),
                offset,
                report_each_us,
            ),
        decreases rest@.len(),
    {
        let ghost now = stream.live(pipeline@, reports.reported());
        let ghost mid = w.state();
        let ghost before = stream.summary_view();
        let ghost had = clock.log();
        let ghost said = said_since(asked, had);
        let ghost done = run_items(false, whole.take(j));
        let turn: Turn = match rest.pop_front() {
            Some(turn) => turn,
            None => {
                proof {
                    assert(whole.take(j) =~= whole);
                }
                break;
            },
        };
        let ghost items = turn.found.items(now.seen);
        proof {
            assert(whole.skip(j)[0] == whole[j]);
            assert(whole[j] == turn);
            assert(rest@ =~= whole.skip(j + 1));
        }
        let r: Result<bool, SessionError> = stream.turn(turn, w, pipeline, reports, clock);
        let ghost new = said_since(had, clock.log());
        proof {
            assert(said_since(asked, clock.log()) =~= said + new);
        }
        match r {
            Ok(goes_on) => {
                proof {
                    lemma_turn_joined(
                        begin,
                        whole,
                        j,
                        said,
                        new,
                        offset,
                        report_each_us,
                    );
                    lemma_streamed_on(
                        pre,
                        mid,
                        w.state(),
                        start,
                        before,
                        stream.summary_view(),
                        done,
                        items,
                    );
                    j = j + 1;
                }
                if !goes_on {
                    break;
                }
            },
            Err(e) => {
                proof {
                    lemma_turn_broken_off(
                        begin,
                        whole,
                        j,
                        said,
                        new,
                        offset,
                        report_each_us,
                        stream.live(pipeline@, reports.reported()),
                    );
                    lemma_run_broken(
                        pre,
                        mid,
                        w.state(),
                        start,
                        before,
                        stream.summary_view(),
                        done,
                        items,
                        run_items(false, whole),
                        e,
                    );
                }
                return Err(e);
            },
        }
    }
    Ok(stream.finish())
}

/// The standard host offer for a display.
pub fn host_handshake(width: u32, height: u32, refresh_hz: u32) -> (h: Handshake)
    ensures
        h.protocol_version == 1,
        h.width == width,
        h.height == height,
        h.refresh_hz == refresh_hz,
        h.codecs@ == seq![VideoCodec::H264],
{
    let mut codecs: Vec<VideoCodec> = Vec::new();
    codecs.push(VideoCodec::H264);
    proof {
        assert(codecs@ =~= seq![VideoCodec::H264]);
    }
    Handshake { protocol_version: protocol_version(), width, height, refresh_hz, codecs }
}

/// Whether a frame from the client asks for a fresh keyframe.
pub fn forces_keyframe(frame: &Frame) -> (r: bool)
    ensures
        r == (frame@ == FrameView::Control(Control::RequestKeyframe)),
{
    match frame {
        Frame::Control(Control::RequestKeyframe) => true,
        _ => false,
    }
}

/// What coalescing keeps is the end of the backlog. If the backlog has a keyframe, what is kept
/// begins with the last one, which is then its only one; if it has none, nothing is dropped.
pub proof fn law_coalescing(backlog: Seq<EncodedView>)
    ensures
        coalesced(backlog).is_suffix_of(backlog),
        (exists|i: int| 0 <= i < backlog.len() && (#[trigger] backlog[i]).keyframe) ==> {
            &&& coalesced(backlog).len() > 0
            &&& coalesced(backlog)[0].keyframe
            &&& forall|j: int|
                0 < j < coalesced(backlog).len() ==> !(#[trigger] coalesced(backlog)[j]).keyframe
        },
        !(exists|i: int| 0 <= i < backlog.len() && (#[trigger] backlog[i]).keyframe)
            ==> coalesced(backlog) == backlog,
{
    lemma_last_keyframe(backlog);
    match last_keyframe(backlog) {
        Some(k) => {
            assert(backlog.skip(k) =~= backlog.subrange(k, backlog.len() as int));
            assert forall|j: int| 0 < j < coalesced(backlog).len() implies !(
            #[trigger] coalesced(backlog)[j]).keyframe by {
                assert(coalesced(backlog)[j] == backlog[k + j]);
            }
            assert(backlog[k].keyframe);
        },
        None => {
            assert(backlog =~= backlog.subrange(0, backlog.len() as int));
        },
    }
}

/// The first access unit that a fresh connection sends is a keyframe, whatever the source has
/// produced.
pub proof fn law_connection_starts_with_keyframe(turns: Seq<Turn>)
    ensures
        run_units(false, turns).len() > 0 ==> run_units(false, turns)[0].keyframe,
    decreases turns.len(),
{
    if turns.len() > 0 && !turns[0].found.ends() {
        let first = turns[0].found.units(false);
        if let Found::Frames(backlog) = turns[0].found {
            lemma_last_keyframe(encoded_views(backlog@));
        }
        if first.len() == 0 {
            assert(run_units(false, turns) =~= run_units(false, turns.skip(1)));
            law_connection_starts_with_keyframe(turns.skip(1));
        }
    }
}

/// The access units that a run of turns takes from the source, up to the turn that ends the stream.
pub open spec fn taken(turns: Seq<Turn>) -> nat
    decreases turns.len(),
{
    if turns.len() == 0 || turns[0].found.ends() {
        0
    } else {
        let first = match turns[0].found {
            Found::Frames(backlog) => backlog@.len(),
            _ => 0,
        };
        first + taken(turns.skip(1))
    }
}

/// How many access units there are among some things to send.
pub open spec fn unit_count(items: Seq<StreamItem>) -> nat
    decreases items.len(),
{
    if items.len() == 0 {
        0
    } else if items.last() is Unit {
        unit_count(items.drop_last()) + 1
    } else {
        unit_count(items.drop_last())
    }
}

/// What is sent is counted, each access unit with its latency.
proof fn lemma_counts(s: SummaryView, items: Seq<StreamItem>)
    requires
        s.frames + unit_count(items) <= u64::MAX,
    ensures
        items_sent(s, items).frames == s.frames + unit_count(items),
        items_sent(s, items).latency.len() == s.latency.len() + unit_count(items),
    decreases items.len(),
{
    reveal(item_sent);
    if items.len() > 0 {
        lemma_counts(s, items.drop_last());
    }
}

proof fn lemma_unit_count(a: Seq<StreamItem>, b: Seq<StreamItem>)
    ensures
        unit_count(a + b) == unit_count(a) + unit_count(b),
    decreases b.len(),
{
    if b.len() == 0 {
        assert(a + b =~= a);
    } else {
        assert((a + b).drop_last() =~= a + b.drop_last());
        lemma_unit_count(a, b.drop_last());
    }
}

proof fn lemma_all_units(frames: Seq<EncodedView>)
    ensures
        unit_count(units(frames)) == frames.len(),
    decreases frames.len(),
{
    if frames.len() > 0 {
        assert(units(frames).drop_last() =~= units(frames.drop_last()));
        lemma_all_units(frames.drop_last());
    }
}

/// Recording sent frames and what the client reports leaves the count of shed frames alone.
proof fn lemma_dropped_stays(
    p: PipelineView,
    frames: Seq<EncodedView>,
    times: Seq<(u64, u64)>,
    stats: Seq<Frame>,
    offset: Option<ClockOffset>,
)
    ensures
        hosts_recorded(p, frames, times).report == p.report,
        client_frames_recorded(p, stats, offset).report.dropped_frames == p.report.dropped_frames,
    decreases frames.len() + stats.len(),
{
    if frames.len() > 0 {
        lemma_dropped_stays(p, frames.drop_last(), times.drop_last(), Seq::empty(), offset);
    }
    if stats.len() > 0 {
        lemma_dropped_stays(p, Seq::empty(), times, stats.drop_last(), offset);
    }
}

/// A turn admits no more than it takes.
proof fn lemma_admitted_bound(seen_keyframe: bool, backlog: Seq<EncodedView>)
    ensures
        admitted(seen_keyframe, backlog).len() <= backlog.len(),
{
    lemma_last_keyframe(backlog);
}

proof fn lemma_nothing_lost(
    v: LiveView,
    turns: Seq<Turn>,
    times: Seq<(u64, u64)>,
    offset: Option<ClockOffset>,
    each_us: u64,
)
    requires
        v.pipeline.report.dropped_frames + taken(turns) <= u64::MAX,
    ensures
        ({
            let end = run_done(v, turns, times, offset, each_us);
            &&& unit_count(run_items(v.seen, turns)) == run_units(v.seen, turns).len()
            &&& run_units(v.seen, turns).len() <= taken(turns)
            &&& end.pipeline.report.dropped_frames == v.pipeline.report.dropped_frames + taken(
                turns,
            ) - run_units(v.seen, turns).len()
        }),
    decreases turns.len(),
{
    reveal(turn_done);
    if turns.len() > 0 {
        let turn = turns[0];
        let sent = turn.found.units(v.seen);
        let n = sent.len() as int;
        let after = turn_done(v, turn, times.take(n), offset, each_us);
        let shed = shed_in(v, turn.found);
        let recorded = sent.take(times.take(n).len() as int);
        lemma_dropped_stays(shed, recorded, times.take(n), Seq::empty(), offset);
        lemma_dropped_stays(
            hosts_recorded(shed, recorded, times.take(n)),
            Seq::empty(),
            times,
            turn.stats@,
            offset,
        );
        if let Found::Frames(backlog) = turn.found {
            lemma_admitted_bound(v.seen, encoded_views(backlog@));
            lemma_all_units(sent);
        }
        if !turn.found.ends() {
            lemma_nothing_lost(after, turns.skip(1), times.skip(n), offset, each_us);
            lemma_unit_count(turn.found.items(v.seen), run_items(after.seen, turns.skip(1)));
            if turn.found is Idle {
                reveal_with_fuel(unit_count, 2);
                assert(turn.found.items(v.seen).drop_last() =~= Seq::<StreamItem>::empty());
            }
        }
    }
}

/// Nothing is lost in a live stream: every access unit that is taken from the source is either sent
/// or counted as shed. The summary counts what was sent, with one latency for each, and keeps the
/// agreed configuration; the first video that goes out is a keyframe, and no handshake goes out.
pub proof fn law_sent_or_shed(
    agreed: AgreedConfig,
    pipeline: PipelineView,
    reports: Seq<ReportView>,
    turns: Seq<Turn>,
    times: Seq<(u64, u64)>,
    offset: Option<ClockOffset>,
    each_us: u64,
)
    requires
        pipeline.report.dropped_frames + taken(turns) <= u64::MAX,
    ensures
        ({
            let end = run_done(stream_begins(pipeline, reports), turns, times, offset, each_us);
            let s = items_sent(fresh_summary(agreed), run_items(false, turns));
            let frames = items_frames(fresh_summary(agreed), run_items(false, turns));
            &&& s.frames + (end.pipeline.report.dropped_frames - pipeline.report.dropped_frames)
                == taken(turns)
            &&& s.latency.len() == s.frames
            &&& s.agreed_config == agreed
            &&& run_units(false, turns).len() > 0 ==> run_units(false, turns)[0].keyframe
            &&& forall|i: int| 0 <= i < frames.len() ==> (#[trigger] frames[i]) !is Handshake
        }),
{
    let items = run_items(false, turns);
    let s = fresh_summary(agreed);
    lemma_nothing_lost(stream_begins(pipeline, reports), turns, times, offset, each_us);
    lemma_counts(s, items);
    lemma_agreed_stays(s, items);
    law_connection_starts_with_keyframe(turns);
    assert forall|i: int| 0 <= i < items_frames(s, items).len() implies (
    #[trigger] items_frames(s, items)[i]) !is Handshake by {
        lemma_streamed_frames(s, items, i);
    }
}

/// A stream holds configurations, access units and heartbeats.
pub proof fn lemma_streamed_frames(s: SummaryView, items: Seq<StreamItem>, i: int)
    requires
        0 <= i < items_frames(s, items).len(),
    ensures
        match items_frames(s, items)[i] {
            FrameView::VideoConfig { .. } | FrameView::Video { .. } => true,
            f => f == heartbeat(),
        },
    decreases items.len(),
{
    reveal(item_frames);
    if items.len() > 0 {
        let front = items_frames(s, items.drop_last());
        if i < front.len() {
            lemma_streamed_frames(s, items.drop_last(), i);
        }
    }
}

/// A stream that is asked to stop sends nothing more, whatever is waiting.
pub proof fn law_stop_sends_nothing(
    seen_keyframe: bool,
    before: Seq<Turn>,
    stop: Turn,
    after: Seq<Turn>,
)
    requires
        stop.found is Stop,
    ensures
        run_items(seen_keyframe, before + seq![stop] + after) == run_items(seen_keyframe, before),
    decreases before.len(),
{
    let all = before + seq![stop] + after;
    if before.len() == 0 {
        assert(all[0] == stop);
    } else {
        assert(all[0] == before[0]);
        assert(all.skip(1) =~= before.skip(1) + seq![stop] + after);
        if !before[0].found.ends() {
            law_stop_sends_nothing(
                seen_keyframe || before[0].found.units(seen_keyframe).len() > 0,
                before.skip(1),
                stop,
                after,
            );
        }
    }
}

/// Whether `f` is a video frame.
pub open spec fn is_video(f: FrameView) -> bool {
    f is Video
}

/// The video frames of a list, in order.
pub open spec fn videos_in(frames: Seq<FrameView>) -> Seq<FrameView> {
    frames.filter(|f: FrameView| is_video(f))
}

/// The video frames of a list of things to send: one for each access unit, with its timestamp, its
/// keyframe flag and its bytes.
pub open spec fn videos_of(items: Seq<StreamItem>) -> Seq<FrameView>
    decreases items.len(),
{
    if items.len() == 0 {
        Seq::empty()
    } else {
        match items.last() {
            StreamItem::Unit(e) => videos_of(items.drop_last()).push(
                FrameView::Video { pts_us: e.pts_us, keyframe: e.keyframe, nal: e.annex_b },
            ),
            StreamItem::Heartbeat => videos_of(items.drop_last()),
        }
    }
}

/// Every access unit is sent exactly once, unchanged and in order, whatever else is sent around
/// it.
pub proof fn law_every_unit_sent_once(s: SummaryView, items: Seq<StreamItem>)
    ensures
        videos_in(items_frames(s, items)) == videos_of(items),
    decreases items.len(),
{
    reveal(item_frames);
    let test = |f: FrameView| is_video(f);
    reveal(Seq::filter);
    if items.len() > 0 {
        let front = items.drop_last();
        law_every_unit_sent_once(s, front);
        let new = item_frames(items_sent(s, front), items.last());
        Seq::<FrameView>::filter_distributes_over_add(items_frames(s, front), new, test);
        assert(new.drop_last().drop_last() =~= Seq::<FrameView>::empty() || new.len() == 1);
        reveal_with_fuel(Seq::filter, 3);
        assert(videos_in(items_frames(s, items)) =~= videos_of(items));
    }
}

/// The `VideoConfig` frame for a configuration.
pub open spec fn config_frame(config: CodecConfigView, codec: VideoCodec) -> FrameView {
    FrameView::VideoConfig { codec, sps_pps: annex_b(seq![config.sps, config.pps]) }
}

/// Whether every keyframe among `frames` has the configuration right in front of it.
pub open spec fn configured_keyframes(frames: Seq<FrameView>, config: FrameView) -> bool {
    forall|i: int|
        0 <= i < frames.len() && (#[trigger] frames[i] matches FrameView::Video {
            keyframe,
            ..
        } && keyframe) ==> i > 0 && frames[i - 1] == config
}

/// On a stream whose first access unit is a keyframe that carries a configuration, every keyframe
/// is sent right behind that configuration, so that a decoder can join at any of them.
#[verifier::spinoff_prover]
pub proof fn law_config_precedes_every_keyframe(
    agreed: AgreedConfig,
    items: Seq<StreamItem>,
    first: EncodedView,
    config: CodecConfigView,
)
    requires
        items.len() > 0,
        items[0] == StreamItem::Unit(first),
        first.keyframe,
        crate::protocol::nal::codec_config_of(first.annex_b) == Some(config),
    ensures
        configured_keyframes(
            items_frames(fresh_summary(agreed), items),
            config_frame(config, agreed.codec),
        ),
        items_sent(fresh_summary(agreed), items).codec_config == Some(config),
    decreases items.len(),
{
    reveal(item_sent);
    reveal(item_frames);
    let s = fresh_summary(agreed);
    let front = items.drop_last();
    let had = items_frames(s, front);
    lemma_agreed_stays(s, front);
    if items.len() == 1 {
        assert(front =~= Seq::<StreamItem>::empty());
        assert(had =~= Seq::<FrameView>::empty());
    } else {
        law_config_precedes_every_keyframe(agreed, front, first, config);
    }
    let new = item_frames(items_sent(s, front), items.last());
    let all = items_frames(s, items);
    let cf = config_frame(config, agreed.codec);
    assert(all == had + new);
    assert forall|i: int|
        0 <= i < all.len() && (#[trigger] all[i] matches FrameView::Video { keyframe, .. }
            && keyframe) implies i > 0 && all[i - 1] == cf by {
        if i < had.len() {
            assert(had[i] == all[i]);
            assert(had[i - 1] == all[i - 1]);
        } else {
            assert(new[i - had.len()] == all[i]);
            assert(i - had.len() == 1);
            assert(new[0] == all[i - 1]);
        }
    }
}

/// The way of one access unit, end to end: it was captured when it says, handed over and sent at the
/// host's two readings, and it arrived, was decoded and was presented when the phone says. Its six
/// samples are the times between these, the phone's times being moved to the host's clock where a
/// stage has one end on each side.
pub proof fn law_unit_is_timed_end_to_end(
    p: PipelineView,
    e: EncodedView,
    said: Seq<u64>,
    arrive_us: u64,
    decode_us: u64,
    present_us: u64,
    offset: ClockOffset,
)
    requires
        said.len() == 2,
    ensures
        ({
            let sent = hosts_recorded(p, seq![e], pairs(said));
            let report = FrameView::Stats { pts_us: e.pts_us, arrive_us, decode_us, present_us };
            let now = client_frame_recorded(sent, report, Some(offset)).report;
            let was = p.report;
            &&& one_more_sample(was.capture_to_encode, now.capture_to_encode, said[0] - e.capture_us)
            &&& one_more_sample(was.encode_to_send, now.encode_to_send, said[1] - said[0])
            &&& one_more_sample(
                was.send_to_arrive,
                now.send_to_arrive,
                arrive_us - offset.offset_us - said[1],
            )
            &&& one_more_sample(was.arrive_to_decode, now.arrive_to_decode, decode_us - arrive_us)
            &&& one_more_sample(
                was.decode_to_present,
                now.decode_to_present,
                present_us - decode_us,
            )
            &&& one_more_sample(
                was.glass_to_glass,
                now.glass_to_glass,
                present_us - offset.offset_us - e.capture_us,
            )
            &&& now.unmatched_stats == was.unmatched_stats
            &&& now.dropped_frames == was.dropped_frames
        }),
{
    let times = pairs(said);
    let stamps = HostStamps {
        capture_us: e.capture_us,
        encode_done_us: said[0],
        send_done_us: said[1],
    };
    reveal_with_fuel(hosts_recorded, 2);
    assert(seq![e].drop_last() =~= Seq::<EncodedView>::empty());
    assert(times =~= seq![(said[0], said[1])]);
    assert(hosts_recorded(p, seq![e], times) == host_recorded(p, e.pts_us, stamps));
    law_each_stage_by_itself(
        p,
        e.pts_us,
        stamps,
        arrive_us,
        decode_us,
        present_us,
        offset.offset_us,
    );
}

/// Only reports count, and only once the clocks have been compared: any other frame of the client,
/// and a report before that, changes nothing.
pub proof fn law_only_reports_count(p: PipelineView, f: FrameView, offset: Option<ClockOffset>)
    ensures
        f !is Stats || offset is None ==> client_frame_recorded(p, f, offset) == p,
{
}

/// Every access unit that was sent has its own record, as long as there is room: its capture time,
/// and the two readings of the clock that were taken for it.
pub proof fn law_every_unit_has_its_record(
    p: PipelineView,
    frames: Seq<EncodedView>,
    said: Seq<u64>,
    i: int,
)
    requires
        p.wf(),
        p.order.len() + frames.len() <= p.capacity,
        said.len() == 2 * frames.len(),
        forall|a: int, b: int|
            0 <= a < b < frames.len() ==> (#[trigger] frames[a]).pts_us != (
            #[trigger] frames[b]).pts_us,
        0 <= i < frames.len(),
    ensures
        ({
            let now = hosts_recorded(p, frames, pairs(said));
            &&& now.inflight.dom().contains(frames[i].pts_us)
            &&& now.inflight[frames[i].pts_us].capture_us == frames[i].capture_us
            &&& now.inflight[frames[i].pts_us].encode_done_us == said[2 * i]
            &&& now.inflight[frames[i].pts_us].send_done_us == said[2 * i + 1]
            &&& now.report == p.report
        }),
{
    lemma_records(p, frames, pairs(said), i);
    lemma_dropped_stays(p, frames, pairs(said), Seq::empty(), None);
}

proof fn lemma_records(
    p: PipelineView,
    frames: Seq<EncodedView>,
    times: Seq<(u64, u64)>,
    i: int,
)
    requires
        p.wf(),
        p.order.len() + frames.len() <= p.capacity,
        times.len() == frames.len(),
        forall|a: int, b: int|
            0 <= a < b < frames.len() ==> (#[trigger] frames[a]).pts_us != (
            #[trigger] frames[b]).pts_us,
        0 <= i < frames.len() || frames.len() == 0,
    ensures
        ({
            let now = hosts_recorded(p, frames, times);
            &&& now.wf()
            &&& now.capacity == p.capacity
            &&& now.order.len() <= p.order.len() + frames.len()
            &&& frames.len() > 0 ==> {
                &&& now.inflight.dom().contains(frames[i].pts_us)
                &&& now.inflight[frames[i].pts_us] == (HostStamps {
                    capture_us: frames[i].capture_us,
                    encode_done_us: times[i].0,
                    send_done_us: times[i].1,
                })
            }
        }),
    decreases frames.len(),
{
    if frames.len() > 0 {
        let last = frames.len() - 1;
        let front = frames.drop_last();
        let before = if i < last {
            i
        } else {
            0
        };
        assert forall|a: int, b: int| 0 <= a < b < front.len() implies (#[trigger] front[a]).pts_us
            != (#[trigger] front[b]).pts_us by {
            assert(frames[a].pts_us != frames[b].pts_us);
        }
        lemma_records(p, front, times.drop_last(), before);
        let mid = hosts_recorded(p, front, times.drop_last());
        let stamps = HostStamps {
            capture_us: frames[last].capture_us,
            encode_done_us: times[last].0,
            send_done_us: times[last].1,
        };
        law_nothing_evicted_with_room(mid, frames[last].pts_us, stamps);
        law_store_is_bounded(mid, frames[last].pts_us, stamps, 0, 0, 0, 0);
        if i < last {
            assert(front[i] == frames[i]);
            assert(frames[i].pts_us != frames[last].pts_us);
        }
    }
}

/// The bytes that a stream counts are those that it puts on the link.
pub proof fn law_bytes_are_those_sent(s: SummaryView, items: Seq<StreamItem>)
    requires
        s.bytes_sent + wire_of(items_frames(s, items)).len() <= usize::MAX,
    ensures
        items_sent(s, items).bytes_sent == s.bytes_sent + wire_of(items_frames(s, items)).len(),
    decreases items.len(),
{
    reveal(item_sent);
    reveal(item_frames);
    if items.len() > 0 {
        let front = items.drop_last();
        let new = item_frames(items_sent(s, front), items.last());
        lemma_wire_of_concat(items_frames(s, front), new);
        law_bytes_are_those_sent(s, front);
        let none = Seq::<FrameView>::empty();
        reveal_with_fuel(wire_of, 2);
        assert(seq![heartbeat()].drop_last() =~= none);
        assert(wire_of(seq![heartbeat()]) =~= heartbeat().wire());
    }
}

/// What a summary says of a run of access units: how many there were, and the encode time of each,
/// in their order; the agreement stays.
pub proof fn law_summary_is_of_the_units(s: SummaryView, frames: Seq<EncodedView>)
    requires
        s.frames + frames.len() <= u64::MAX,
    ensures
        items_sent(s, units(frames)).frames == s.frames + frames.len(),
        items_sent(s, units(frames)).latency == s.latency + Seq::new(
            frames.len(),
            |i: int| frames[i].encode_micros,
        ),
        items_sent(s, units(frames)).agreed_config == s.agreed_config,
    decreases frames.len(),
{
    reveal(item_sent);
    let all = Seq::new(frames.len(), |i: int| frames[i].encode_micros);
    if frames.len() == 0 {
        assert(s.latency + all =~= s.latency);
    } else {
        let front = frames.drop_last();
        law_summary_is_of_the_units(s, front);
        assert(units(frames).drop_last() =~= units(front));
        assert(s.latency + all =~= (s.latency + Seq::new(
            front.len(),
            |i: int| front[i].encode_micros,
        )).push(frames.last().encode_micros));
    }
}

/// A heartbeat counts as bytes and as nothing else.
pub proof fn law_heartbeat_is_no_unit(s: SummaryView)
    ensures
        ({
            let now = item_sent(s, StreamItem::Heartbeat);
            &&& now.frames == s.frames
            &&& now.latency == s.latency
            &&& now.codec_config == s.codec_config
            &&& now.agreed_config == s.agreed_config
            &&& item_frames(s, StreamItem::Heartbeat) == seq![FrameView::Control(Control::Heartbeat)]
        }),
{
    reveal(item_sent);
    reveal(item_frames);
}

/// A configuration goes out for keyframes alone: whatever is sent, the frame right behind one is a
/// keyframe, and it carries the codec that was agreed on.
pub proof fn law_config_goes_with_a_keyframe(s: SummaryView, items: Seq<StreamItem>, i: int)
    requires
        0 <= i < items_frames(s, items).len(),
        items_frames(s, items)[i] is VideoConfig,
    ensures
        items_frames(s, items)[i]->VideoConfig_codec == s.agreed_config.codec,
        i + 1 < items_frames(s, items).len(),
        items_frames(s, items)[i + 1] matches FrameView::Video { keyframe, .. } && keyframe,
    decreases items.len(),
{
    reveal(item_frames);
    if items.len() > 0 {
        let front = items.drop_last();
        let had = items_frames(s, front);
        let new = item_frames(items_sent(s, front), items.last());
        lemma_agreed_stays(s, front);
        if i < had.len() {
            assert(had[i] == items_frames(s, items)[i]);
            law_config_goes_with_a_keyframe(s, front, i);
            assert(had[i + 1] == items_frames(s, items)[i + 1]);
        } else {
            assert(new[i - had.len()] == items_frames(s, items)[i]);
            assert(i - had.len() == 0);
            assert(new[1] == items_frames(s, items)[i + 1]);
        }
    }
}

/// What a connection admits: before its first keyframe nothing without one; from then on nothing is
/// held back but what a later keyframe in the backlog has made stale.
pub proof fn law_only_stale_units_are_shed(seen_keyframe: bool, backlog: Seq<EncodedView>)
    ensures
        ({
            let kept = admitted(seen_keyframe, backlog);
            let keyframe = exists|i: int|
                0 <= i < backlog.len() && (#[trigger] backlog[i]).keyframe;
            &&& !keyframe && !seen_keyframe ==> kept.len() == 0
            &&& !keyframe && seen_keyframe ==> kept == backlog
            &&& keyframe ==> {
                let shed = backlog.len() - kept.len();
                &&& kept.len() > 0
                &&& shed >= 0
                &&& kept == backlog.skip(shed)
                &&& kept[0].keyframe
                &&& forall|j: int| shed < j < backlog.len() ==> !(#[trigger] backlog[j]).keyframe
            }
        }),
{
    lemma_last_keyframe(backlog);
    if let Some(k) = last_keyframe(backlog) {
        assert(backlog[k].keyframe);
    }
}

/// A stream answers its events one by one, an access unit with itself and a pause with a heartbeat,
/// and nothing that comes after the first end of the capture.
pub proof fn law_events_are_answered_in_order(
    events: Seq<StreamEvent>,
    after: Seq<StreamEvent>,
    i: int,
)
    requires
        forall|j: int| 0 <= j < events.len() ==> (#[trigger] events[j]) !is Closed,
        0 <= i < events.len() || events.len() == 0,
    ensures
        items_of(events).len() == events.len(),
        events.len() > 0 ==> match events[i] {
            StreamEvent::Frame(e) => items_of(events)[i] == StreamItem::Unit(e@),
            StreamEvent::Idle => items_of(events)[i] == StreamItem::Heartbeat,
            StreamEvent::Closed => false,
        },
        items_of(events + seq![StreamEvent::Closed] + after) == items_of(events),
    decreases events.len(),
{
    let all = events + seq![StreamEvent::Closed] + after;
    if events.len() == 0 {
        assert(all[0] == StreamEvent::Closed);
    } else {
        let rest = events.skip(1);
        assert(all[0] == events[0]);
        assert(all.skip(1) =~= rest + seq![StreamEvent::Closed] + after);
        assert forall|j: int| 0 <= j < rest.len() implies (#[trigger] rest[j]) !is Closed by {
            assert(rest[j] == events[j + 1]);
        }
        let at = if i > 0 {
            i - 1
        } else {
            0
        };
        law_events_are_answered_in_order(rest, after, at);
        if i > 0 {
            assert(rest[i - 1] == events[i]);
        }
    }
}

/// A capture that has stopped ends a stream as a request to stop does.
pub proof fn law_closed_sends_nothing(
    seen_keyframe: bool,
    before: Seq<Turn>,
    closed: Turn,
    after: Seq<Turn>,
)
    requires
        closed.found is Closed,
    ensures
        run_items(seen_keyframe, before + seq![closed] + after) == run_items(
            seen_keyframe,
            before,
        ),
        run_units(seen_keyframe, before + seq![closed] + after) == run_units(
            seen_keyframe,
            before,
        ),
    decreases before.len(),
{
    let all = before + seq![closed] + after;
    if before.len() == 0 {
        assert(all[0] == closed);
    } else {
        assert(all[0] == before[0]);
        assert(all.skip(1) =~= before.skip(1) + seq![closed] + after);
        if !before[0].found.ends() {
            law_closed_sends_nothing(
                seen_keyframe || before[0].found.units(seen_keyframe).len() > 0,
                before.skip(1),
                closed,
                after,
            );
        }
    }
}

/// Reports are made in time: one follows a turn that does not end the stream exactly if there is no
/// interval, or the interval has passed since the last one; it is made of all that the client has
/// sent by then, and the next interval begins with it.
pub proof fn law_reports_are_in_time(
    v: LiveView,
    goes_on: bool,
    stats: Seq<Frame>,
    at_us: u64,
    offset: Option<ClockOffset>,
    each_us: u64,
)
    ensures
        ({
            let now = turn_settled(v, goes_on, stats, at_us, offset, each_us);
            let passed = each_us == 0 || at_us >= v.last_report_us + each_us;
            &&& goes_on && passed ==> now.last_report_us == at_us && now.reports == v.reports.push(
                now.pipeline.report,
            )
            &&& !goes_on || !passed ==> now.last_report_us == v.last_report_us && now.reports
                == v.reports
            &&& now.seen == v.seen
        }),
{
}

/// Once a turn has sent something, the connection has begun: from then on access units are admitted
/// without a keyframe among them.
pub proof fn law_stream_goes_on_after_a_keyframe(
    v: LiveView,
    turns: Seq<Turn>,
    times: Seq<(u64, u64)>,
    backlog: Vec<EncodedFrame>,
)
    requires
        turns.len() > 0,
        !turns[0].found.ends(),
        turns[0].found.units(false).len() > 0,
        forall|i: int|
            0 <= i < backlog@.len() ==> !(#[trigger] encoded_views(backlog@)[i]).keyframe,
    ensures
        run_units(false, turns) == turns[0].found.units(false) + run_units(true, turns.skip(1)),
        !v.seen ==> turn_sent(v, turns[0].found, times).seen,
        v.seen ==> turn_sent(v, Found::Idle, times).seen,
        !v.seen ==> !turn_sent(v, Found::Idle, times).seen,
        Found::Frames(backlog).units(true) == encoded_views(backlog@),
        Found::Frames(backlog).units(false).len() == 0,
{
    law_only_stale_units_are_shed(true, encoded_views(backlog@));
    law_only_stale_units_are_shed(false, encoded_views(backlog@));
}

/// What is sent in a turn: a heartbeat where nothing came, every admitted access unit where some
/// did, and nothing where the stream ends.
pub proof fn law_turn_sends_what_it_found(found: Found, seen_keyframe: bool, i: int)
    ensures
        found is Idle ==> found.items(seen_keyframe) == seq![StreamItem::Heartbeat],
        found is Stop || found is Closed ==> found.items(seen_keyframe).len() == 0,
        found is Frames ==> found.items(seen_keyframe).len() == found.units(seen_keyframe).len(),
        found is Frames && 0 <= i < found.units(seen_keyframe).len() ==> found.items(
            seen_keyframe,
        )[i] == StreamItem::Unit(found.units(seen_keyframe)[i]),
        found.ends() <==> found is Stop || found is Closed,
{
}

/// On a link that holds up, a clock exchange is exact where both messages took equally long: the
/// ping carries the host's first reading, and that reading and the one at the arrival of the answer
/// are its two ends. Any other frame in place of the answer is refused.
pub proof fn law_clock_sync_is_exact(
    pre: LinkState,
    post: LinkState,
    said: Seq<u64>,
    r: Result<ClockOffset, ClockSyncError>,
    reply: FrameView,
    delay: int,
    ahead: int,
)
    requires
        clock_synced(pre, post, said, r),
        pre.faultless,
        next_message(pre.incoming) == Ok::<FrameView, MessageError>(reply),
        delay >= 0,
        2 * delay <= u64::MAX,
        i64::MIN <= ahead <= i64::MAX,
    ensures
        said.len() == 2,
        post.sent == pre.sent + (FrameView::ClockPing { t0_us: said[0] }).wire(),
        post.incoming == after_frame(pre.incoming),
        reply !is ClockPong ==> r == Err::<ClockOffset, ClockSyncError>(
            ClockSyncError::UnexpectedReply,
        ),
        reply matches FrameView::ClockPong { t0_us, t1_us, t2_us } && t1_us == said[0] + delay
            + ahead && said[1] == t2_us - ahead + delay ==> r == Ok::<ClockOffset, ClockSyncError>(
            ClockOffset { offset_us: ahead as i64, rtt_us: (2 * delay) as u64 },
        ),
{
    if let FrameView::ClockPong { t0_us, t1_us, t2_us } = reply {
        if t1_us == said[0] + delay + ahead && said[1] == t2_us - ahead + delay {
            crate::protocol::clock::law_estimate_is_exact(
                said[0],
                t1_us,
                t2_us,
                said[1],
                delay,
                ahead,
            );
        }
    }
}

/// What arrives from the client is taken in piece by piece, in its order.
pub proof fn law_client_frames_are_taken_in_order(
    p: PipelineView,
    a: Seq<Frame>,
    b: Seq<Frame>,
    f: Frame,
    offset: Option<ClockOffset>,
)
    ensures
        client_frames_recorded(p, Seq::empty(), offset) == p,
        client_frames_recorded(p, seq![f], offset) == client_frame_recorded(p, f@, offset),
        client_frames_recorded(p, a + b, offset) == client_frames_recorded(
            client_frames_recorded(p, a, offset),
            b,
            offset,
        ),
    decreases b.len(),
{
    reveal_with_fuel(client_frames_recorded, 2);
    assert(seq![f].drop_last() =~= Seq::<Frame>::empty());
    if b.len() == 0 {
        assert(a + b =~= a);
    } else {
        law_client_frames_are_taken_in_order(p, a, b.drop_last(), f, offset);
        assert((a + b).drop_last() =~= a + b.drop_last());
    }
}

/// A summary is seen as it is, each value under its own name.
pub proof fn law_summary_is_seen_as_it_is(s: SendSessionSummary)
    ensures
        s@.frames == s.frames,
        s@.bytes_sent == s.bytes_sent,
        s@.latency == s.latency@,
        s@.agreed_config == s.agreed_config,
        s@.codec_config == config_view(s.codec_config),
{
}

/// What was sent well is on the link, behind what was there, and flushed: every single thing by
/// itself, and so all of them. It is counted, byte by byte and unit by unit.
pub proof fn law_sent_is_on_the_link(
    pre: LinkState,
    post: LinkState,
    before: SummaryView,
    after: SummaryView,
    item: StreamItem,
)
    requires
        item_step(pre, post, before, after, item, Ok(())),
        before.bytes_sent + (post.sent.len() - pre.sent.len()) <= usize::MAX,
        before.frames < u64::MAX,
    ensures
        pre.sent.is_prefix_of(post.sent),
        post.flushed == post.sent.len(),
        post.incoming == pre.incoming,
        after.bytes_sent - before.bytes_sent == post.sent.len() - pre.sent.len(),
        after.frames == before.frames + if item is Unit {
            1int
        } else {
            0int
        },
{
    let none = Seq::<StreamItem>::empty();
    let one = none.push(item);
    assert(one.drop_last() =~= none);
    lemma_item_added(before, none, item);
    assert(items_frames(before, one) =~= item_frames(before, item));
    law_bytes_are_those_sent(before, one);
    reveal(item_sent);
}

/// A stream that was sent well, on a link that held nothing back before, holds nothing back after.
pub proof fn law_nothing_is_held_back(
    pre: LinkState,
    post: LinkState,
    start: SummaryView,
    after: SummaryView,
    items: Seq<StreamItem>,
)
    requires
        streamed(pre, post, start, after, items),
        pre.flushed == pre.sent.len(),
        start.bytes_sent + (post.sent.len() - pre.sent.len()) <= usize::MAX,
    ensures
        post.flushed == post.sent.len(),
        pre.sent.is_prefix_of(post.sent),
        after.bytes_sent - start.bytes_sent == post.sent.len() - pre.sent.len(),
        after.agreed_config == start.agreed_config,
{
    law_bytes_are_those_sent(start, items);
    lemma_agreed_stays(start, items);
}

} // verus!
