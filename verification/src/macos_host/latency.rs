//! Latency bookkeeping: plain accumulators, and the fusion of host and phone timestamps into a
//! glass-to-glass report.

use std::collections::{HashMap, VecDeque};
use vstd::prelude::*;
use crate::count::{add_count, capped_count};
use crate::protocol::clock::{low_u64, wrap_u64, ClockOffset};
use super::encode::{law_percentile_counts_samples, law_percentiles, samples_below};
use super::encode::{max_of, percentile_of, sum_of, LatencyStats};

verus! {

broadcast use vstd::std_specs::hash::group_hash_axioms;

/// Host-side stage timestamps of one frame (host clock, microseconds), held until the phone's
/// report for the frame arrives.
#[derive(Debug, Clone, Copy, PartialEq, Eq, Structural)]
pub struct HostStamps {
    /// When the frame was captured.
    pub capture_us: u64,
    /// When its encoding was done.
    pub encode_done_us: u64,
    /// When it had been sent.
    pub send_done_us: u64,
}

/// Per-stage and glass-to-glass latencies (each in microseconds).
#[derive(Debug, PartialEq, Eq)]
pub struct LatencyReport {
    /// Capture to end of encoding.
    pub capture_to_encode: LatencyStats,
    /// End of encoding to end of sending.
    pub encode_to_send: LatencyStats,
    /// End of sending to arrival on the phone.
    pub send_to_arrive: LatencyStats,
    /// Arrival to end of decoding.
    pub arrive_to_decode: LatencyStats,
    /// End of decoding to presentation.
    pub decode_to_present: LatencyStats,
    /// Capture to presentation.
    pub glass_to_glass: LatencyStats,
    /// Frames with an interval that came out negative (clock jitter) and was counted as zero.
    pub anomalies: u64,
    /// Phone reports without a host record: the record was never made, or already evicted.
    pub unmatched_stats: u64,
    /// Encoded frames that the send loop shed.
    pub dropped_frames: u64,
}

/// A [`LatencyReport`] by its values.
#[verifier::ext_equal]
pub struct ReportView {
    pub capture_to_encode: Seq<u64>,
    pub encode_to_send: Seq<u64>,
    pub send_to_arrive: Seq<u64>,
    pub arrive_to_decode: Seq<u64>,
    pub decode_to_present: Seq<u64>,
    pub glass_to_glass: Seq<u64>,
    pub anomalies: u64,
    pub unmatched_stats: u64,
    pub dropped_frames: u64,
}

impl View for LatencyReport {
    type V = ReportView;

    open spec fn view(&self) -> ReportView {
        ReportView {
            capture_to_encode: self.capture_to_encode@,
            encode_to_send: self.encode_to_send@,
            send_to_arrive: self.send_to_arrive@,
            arrive_to_decode: self.arrive_to_decode@,
            decode_to_present: self.decode_to_present@,
            glass_to_glass: self.glass_to_glass@,
            anomalies: self.anomalies,
            unmatched_stats: self.unmatched_stats,
            dropped_frames: self.dropped_frames,
        }
    }
}

/// A report without samples.
pub open spec fn empty_report() -> ReportView {
    ReportView {
        capture_to_encode: Seq::empty(),
        encode_to_send: Seq::empty(),
        send_to_arrive: Seq::empty(),
        arrive_to_decode: Seq::empty(),
        decode_to_present: Seq::empty(),
        glass_to_glass: Seq::empty(),
        anomalies: 0,
        unmatched_stats: 0,
        dropped_frames: 0,
    }
}

/// The figures of a report that its one-line summary and its CSV row show: percentiles and maxima
/// in microseconds, `None` where there are no samples.
#[derive(Debug, Clone, Copy, PartialEq, Eq)]
pub struct ReportFigures {
    pub n: u64,
    pub g2g_p50: Option<u64>,
    pub g2g_p95: Option<u64>,
    pub g2g_max: Option<u64>,
    pub cap_enc_p50: Option<u64>,
    pub cap_enc_p95: Option<u64>,
    pub enc_snd_p50: Option<u64>,
    pub enc_snd_p95: Option<u64>,
    pub snd_arr_p50: Option<u64>,
    pub snd_arr_p95: Option<u64>,
    pub arr_dec_p50: Option<u64>,
    pub arr_dec_p95: Option<u64>,
    pub dec_pres_p50: Option<u64>,
    pub dec_pres_p95: Option<u64>,
    pub dropped: u64,
    pub unmatched: u64,
    pub anomalies: u64,
}

/// The figures of a report.
pub open spec fn figures_of(r: ReportView) -> ReportFigures {
    ReportFigures {
        n: r.glass_to_glass.len() as u64,
        g2g_p50: percentile_of(r.glass_to_glass, 50),
        g2g_p95: percentile_of(r.glass_to_glass, 95),
        g2g_max: max_of(r.glass_to_glass),
        cap_enc_p50: percentile_of(r.capture_to_encode, 50),
        cap_enc_p95: percentile_of(r.capture_to_encode, 95),
        enc_snd_p50: percentile_of(r.encode_to_send, 50),
        enc_snd_p95: percentile_of(r.encode_to_send, 95),
        snd_arr_p50: percentile_of(r.send_to_arrive, 50),
        snd_arr_p95: percentile_of(r.send_to_arrive, 95),
        arr_dec_p50: percentile_of(r.arrive_to_decode, 50),
        arr_dec_p95: percentile_of(r.arrive_to_decode, 95),
        dec_pres_p50: percentile_of(r.decode_to_present, 50),
        dec_pres_p95: percentile_of(r.decode_to_present, 95),
        dropped: r.dropped_frames,
        unmatched: r.unmatched_stats,
        anomalies: r.anomalies,
    }
}

impl LatencyReport {
    /// A report without samples.
    pub fn new() -> (r: Self)
        ensures
            r@ == empty_report(),
    {
        LatencyReport {
            capture_to_encode: LatencyStats::new(),
            encode_to_send: LatencyStats::new(),
            send_to_arrive: LatencyStats::new(),
            arrive_to_decode: LatencyStats::new(),
            decode_to_present: LatencyStats::new(),
            glass_to_glass: LatencyStats::new(),
            anomalies: 0,
            unmatched_stats: 0,
            dropped_frames: 0,
        }
    }

    /// The figures to show.
    pub fn figures(&self) -> (f: ReportFigures)
        ensures
            f.n == self@.glass_to_glass.len(),
            f == figures_of(self@),
    {
        ReportFigures {
            n: self.glass_to_glass.count(),
            g2g_p50: self.glass_to_glass.p50(),
            g2g_p95: self.glass_to_glass.p95(),
            g2g_max: self.glass_to_glass.max(),
            cap_enc_p50: self.capture_to_encode.p50(),
            cap_enc_p95: self.capture_to_encode.p95(),
            enc_snd_p50: self.encode_to_send.p50(),
            enc_snd_p95: self.encode_to_send.p95(),
            snd_arr_p50: self.send_to_arrive.p50(),
            snd_arr_p95: self.send_to_arrive.p95(),
            arr_dec_p50: self.arrive_to_decode.p50(),
            arr_dec_p95: self.arrive_to_decode.p95(),
            dec_pres_p50: self.decode_to_present.p50(),
            dec_pres_p95: self.decode_to_present.p95(),
            dropped: self.dropped_frames,
            unmatched: self.unmatched_stats,
            anomalies: self.anomalies,
        }
    }

    /// The lines to print, given how the phone's clock relates to the host's, where that is known.
    pub fn lines(&self, offset: Option<ClockOffset>) -> (lines: Vec<ReportLine>)
        ensures
            lines@ == report_lines_of(self@, offset),
    {
        let mut lines: Vec<ReportLine> = Vec::new();
        lines.push(make_stage_line(Stage::CaptureToEncode, &self.capture_to_encode));
        lines.push(make_stage_line(Stage::EncodeToSend, &self.encode_to_send));
        match offset {
            Some(o) => {
                lines.push(make_stage_line(Stage::SendToArrive, &self.send_to_arrive));
                lines.push(make_stage_line(Stage::ArriveToDecode, &self.arrive_to_decode));
                lines.push(make_stage_line(Stage::DecodeToPresent, &self.decode_to_present));
                lines.push(make_stage_line(Stage::GlassToGlass, &self.glass_to_glass));
                lines.push(
                    ReportLine::Precision {
                        offset_us: o.offset_us,
                        rtt_us: o.rtt_us,
                        half_rtt_us: o.rtt_us / 2,
                    },
                );
            },
            None => {
                lines.push(ReportLine::Unavailable);
            },
        }
        lines.push(ReportLine::Anomalies(self.anomalies));
        lines.push(ReportLine::Unmatched(self.unmatched_stats));
        lines.push(ReportLine::Dropped(self.dropped_frames));
        if self.glass_to_glass.count() > 0 {
            lines.push(ReportLine::Summary(self.figures()));
        }
        proof {
            assert(lines@ =~= report_lines_of(self@, offset));
        }
        lines
    }

    /// The header of the benchmark CSV, written once when a fresh log is created.
    pub fn csv_header() -> (r: &'static str)
        ensures
            r@ == "elapsed_s,n,g2g_p50,g2g_p95,g2g_max,cap_enc_p50,cap_enc_p95,enc_snd_p50,enc_snd_p95,snd_arr_p50,snd_arr_p95,arr_dec_p50,arr_dec_p95,dec_pres_p50,dec_pres_p95,dropped,unmatched,anomalies"@,
    {
        "elapsed_s,n,g2g_p50,g2g_p95,g2g_max,cap_enc_p50,cap_enc_p95,enc_snd_p50,enc_snd_p95,snd_arr_p50,snd_arr_p95,arr_dec_p50,arr_dec_p95,dec_pres_p50,dec_pres_p95,dropped,unmatched,anomalies"
    }
}

/// A stage of a frame's way from glass to glass.
#[derive(Debug, Clone, Copy, PartialEq, Eq, Structural)]
pub enum Stage {
    CaptureToEncode,
    EncodeToSend,
    SendToArrive,
    ArriveToDecode,
    DecodeToPresent,
    GlassToGlass,
}

/// The figures of one stage, in microseconds.
#[derive(Debug, Clone, Copy, PartialEq, Eq, Structural)]
pub struct StageFigures {
    pub count: u64,
    pub sum: u128,
    pub p50: u64,
    pub p95: u64,
    pub max: u64,
}

/// One line of a printed report.
#[derive(Debug, Clone, Copy, PartialEq, Eq)]
pub enum ReportLine {
    /// The figures of a stage, if it has any samples.
    Stage(Stage, Option<StageFigures>),
    /// How far the clocks are apart, and how precise every fused number is.
    Precision { offset_us: i64, rtt_us: u64, half_rtt_us: u64 },
    /// There is no glass-to-glass figure, as the clocks could not be compared.
    Unavailable,
    /// Frames with an interval that was counted as zero.
    Anomalies(u64),
    /// Phone reports without a host record.
    Unmatched(u64),
    /// Frames that were shed.
    Dropped(u64),
    /// The figures of the one-line summary.
    Summary(ReportFigures),
}

/// The line of a stage with the given samples.
pub open spec fn stage_line(stage: Stage, samples: Seq<u64>) -> ReportLine {
    ReportLine::Stage(
        stage,
        if samples.len() == 0 {
            None
        } else {
            Some(
                StageFigures {
                    count: samples.len() as u64,
                    sum: sum_of(samples) as u128,
                    p50: percentile_of(samples, 50)->0,
                    p95: percentile_of(samples, 95)->0,
                    max: max_of(samples)->0,
                },
            )
        },
    )
}

/// The lines of a printed report: the host's own stages always, the others and the precision of
/// the clocks if those could be compared, then the counts, and a summary if there is anything to
/// sum up.
pub open spec fn report_lines_of(r: ReportView, offset: Option<ClockOffset>) -> Seq<ReportLine> {
    let host = seq![
        stage_line(Stage::CaptureToEncode, r.capture_to_encode),
        stage_line(Stage::EncodeToSend, r.encode_to_send),
    ];
    let rest = match offset {
        Some(o) => seq![
            stage_line(Stage::SendToArrive, r.send_to_arrive),
            stage_line(Stage::ArriveToDecode, r.arrive_to_decode),
            stage_line(Stage::DecodeToPresent, r.decode_to_present),
            stage_line(Stage::GlassToGlass, r.glass_to_glass),
            ReportLine::Precision {
                offset_us: o.offset_us,
                rtt_us: o.rtt_us,
                half_rtt_us: o.rtt_us / 2,
            },
        ],
        None => seq![ReportLine::Unavailable],
    };
    let counts = seq![
        ReportLine::Anomalies(r.anomalies),
        ReportLine::Unmatched(r.unmatched_stats),
        ReportLine::Dropped(r.dropped_frames),
    ];
    let summary = if r.glass_to_glass.len() > 0 {
        seq![ReportLine::Summary(figures_of(r))]
    } else {
        Seq::empty()
    };
    host + rest + counts + summary
}

/// Make the line of a stage.
fn make_stage_line(stage: Stage, stats: &LatencyStats) -> (line: ReportLine)
    ensures
        line == stage_line(stage, stats@),
{
    if stats.count() == 0 {
        return ReportLine::Stage(stage, None);
    }
    match (stats.p50(), stats.p95(), stats.max()) {
        (Some(p50), Some(p95), Some(max)) => ReportLine::Stage(
            stage,
            Some(StageFigures { count: stats.count(), sum: stats.sum(), p50, p95, max }),
        ),
        _ => ReportLine::Stage(stage, None),
    }
}

impl Clone for LatencyReport {
    fn clone(&self) -> (r: Self)
        ensures
            r@ == self@,
    {
        LatencyReport {
            capture_to_encode: self.capture_to_encode.clone(),
            encode_to_send: self.encode_to_send.clone(),
            send_to_arrive: self.send_to_arrive.clone(),
            arrive_to_decode: self.arrive_to_decode.clone(),
            decode_to_present: self.decode_to_present.clone(),
            glass_to_glass: self.glass_to_glass.clone(),
            anomalies: self.anomalies,
            unmatched_stats: self.unmatched_stats,
            dropped_frames: self.dropped_frames,
        }
    }
}

/// Where the reports of a running stream go.
pub trait ReportSink {
    /// The reports received so far.
    open spec fn reported(&self) -> Seq<ReportView> {
        arbitrary()
    }

    /// Receive a report.
    fn report(&mut self, report: &LatencyReport)
        ensures
            final(self).reported() == old(self).reported().push(report@),
    ;
}

impl ReportSink for Vec<LatencyReport> {
    open spec fn reported(&self) -> Seq<ReportView> {
        Seq::new(self@.len(), |i: int| self@[i]@)
    }

    fn report(&mut self, report: &LatencyReport) {
        self.push(report.clone());
        proof {
            assert(self.reported() =~= old(self).reported().push(report@));
        }
    }
}

/// Fuses host and phone timestamps, correlated by `pts_us`, into a [`LatencyReport`]. Host
/// timestamps wait in a bounded store until the phone's report arrives or they are evicted, the
/// oldest first.
#[derive(Debug)]
pub struct PipelineLatency {
    inflight: HashMap<u64, HostStamps>,
    order: VecDeque<u64>,
    capacity: usize,
    report: LatencyReport,
}

/// A [`PipelineLatency`] by its values.
#[verifier::ext_equal]
pub struct PipelineView {
    /// The waiting host records.
    pub inflight: Map<u64, HostStamps>,
    /// The keys of the waiting records, in the order in which the records were made.
    pub order: Seq<u64>,
    /// The most records that wait at a time.
    pub capacity: nat,
    /// The report so far.
    pub report: ReportView,
}

impl PipelineView {
    /// The order holds exactly the keys of the waiting records, each once, and no more records
    /// wait than there is room for.
    pub open spec fn wf(self) -> bool {
        &&& self.capacity >= 1
        &&& self.order.no_duplicates()
        &&& self.order.to_set() == self.inflight.dom()
        &&& self.order.len() <= self.capacity
    }
}

/// The order without a key.
pub open spec fn without(order: Seq<u64>, key: u64) -> Seq<u64>
    decreases order.len(),
{
    if order.len() == 0 {
        order
    } else if order[0] == key {
        order.skip(1)
    } else {
        seq![order[0]] + without(order.skip(1), key)
    }
}

/// What is left when the oldest records are evicted until fewer than `capacity` wait.
pub open spec fn evicted(inflight: Map<u64, HostStamps>, order: Seq<u64>, capacity: nat) -> (
    Map<u64, HostStamps>,
    Seq<u64>,
)
    decreases order.len(),
{
    if inflight.len() >= capacity && order.len() > 0 {
        evicted(inflight.remove(order[0]), order.skip(1), capacity)
    } else {
        (inflight, order)
    }
}

/// The effect of recording the host stamps of one frame: a record of that frame that waits already
/// is replaced where it is; for a new one room is made, and its key joins the order.
pub open spec fn host_recorded(pre: PipelineView, pts_us: u64, stamps: HostStamps) -> PipelineView {
    if pre.inflight.dom().contains(pts_us) {
        PipelineView { inflight: pre.inflight.insert(pts_us, stamps), ..pre }
    } else {
        let (inflight, order) = evicted(pre.inflight, pre.order, pre.capacity);
        PipelineView {
            inflight: inflight.insert(pts_us, stamps),
            order: order.push(pts_us),
            ..pre
        }
    }
}

/// The sample for an interval: its length, or zero where it is negative.
pub open spec fn gap_sample(from: int, to: int) -> u64 {
    if to - from < 0 {
        0
    } else {
        wrap_u64(to - from) as u64
    }
}

/// The report with one more frame: six intervals, and an anomaly if any of them is negative.
pub open spec fn fused(
    r: ReportView,
    h: HostStamps,
    arrive_us: u64,
    decode_us: u64,
    present_us: u64,
    offset_us: i64,
) -> ReportView {
    let capture = h.capture_us as int;
    let encode_done = h.encode_done_us as int;
    let send_done = h.send_done_us as int;
    let arrive = arrive_us - offset_us;
    let decode = decode_us - offset_us;
    let present = present_us - offset_us;
    let negative = encode_done < capture || send_done < encode_done || arrive < send_done || decode
        < arrive || present < decode || present < capture;
    ReportView {
        capture_to_encode: r.capture_to_encode.push(gap_sample(capture, encode_done)),
        encode_to_send: r.encode_to_send.push(gap_sample(encode_done, send_done)),
        send_to_arrive: r.send_to_arrive.push(gap_sample(send_done, arrive)),
        arrive_to_decode: r.arrive_to_decode.push(gap_sample(arrive, decode)),
        decode_to_present: r.decode_to_present.push(gap_sample(decode, present)),
        glass_to_glass: r.glass_to_glass.push(gap_sample(capture, present)),
        anomalies: if negative {
            capped_count(r.anomalies, 1)
        } else {
            r.anomalies
        },
        ..r
    }
}

/// The effect of a phone report: it is fused with the record of its frame, or counted as
/// unmatched.
pub open spec fn stats_recorded(
    pre: PipelineView,
    pts_us: u64,
    arrive_us: u64,
    decode_us: u64,
    present_us: u64,
    offset_us: i64,
) -> PipelineView {
    if pre.inflight.dom().contains(pts_us) {
        PipelineView {
            inflight: pre.inflight.remove(pts_us),
            order: without(pre.order, pts_us),
            report: fused(
                pre.report,
                pre.inflight[pts_us],
                arrive_us,
                decode_us,
                present_us,
                offset_us,
            ),
            ..pre
        }
    } else {
        PipelineView {
            report: ReportView {
                unmatched_stats: capped_count(pre.report.unmatched_stats, 1),
                ..pre.report
            },
            ..pre
        }
    }
}

/// The effect of shedding `n` frames.
pub open spec fn dropped_recorded(pre: PipelineView, n: u64) -> PipelineView {
    PipelineView {
        report: ReportView {
            dropped_frames: capped_count(pre.report.dropped_frames, n),
            ..pre.report
        },
        ..pre
    }
}

/// Record an interval; the result says whether it was negative.
fn record_gap(stats: &mut LatencyStats, from: i128, to: i128) -> (negative: bool)
    requires
        -0x4_0000_0000_0000_0000 < from < 0x4_0000_0000_0000_0000,
        -0x4_0000_0000_0000_0000 < to < 0x4_0000_0000_0000_0000,
    ensures
        final(stats)@ == old(stats)@.push(gap_sample(from as int, to as int)),
        negative == (to < from),
{
    let d: i128 = to - from;
    if d < 0 {
        stats.record(0);
        true
    } else {
        stats.record(low_u64(d));
        false
    }
}

impl View for PipelineLatency {
    type V = PipelineView;

    closed spec fn view(&self) -> PipelineView {
        PipelineView {
            inflight: self.inflight@,
            order: self.order@,
            capacity: self.capacity as nat,
            report: self.report@,
        }
    }
}

impl PipelineLatency {
    /// New accumulator that lets at most `capacity` host records wait, and always at least one.
    pub fn new(capacity: usize) -> (r: Self)
        ensures
            r@.inflight == Map::<u64, HostStamps>::empty(),
            r@.order == Seq::<u64>::empty(),
            r@.capacity == if capacity == 0 {
                1
            } else {
                capacity as nat
            },
            r@.report == empty_report(),
            r@.wf(),
    {
        let room: usize = if capacity == 0 {
            1
        } else {
            capacity
        };
        proof {
            assert(Seq::<u64>::empty().to_set() =~= Map::<u64, HostStamps>::empty().dom());
        }
        PipelineLatency {
            inflight: HashMap::new(),
            order: VecDeque::new(),
            capacity: room,
            report: LatencyReport::new(),
        }
    }

    /// Record the host-side stage times of one frame, evicting the oldest waiting records if there
    /// is no room.
    pub fn record_host(&mut self, pts_us: u64, capture_us: u64, encode_done_us: u64, send_done_us: u64)
        ensures
            final(self)@ == host_recorded(
                old(self)@,
                pts_us,
                (HostStamps { capture_us, encode_done_us, send_done_us }),
            ),
            old(self)@.wf() ==> final(self)@.wf(),
    {
        let ghost pre = self@;
        let stamps = HostStamps { capture_us, encode_done_us, send_done_us };
        if self.inflight.contains_key(&pts_us) {
            self.inflight.insert(pts_us, stamps);
            proof {
                assert(pre.wf() ==> self@.inflight.dom() =~= pre.inflight.dom());
            }
            return;
        }
        while self.inflight.len() >= self.capacity
            invariant_except_break
                evicted(pre.inflight, pre.order, pre.capacity) == evicted(
                    self@.inflight,
                    self@.order,
                    self@.capacity,
                ),
            invariant
                self@.capacity == pre.capacity,
                self@.report == pre.report,
                self@.inflight.dom().subset_of(pre.inflight.dom()),
            ensures
                evicted(pre.inflight, pre.order, pre.capacity) == (self@.inflight, self@.order),
            decreases self@.order.len(),
        {
            let ghost keys = self@.order;
            match self.order.pop_front() {
                Some(oldest) => {
                    self.inflight.remove(&oldest);
                    proof {
                        assert(self@.order =~= keys.skip(1));
                    }
                },
                None => {
                    break;
                },
            }
        }
        self.inflight.insert(pts_us, stamps);
        self.order.push_back(pts_us);
        proof {
            if pre.wf() {
                lemma_host_recorded_wf(pre, pts_us, stamps);
            }
        }
    }

    /// Record the phone's report for one frame: its times are moved to the host clock by `offset`
    /// and fused with the record of the frame. A report without a record is counted.
    pub fn record_stats(
        &mut self,
        pts_us: u64,
        arrive_us: u64,
        decode_us: u64,
        present_us: u64,
        offset: ClockOffset,
    )
        ensures
            final(self)@ == stats_recorded(
                old(self)@,
                pts_us,
                arrive_us,
                decode_us,
                present_us,
                offset.offset_us,
            ),
            old(self)@.wf() ==> final(self)@.wf(),
    {
        let ghost pre = self@;
        let h: HostStamps = match self.inflight.remove(&pts_us) {
            Some(h) => h,
            None => {
                self.report.unmatched_stats = add_count(self.report.unmatched_stats, 1);
                proof {
                    assert(pre.inflight.remove(pts_us) =~= pre.inflight);
                }
                return;
            },
        };
        self.forget_order(pts_us);
        proof {
            if pre.wf() {
                lemma_without(pre.order, pts_us);
                assert(without(pre.order, pts_us).to_set() =~= pre.inflight.remove(pts_us).dom());
            }
        }
        let off: i128 = offset.offset_us as i128;
        let capture: i128 = h.capture_us as i128;
        let encode_done: i128 = h.encode_done_us as i128;
        let send_done: i128 = h.send_done_us as i128;
        let arrive: i128 = arrive_us as i128 - off;
        let decode: i128 = decode_us as i128 - off;
        let present: i128 = present_us as i128 - off;
        let n1: bool = record_gap(&mut self.report.capture_to_encode, capture, encode_done);
        let n2: bool = record_gap(&mut self.report.encode_to_send, encode_done, send_done);
        let n3: bool = record_gap(&mut self.report.send_to_arrive, send_done, arrive);
        let n4: bool = record_gap(&mut self.report.arrive_to_decode, arrive, decode);
        let n5: bool = record_gap(&mut self.report.decode_to_present, decode, present);
        let n6: bool = record_gap(&mut self.report.glass_to_glass, capture, present);
        if n1 || n2 || n3 || n4 || n5 || n6 {
            self.report.anomalies = add_count(self.report.anomalies, 1);
        }
    }

    /// Take a key out of the order.
    fn forget_order(&mut self, pts_us: u64)
        ensures
            final(self)@ == (PipelineView { order: without(old(self)@.order, pts_us), ..old(self)@ }),
    {
        let ghost all = self.order@;
        let mut i: usize = 0;
        proof {
            assert(all.skip(0) =~= all);
            assert(all.take(0) + without(all, pts_us) =~= without(all, pts_us));
        }
        while i < self.order.len()
            invariant
                self@ == old(self)@,
                all == self.order@,
                all == old(self)@.order,
                i <= all.len(),
                without(all, pts_us) == all.take(i as int) + without(all.skip(i as int), pts_us),
            decreases all.len() - i,
        {
            proof {
                assert(all.skip(i as int)[0] == all[i as int]);
                assert(all.skip(i as int).skip(1) =~= all.skip(i + 1));
            }
            if self.order[i] == pts_us {
                let _ = self.order.remove(i);
                proof {
                    assert(self.order@ =~= all.take(i as int) + all.skip(i + 1));
                }
                return;
            }
            proof {
                assert(all.take(i as int) + (seq![all[i as int]] + without(all.skip(i + 1), pts_us))
                    =~= all.take(i + 1) + without(all.skip(i + 1), pts_us));
            }
            i = i + 1;
        }
        proof {
            assert(all.take(i as int) + without(all.skip(i as int), pts_us) =~= all);
        }
    }

    /// Record that the send loop shed `n` frames.
    pub fn record_dropped(&mut self, n: u64)
        ensures
            final(self)@ == dropped_recorded(old(self)@, n),
            old(self)@.wf() ==> final(self)@.wf(),
    {
        self.report.dropped_frames = add_count(self.report.dropped_frames, n);
    }

    /// The report so far.
    pub fn report(&self) -> (r: &LatencyReport)
        ensures
            r@ == self@.report,
    {
        &self.report
    }
}

/// Taking a key out of an order that holds it once leaves the others.
proof fn lemma_without(order: Seq<u64>, key: u64)
    requires
        order.no_duplicates(),
    ensures
        without(order, key).no_duplicates(),
        without(order, key).len() <= order.len(),
        forall|k: u64|
            #[trigger] without(order, key).contains(k) <==> order.contains(k) && k != key,
    decreases order.len(),
{
    if order.len() > 0 {
        let rest = order.skip(1);
        let first = seq![order[0]];
        assert(order =~= first + rest);
        assert forall|k: u64| order.contains(k) <==> k == order[0] || rest.contains(k) by {
            if order.contains(k) {
                let i = choose|i: int| 0 <= i < order.len() && order[i] == k;
                if i > 0 {
                    assert(rest[i - 1] == k);
                }
            }
            if rest.contains(k) {
                let i = choose|i: int| 0 <= i < rest.len() && rest[i] == k;
                assert(order[i + 1] == k);
            }
            assert(order[0] == order[0]);
        }
        assert(!rest.contains(order[0]));
        if order[0] != key {
            lemma_without(rest, key);
            let kept = without(rest, key);
            let all = first + kept;
            assert forall|k: u64| #[trigger] all.contains(k) <==> k == order[0] || kept.contains(
                k,
            ) by {
                if all.contains(k) {
                    let i = choose|i: int| 0 <= i < all.len() && all[i] == k;
                    if i > 0 {
                        assert(kept[i - 1] == k);
                    }
                }
                if kept.contains(k) {
                    let i = choose|i: int| 0 <= i < kept.len() && kept[i] == k;
                    assert(all[i + 1] == k);
                }
                assert(all[0] == order[0]);
            }
            assert(!kept.contains(order[0]));
            assert forall|i: int, j: int| 0 <= i < all.len() && 0 <= j < all.len() && i
                != j implies all[i] != all[j] by {
                if i == 0 {
                    assert(kept[j - 1] == all[j]);
                } else if j == 0 {
                    assert(kept[i - 1] == all[i]);
                } else {
                    assert(kept[i - 1] == all[i] && kept[j - 1] == all[j]);
                }
            }
        }
    }
}

/// What a well-formed store evicts for a new record: the oldest one if it is full, and nothing
/// otherwise.
proof fn lemma_evicted(pre: PipelineView)
    requires
        pre.wf(),
    ensures
        evicted(pre.inflight, pre.order, pre.capacity) == if pre.order.len() < pre.capacity {
            (pre.inflight, pre.order)
        } else {
            (pre.inflight.remove(pre.order[0]), pre.order.skip(1))
        },
        pre.inflight.len() == pre.order.len(),
{
    pre.order.unique_seq_to_set();
    if pre.order.len() >= pre.capacity {
        assert(pre.order.contains(pre.order[0]));
        assert(pre.inflight.dom().contains(pre.order[0]));
        let m = pre.inflight.remove(pre.order[0]);
        let o = pre.order.skip(1);
        assert(m.len() < pre.capacity);
        assert(evicted(m, o, pre.capacity) == (m, o));
    }
}

proof fn lemma_host_recorded_wf(pre: PipelineView, pts_us: u64, stamps: HostStamps)
    requires
        pre.wf(),
    ensures
        host_recorded(pre, pts_us, stamps).wf(),
{
    lemma_evicted(pre);
    let post = host_recorded(pre, pts_us, stamps);
    if pre.inflight.dom().contains(pts_us) {
        assert(post.inflight.dom() =~= pre.inflight.dom());
    } else {
        let (m, o) = evicted(pre.inflight, pre.order, pre.capacity);
        assert(!pre.order.contains(pts_us)) by {
            if pre.order.contains(pts_us) {
                assert(pre.order.to_set().contains(pts_us));
            }
        }
        assert(o.no_duplicates());
        assert forall|k: u64| o.contains(k) implies pre.order.contains(k) by {
            let i = choose|i: int| 0 <= i < o.len() && o[i] == k;
            assert(pre.order[i + pre.order.len() - o.len()] == k);
        }
        assert forall|k: u64| #[trigger] m.dom().contains(k) <==> o.contains(k) by {
            if m.dom().contains(k) {
                assert(pre.order.to_set().contains(k));
                let i = choose|i: int| 0 <= i < pre.order.len() && pre.order[i] == k;
                assert(o[i - (pre.order.len() - o.len())] == k);
            }
            if o.contains(k) {
                assert(pre.order.to_set().contains(k));
                let i = choose|i: int| 0 <= i < o.len() && o[i] == k;
                assert(pre.order[i + pre.order.len() - o.len()] == k);
            }
        }
        assert forall|k: u64| #[trigger] post.order.to_set().contains(k) implies
            post.inflight.dom().contains(k) by {
            let i = choose|i: int| 0 <= i < post.order.len() && post.order[i] == k;
            if i < o.len() {
                assert(o[i] == k);
            }
        }
        assert forall|k: u64| #[trigger] post.inflight.dom().contains(k) implies
            post.order.to_set().contains(k) by {
            if k == pts_us {
                assert(post.order[o.len() as int] == k);
            } else {
                let i = choose|i: int| 0 <= i < o.len() && o[i] == k;
                assert(post.order[i] == k);
            }
        }
        assert(post.order.to_set() =~= post.inflight.dom());
    }
}

impl Default for LatencyReport {
    fn default() -> (r: Self)
        ensures
            r@ == empty_report(),
    {
        LatencyReport::new()
    }
}

/// In a full store, the record that makes room for a new frame is the oldest that still waits, and
/// no other.
pub proof fn law_oldest_is_evicted(pre: PipelineView, pts_us: u64, stamps: HostStamps)
    requires
        pre.wf(),
        pre.order.len() == pre.capacity,
        !pre.inflight.dom().contains(pts_us),
    ensures
        host_recorded(pre, pts_us, stamps).inflight == pre.inflight.remove(pre.order[0]).insert(
            pts_us,
            stamps,
        ),
        host_recorded(pre, pts_us, stamps).order == pre.order.skip(1).push(pts_us),
{
    lemma_evicted(pre);
}

/// While there is room, and wherever the frame has a record already, nothing is evicted.
pub proof fn law_nothing_evicted_with_room(pre: PipelineView, pts_us: u64, stamps: HostStamps)
    requires
        pre.wf(),
        pre.order.len() < pre.capacity || pre.inflight.dom().contains(pts_us),
    ensures
        host_recorded(pre, pts_us, stamps).inflight == pre.inflight.insert(pts_us, stamps),
        host_recorded(pre, pts_us, stamps).order == if pre.inflight.dom().contains(pts_us) {
            pre.order
        } else {
            pre.order.push(pts_us)
        },
{
    lemma_evicted(pre);
}

/// The store stays well-formed, whatever is recorded.
pub proof fn law_store_is_bounded(
    pre: PipelineView,
    pts_us: u64,
    stamps: HostStamps,
    arrive_us: u64,
    decode_us: u64,
    present_us: u64,
    offset_us: i64,
)
    requires
        pre.wf(),
    ensures
        host_recorded(pre, pts_us, stamps).wf(),
        stats_recorded(pre, pts_us, arrive_us, decode_us, present_us, offset_us).wf(),
{
    lemma_host_recorded_wf(pre, pts_us, stamps);
    if pre.inflight.dom().contains(pts_us) {
        lemma_without(pre.order, pts_us);
        assert(without(pre.order, pts_us).to_set() =~= pre.inflight.remove(pts_us).dom());
    }
}

/// The store after a run of new records.
pub open spec fn hosts_after(pre: PipelineView, records: Seq<(u64, HostStamps)>) -> PipelineView
    decreases records.len(),
{
    if records.len() == 0 {
        pre
    } else {
        host_recorded(
            hosts_after(pre, records.drop_last()),
            records.last().0,
            records.last().1,
        )
    }
}

/// One report of the phone, as it goes into a store.
pub struct PhoneReport {
    pub pts_us: u64,
    pub arrive_us: u64,
    pub decode_us: u64,
    pub present_us: u64,
    pub offset_us: i64,
}

/// The store after one report of the phone.
pub open spec fn report_taken(pre: PipelineView, r: PhoneReport) -> PipelineView {
    stats_recorded(pre, r.pts_us, r.arrive_us, r.decode_us, r.present_us, r.offset_us)
}

/// The store after a run of reports of the phone.
pub open spec fn reports_taken(pre: PipelineView, reports: Seq<PhoneReport>) -> PipelineView
    decreases reports.len(),
{
    if reports.len() == 0 {
        pre
    } else {
        report_taken(reports_taken(pre, reports.drop_last()), reports.last())
    }
}

/// The frames of some records.
pub open spec fn keys_of(records: Seq<(u64, HostStamps)>) -> Seq<u64> {
    Seq::new(records.len(), |i: int| records[i].0)
}

/// How many of `n` new records a store of some capacity keeps.
pub open spec fn kept_count(n: nat, capacity: nat) -> nat {
    if n < capacity {
        n
    } else {
        capacity
    }
}

/// Of a run of records of different frames that goes into an empty store, exactly the last ones are
/// kept, as many as there is room for, and the report does not change.
pub proof fn law_last_records_are_kept(pre: PipelineView, records: Seq<(u64, HostStamps)>)
    requires
        pre.wf(),
        pre.order.len() == 0,
        keys_of(records).no_duplicates(),
    ensures
        ({
            let post = hosts_after(pre, records);
            let n = records.len();
            &&& post.wf()
            &&& post.report == pre.report
            &&& post.capacity == pre.capacity
            &&& post.order == keys_of(records).skip(n - kept_count(n, pre.capacity))
            &&& forall|i: int|
                0 <= i < n ==> (post.inflight.dom().contains((#[trigger] records[i]).0) <==> i >= n
                    - kept_count(n, pre.capacity))
        }),
    decreases records.len(),
{
    let n = records.len();
    let post = hosts_after(pre, records);
    let keys = keys_of(records);
    if n > 0 {
        let front = records.drop_last();
        assert(keys_of(front) =~= keys.drop_last());
        assert forall|i: int, j: int| 0 <= i < n - 1 && 0 <= j < n - 1 && i != j implies
            keys_of(front)[i] != keys_of(front)[j] by {
            assert(keys[i] != keys[j]);
        }
        law_last_records_are_kept(pre, front);
        let mid = hosts_after(pre, front);
        let last = records.last();
        assert(!mid.inflight.dom().contains(last.0)) by {
            if mid.inflight.dom().contains(last.0) {
                assert(mid.order.to_set().contains(last.0));
                let i = choose|i: int| 0 <= i < mid.order.len() && mid.order[i] == last.0;
                let at = i + (n - 1) - mid.order.len();
                assert(mid.order[i] == keys[at]);
                assert(keys[n - 1] == last.0);
                assert(keys[at] != keys[n - 1]);
            }
        }
        lemma_evicted(mid);
        lemma_host_recorded_wf(mid, last.0, last.1);
        assert(mid.order.len() == kept_count((n - 1) as nat, pre.capacity));
        assert(post.order =~= keys.skip(n - kept_count(n, pre.capacity)));
    } else {
        assert(keys.skip(0) =~= pre.order);
    }
    assert forall|i: int| 0 <= i < n implies (post.inflight.dom().contains((#[trigger] records[i]).0)
        <==> i >= n - kept_count(n, pre.capacity)) by {
        let from = n - kept_count(n, pre.capacity);
        assert(keys[i] == records[i].0);
        if i >= from {
            assert(post.order[i - from] == records[i].0);
            assert(post.order.to_set().contains(records[i].0));
        } else if post.inflight.dom().contains(records[i].0) {
            assert(post.order.to_set().contains(records[i].0));
            let k = choose|k: int| 0 <= k < post.order.len() && post.order[k] == records[i].0;
            assert(post.order[k] == keys[k + from]);
            assert(keys[k + from] != keys[i]);
        }
    }
}

/// Asking for other frames changes nothing for a frame: its record stays, or stays missing.
proof fn lemma_others_asked(pre: PipelineView, reports: Seq<PhoneReport>, pts_us: u64)
    requires
        forall|i: int| 0 <= i < reports.len() ==> (#[trigger] reports[i]).pts_us != pts_us,
    ensures
        reports_taken(pre, reports).inflight.dom().contains(pts_us)
            == pre.inflight.dom().contains(pts_us),
    decreases reports.len(),
{
    if reports.len() > 0 {
        let front = reports.drop_last();
        assert forall|i: int| 0 <= i < front.len() implies (#[trigger] front[i]).pts_us
            != pts_us by {
            assert(front[i] == reports[i]);
        }
        lemma_others_asked(pre, front, pts_us);
        assert(reports.last() == reports[reports.len() - 1]);
    }
}

/// After a run of records of different frames in an empty store, a report of the phone is fused
/// exactly for the last ones, as many as there is room for, in whatever order the phone reports;
/// for the earlier ones it is counted as unmatched.
pub proof fn law_last_records_fuse(
    pre: PipelineView,
    records: Seq<(u64, HostStamps)>,
    before: Seq<PhoneReport>,
    i: int,
    r: PhoneReport,
)
    requires
        pre.wf(),
        pre.order.len() == 0,
        keys_of(records).no_duplicates(),
        0 <= i < records.len(),
        r.pts_us == records[i].0,
        forall|j: int| 0 <= j < before.len() ==> (#[trigger] before[j]).pts_us != r.pts_us,
    ensures
        ({
            let now = reports_taken(hosts_after(pre, records), before);
            let after = report_taken(now, r);
            if i >= records.len() - kept_count(records.len(), pre.capacity) {
                &&& after.report.glass_to_glass.len() == now.report.glass_to_glass.len() + 1
                &&& after.report.unmatched_stats == now.report.unmatched_stats
            } else {
                &&& after.report.glass_to_glass == now.report.glass_to_glass
                &&& after.report.unmatched_stats == capped_count(now.report.unmatched_stats, 1)
            }
        }),
{
    law_last_records_are_kept(pre, records);
    lemma_others_asked(hosts_after(pre, records), before, r.pts_us);
}

/// A frame's record is there for the phone's report that comes next.
pub proof fn law_report_meets_record(
    pre: PipelineView,
    pts_us: u64,
    stamps: HostStamps,
    arrive_us: u64,
    decode_us: u64,
    present_us: u64,
    offset_us: i64,
)
    ensures
        stats_recorded(
            host_recorded(pre, pts_us, stamps),
            pts_us,
            arrive_us,
            decode_us,
            present_us,
            offset_us,
        ).report == fused(pre.report, stamps, arrive_us, decode_us, present_us, offset_us),
{
}

/// Where no interval is negative, the five stages of a frame add up to its glass-to-glass time.
pub proof fn law_stages_add_up(
    r: ReportView,
    h: HostStamps,
    arrive_us: u64,
    decode_us: u64,
    present_us: u64,
    offset_us: i64,
)
    requires
        h.capture_us <= h.encode_done_us <= h.send_done_us,
        h.send_done_us <= arrive_us - offset_us,
        arrive_us <= decode_us <= present_us,
        present_us - offset_us - h.capture_us <= u64::MAX,
    ensures
        ({
            let f = fused(r, h, arrive_us, decode_us, present_us, offset_us);
            &&& f.glass_to_glass.last() == f.capture_to_encode.last() + f.encode_to_send.last()
                + f.send_to_arrive.last() + f.arrive_to_decode.last() + f.decode_to_present.last()
            &&& f.glass_to_glass.last() == present_us - offset_us - h.capture_us
            &&& f.anomalies == r.anomalies
        }),
{
    let arrive = arrive_us - offset_us;
    let decode = decode_us - offset_us;
    let present = present_us - offset_us;
    lemma_gap_sample(h.capture_us as int, h.encode_done_us as int);
    lemma_gap_sample(h.encode_done_us as int, h.send_done_us as int);
    lemma_gap_sample(h.send_done_us as int, arrive);
    lemma_gap_sample(arrive, decode);
    lemma_gap_sample(decode, present);
    lemma_gap_sample(h.capture_us as int, present);
}

/// An interval of a length that a sample can hold is that sample.
proof fn lemma_gap_sample(from: int, to: int)
    requires
        0 <= to - from <= u64::MAX,
    ensures
        gap_sample(from, to) == to - from,
{
}

/// Accumulates latency samples (microseconds) and reports count, sum, minimum and maximum.
///
/// The first sample seeds both extremes, so a sample of zero is a value like any other.
#[derive(Debug, Clone, Copy, PartialEq, Eq, Structural)]
pub struct LatencyAccum {
    count: u64,
    sum_us: u128,
    min_us: u128,
    max_us: u128,
}

/// A [`LatencyAccum`] by its values.
pub struct AccumView {
    pub count: nat,
    pub sum_us: nat,
    pub min_us: Option<u128>,
    pub max_us: Option<u128>,
}

impl View for LatencyAccum {
    type V = AccumView;

    closed spec fn view(&self) -> AccumView {
        AccumView {
            count: self.count as nat,
            sum_us: self.sum_us as nat,
            min_us: if self.count > 0 {
                Some(self.min_us)
            } else {
                None
            },
            max_us: if self.count > 0 {
                Some(self.max_us)
            } else {
                None
            },
        }
    }
}

/// An accumulator after one more sample.
pub open spec fn accumulated(a: AccumView, us: u128) -> AccumView {
    AccumView {
        count: a.count + 1,
        sum_us: a.sum_us + us as nat,
        min_us: Some(
            match a.min_us {
                Some(m) => if us < m {
                    us
                } else {
                    m
                },
                None => us,
            },
        ),
        max_us: Some(
            match a.max_us {
                Some(m) => if us > m {
                    us
                } else {
                    m
                },
                None => us,
            },
        ),
    }
}

impl LatencyAccum {
    /// A fresh accumulator with no samples.
    pub fn new() -> (r: Self)
        ensures
            r@ == (AccumView { count: 0, sum_us: 0, min_us: None, max_us: None }),
    {
        LatencyAccum { count: 0, sum_us: 0, min_us: 0, max_us: 0 }
    }

    /// Record one latency sample.
    pub fn record(&mut self, us: u128)
        requires
            old(self)@.count < u64::MAX,
            old(self)@.sum_us + us <= u128::MAX,
        ensures
            final(self)@ == accumulated(old(self)@, us),
    {
        if self.count == 0 {
            self.min_us = us;
            self.max_us = us;
        } else {
            if us < self.min_us {
                self.min_us = us;
            }
            if us > self.max_us {
                self.max_us = us;
            }
        }
        self.sum_us = self.sum_us + us;
        self.count = self.count + 1;
    }

    /// Number of samples recorded.
    pub fn count(&self) -> (n: u64)
        ensures
            n == self@.count,
    {
        self.count
    }

    /// The sum of all samples; with [`count`](Self::count) it gives the mean.
    pub fn sum_us(&self) -> (s: u128)
        ensures
            s == self@.sum_us,
    {
        self.sum_us
    }

    /// Smallest sample, or `None` when none have been recorded.
    pub fn min_us(&self) -> (r: Option<u128>)
        ensures
            r == self@.min_us,
    {
        if self.count > 0 {
            Some(self.min_us)
        } else {
            None
        }
    }

    /// Largest sample, or `None` when none have been recorded.
    pub fn max_us(&self) -> (r: Option<u128>)
        ensures
            r == self@.max_us,
    {
        if self.count > 0 {
            Some(self.max_us)
        } else {
            None
        }
    }
}

impl Default for LatencyAccum {
    fn default() -> (r: Self)
        ensures
            r@ == (AccumView { count: 0, sum_us: 0, min_us: None, max_us: None }),
    {
        LatencyAccum::new()
    }
}

/// Whether `now` is `before` with one more sample behind it, that of an interval: its length where
/// a sample can hold it, what is left of it above two to the 64 where it is longer, and zero where
/// it is negative.
pub open spec fn one_more_sample(before: Seq<u64>, now: Seq<u64>, interval: int) -> bool {
    &&& now.len() == before.len() + 1
    &&& now.drop_last() == before
    &&& 0 <= interval <= u64::MAX ==> now.last() == interval
    &&& u64::MAX < interval < 0x2_0000_0000_0000_0000 ==> now.last() == interval
        - 0x1_0000_0000_0000_0000
    &&& interval < 0 ==> now.last() == 0
}

/// Each stage by itself: a frame that was captured, encoded and sent at the given host times, and
/// that arrived, was decoded and was presented at the given times of a phone whose clock is ahead
/// by the offset, adds to every stage the time between that stage's own two ends. A frame with a
/// negative interval is counted once, whichever and however many of them are negative, and nothing
/// else is counted.
pub proof fn law_each_stage_by_itself(
    pre: PipelineView,
    pts_us: u64,
    h: HostStamps,
    arrive_us: u64,
    decode_us: u64,
    present_us: u64,
    offset_us: i64,
)
    ensures
        ({
            let now = stats_recorded(
                host_recorded(pre, pts_us, h),
                pts_us,
                arrive_us,
                decode_us,
                present_us,
                offset_us,
            ).report;
            let was = pre.report;
            &&& one_more_sample(
                was.capture_to_encode,
                now.capture_to_encode,
                h.encode_done_us - h.capture_us,
            )
            &&& one_more_sample(
                was.encode_to_send,
                now.encode_to_send,
                h.send_done_us - h.encode_done_us,
            )
            &&& one_more_sample(
                was.send_to_arrive,
                now.send_to_arrive,
                arrive_us - offset_us - h.send_done_us,
            )
            &&& one_more_sample(was.arrive_to_decode, now.arrive_to_decode, decode_us - arrive_us)
            &&& one_more_sample(
                was.decode_to_present,
                now.decode_to_present,
                present_us - decode_us,
            )
            &&& one_more_sample(
                was.glass_to_glass,
                now.glass_to_glass,
                present_us - offset_us - h.capture_us,
            )
            &&& now.unmatched_stats == was.unmatched_stats
            &&& now.dropped_frames == was.dropped_frames
            &&& {
                if h.encode_done_us >= h.capture_us && h.send_done_us >= h.encode_done_us
                    && arrive_us - offset_us >= h.send_done_us && decode_us >= arrive_us
                    && present_us >= decode_us && present_us - offset_us >= h.capture_us {
                    now.anomalies == was.anomalies
                } else {
                    was.anomalies < u64::MAX ==> now.anomalies == was.anomalies + 1
                }
            }
        }),
{
    let was = pre.report;
    let arrive = arrive_us - offset_us;
    let decode = decode_us - offset_us;
    let present = present_us - offset_us;
    law_report_meets_record(pre, pts_us, h, arrive_us, decode_us, present_us, offset_us);
    lemma_one_more_sample(was.capture_to_encode, h.capture_us as int, h.encode_done_us as int);
    lemma_one_more_sample(was.encode_to_send, h.encode_done_us as int, h.send_done_us as int);
    lemma_one_more_sample(was.send_to_arrive, h.send_done_us as int, arrive);
    lemma_one_more_sample(was.arrive_to_decode, arrive, decode);
    lemma_one_more_sample(was.decode_to_present, decode, present);
    lemma_one_more_sample(was.glass_to_glass, h.capture_us as int, present);
}

proof fn lemma_one_more_sample(before: Seq<u64>, from: int, to: int)
    ensures
        one_more_sample(before, before.push(gap_sample(from, to)), to - from),
{
    if 0 <= to - from <= u64::MAX {
        lemma_gap_sample(from, to);
    }
    assert(before.push(gap_sample(from, to)).drop_last() =~= before);
}

/// A report uses up the record of its frame and no other, so a second report of the frame finds
/// none: it adds no sample and is counted as unmatched, as is the report of a frame that was never
/// recorded.
pub proof fn law_record_is_used_once(
    pre: PipelineView,
    first: PhoneReport,
    second: PhoneReport,
    other: u64,
)
    requires
        pre.wf(),
        first.pts_us == second.pts_us,
        other != first.pts_us,
    ensures
        ({
            let now = report_taken(pre, first);
            let again = report_taken(now, second);
            &&& !now.inflight.dom().contains(first.pts_us)
            &&& now.inflight.dom().contains(other) == pre.inflight.dom().contains(other)
            &&& pre.inflight.dom().contains(other) ==> now.inflight[other] == pre.inflight[other]
            &&& again.inflight == now.inflight
            &&& again.order == now.order
            &&& again.report.capture_to_encode == now.report.capture_to_encode
            &&& again.report.encode_to_send == now.report.encode_to_send
            &&& again.report.send_to_arrive == now.report.send_to_arrive
            &&& again.report.arrive_to_decode == now.report.arrive_to_decode
            &&& again.report.decode_to_present == now.report.decode_to_present
            &&& again.report.glass_to_glass == now.report.glass_to_glass
            &&& again.report.anomalies == now.report.anomalies
            &&& again.report.dropped_frames == now.report.dropped_frames
            &&& now.report.unmatched_stats < u64::MAX ==> again.report.unmatched_stats
                == now.report.unmatched_stats + 1
        }),
{
}

/// Recording what the host did to a frame changes no figure, and makes exactly that known of the
/// frame, in the place of what was known before.
pub proof fn law_record_holds_the_stamps(pre: PipelineView, pts_us: u64, h: HostStamps)
    ensures
        host_recorded(pre, pts_us, h).report == pre.report,
        host_recorded(pre, pts_us, h).capacity == pre.capacity,
        host_recorded(pre, pts_us, h).inflight.dom().contains(pts_us),
        host_recorded(pre, pts_us, h).inflight[pts_us] == h,
{
}

/// Frames that are shed are counted, and nothing else changes.
pub proof fn law_shed_frames_are_counted(pre: PipelineView, n: u64)
    ensures
        ({
            let now = dropped_recorded(pre, n);
            &&& pre.report.dropped_frames + n <= u64::MAX ==> now.report.dropped_frames
                == pre.report.dropped_frames + n
            &&& pre.report.dropped_frames + n > u64::MAX ==> now.report.dropped_frames == u64::MAX
            &&& now.inflight == pre.inflight
            &&& now.order == pre.order
            &&& now.capacity == pre.capacity
            &&& now.report == (ReportView {
                dropped_frames: now.report.dropped_frames,
                ..pre.report
            })
        }),
{
}

/// Whether a figure shows what it should of some samples: without samples it is missing; else it
/// is one of them, less than `p` percent of them are smaller, and at least `p` percent are no
/// larger.
pub open spec fn shows_percentile(figure: Option<u64>, samples: Seq<u64>, p: int) -> bool {
    match figure {
        None => samples.len() == 0,
        Some(v) => {
            &&& samples.contains(v)
            &&& 100 * samples_below(samples, v as int) < p * samples.len()
            &&& 100 * samples_below(samples, v + 1) >= p * samples.len()
        },
    }
}

/// Every figure of a report is the median, the 95th percentile or the maximum of the samples of
/// its own stage, or the count of its own name.
pub proof fn law_figures_are_of_their_stage(r: ReportView)
    requires
        r.glass_to_glass.len() <= u64::MAX,
    ensures
        ({
            let f = figures_of(r);
            &&& f.n == r.glass_to_glass.len()
            &&& shows_percentile(f.g2g_p50, r.glass_to_glass, 50)
            &&& shows_percentile(f.g2g_p95, r.glass_to_glass, 95)
            &&& shows_percentile(f.g2g_max, r.glass_to_glass, 100)
            &&& shows_percentile(f.cap_enc_p50, r.capture_to_encode, 50)
            &&& shows_percentile(f.cap_enc_p95, r.capture_to_encode, 95)
            &&& shows_percentile(f.enc_snd_p50, r.encode_to_send, 50)
            &&& shows_percentile(f.enc_snd_p95, r.encode_to_send, 95)
            &&& shows_percentile(f.snd_arr_p50, r.send_to_arrive, 50)
            &&& shows_percentile(f.snd_arr_p95, r.send_to_arrive, 95)
            &&& shows_percentile(f.arr_dec_p50, r.arrive_to_decode, 50)
            &&& shows_percentile(f.arr_dec_p95, r.arrive_to_decode, 95)
            &&& shows_percentile(f.dec_pres_p50, r.decode_to_present, 50)
            &&& shows_percentile(f.dec_pres_p95, r.decode_to_present, 95)
            &&& f.dropped == r.dropped_frames
            &&& f.unmatched == r.unmatched_stats
            &&& f.anomalies == r.anomalies
        }),
{
    lemma_shows_percentile(r.glass_to_glass);
    lemma_shows_percentile(r.capture_to_encode);
    lemma_shows_percentile(r.encode_to_send);
    lemma_shows_percentile(r.send_to_arrive);
    lemma_shows_percentile(r.arrive_to_decode);
    lemma_shows_percentile(r.decode_to_present);
}

proof fn lemma_shows_percentile(samples: Seq<u64>)
    ensures
        shows_percentile(percentile_of(samples, 50), samples, 50),
        shows_percentile(percentile_of(samples, 95), samples, 95),
        shows_percentile(max_of(samples), samples, 100),
{
    law_percentile_counts_samples(samples, 50);
    law_percentile_counts_samples(samples, 95);
    law_percentile_counts_samples(samples, 100);
    if samples.len() > 0 {
        law_percentiles(samples, 0, 100);
    }
}

/// The samples of a stage in a report.
pub open spec fn samples_of(r: ReportView, stage: Stage) -> Seq<u64> {
    match stage {
        Stage::CaptureToEncode => r.capture_to_encode,
        Stage::EncodeToSend => r.encode_to_send,
        Stage::SendToArrive => r.send_to_arrive,
        Stage::ArriveToDecode => r.arrive_to_decode,
        Stage::DecodeToPresent => r.decode_to_present,
        Stage::GlassToGlass => r.glass_to_glass,
    }
}

/// Every line about a stage, wherever it stands in a printed report, shows the figures of that
/// stage's own samples, and says so if there are none.
pub proof fn law_lines_are_of_their_stage(
    r: ReportView,
    offset: Option<ClockOffset>,
    at: int,
    stage: Stage,
    shown: Option<StageFigures>,
)
    requires
        0 <= at < report_lines_of(r, offset).len(),
        report_lines_of(r, offset)[at] == ReportLine::Stage(stage, shown),
        samples_of(r, stage).len() <= u64::MAX,
    ensures
        shown is None <==> samples_of(r, stage).len() == 0,
        shown matches Some(f) ==> {
            let samples = samples_of(r, stage);
            &&& f.count == samples.len()
            &&& sum_of(samples) <= u128::MAX ==> f.sum == sum_of(samples)
            &&& shows_percentile(Some(f.p50), samples, 50)
            &&& shows_percentile(Some(f.p95), samples, 95)
            &&& shows_percentile(Some(f.max), samples, 100)
        },
{
    let samples = samples_of(r, stage);
    lemma_sum_is_not_negative(samples);
    lemma_shows_percentile(samples);
}

proof fn lemma_sum_is_not_negative(samples: Seq<u64>)
    ensures
        sum_of(samples) >= 0,
    decreases samples.len(),
{
    if samples.len() > 0 {
        lemma_sum_is_not_negative(samples.drop_last());
    }
}

/// A printed report begins with the host's own stages. With a clock offset, the stages that need
/// one follow in the order of a frame's way, and then the offset with half of its round trip;
/// without one, none of them is shown. The three counts come next, and the summary comes last, if
/// any frame was fused.
pub proof fn law_report_has_its_lines(r: ReportView, offset: Option<ClockOffset>)
    ensures
        ({
            let lines = report_lines_of(r, offset);
            let stage_at = |at: int, stage: Stage| lines[at] matches ReportLine::Stage(s, _) && s
                == stage;
            let behind = if offset is Some {
                7int
            } else {
                3int
            };
            &&& lines.len() == behind + 3 + if r.glass_to_glass.len() > 0 {
                1int
            } else {
                0int
            }
            &&& stage_at(0, Stage::CaptureToEncode)
            &&& stage_at(1, Stage::EncodeToSend)
            &&& offset matches Some(o) ==> {
                &&& stage_at(2, Stage::SendToArrive)
                &&& stage_at(3, Stage::ArriveToDecode)
                &&& stage_at(4, Stage::DecodeToPresent)
                &&& stage_at(5, Stage::GlassToGlass)
                &&& lines[6] matches ReportLine::Precision { offset_us, rtt_us, half_rtt_us }
                    && offset_us == o.offset_us && rtt_us == o.rtt_us && 2 * half_rtt_us <= rtt_us
                    <= 2 * half_rtt_us + 1
            }
            &&& offset is None ==> lines[2] == ReportLine::Unavailable
            &&& lines[behind] == ReportLine::Anomalies(r.anomalies)
            &&& lines[behind + 1] == ReportLine::Unmatched(r.unmatched_stats)
            &&& lines[behind + 2] == ReportLine::Dropped(r.dropped_frames)
            &&& r.glass_to_glass.len() > 0 ==> lines.last() == ReportLine::Summary(figures_of(r))
        }),
{
}

/// An accumulator of some samples, starting with none.
pub open spec fn accumulated_all(samples: Seq<u128>) -> AccumView
    decreases samples.len(),
{
    if samples.len() == 0 {
        AccumView { count: 0, sum_us: 0, min_us: None, max_us: None }
    } else {
        accumulated(accumulated_all(samples.drop_last()), samples.last())
    }
}

/// What an accumulator holds of its samples: how many there were, their sum, and the two among them
/// that no other is below and above.
pub proof fn law_accumulator_sums_up(samples: Seq<u128>)
    ensures
        ({
            let a = accumulated_all(samples);
            &&& a.count == samples.len()
            &&& a.sum_us == samples.fold_left(0int, |sum: int, us: u128| sum + us)
            &&& a.min_us is Some <==> samples.len() > 0
            &&& a.max_us is Some <==> samples.len() > 0
            &&& samples.len() > 0 ==> {
                &&& samples.contains(a.min_us->0)
                &&& samples.contains(a.max_us->0)
                &&& forall|i: int|
                    0 <= i < samples.len() ==> a.min_us->0 <= #[trigger] samples[i] <= a.max_us->0
            }
        }),
    decreases samples.len(),
{
    if samples.len() > 0 {
        let front = samples.drop_last();
        let n = front.len() as int;
        law_accumulator_sums_up(front);
        let before = accumulated_all(front);
        assert(samples[n] == samples.last());
        assert forall|i: int| 0 <= i < n implies front[i] == #[trigger] samples[i] by {}
        if n > 0 {
            let i = choose|i: int| 0 <= i < front.len() && front[i] == before.min_us->0;
            let j = choose|j: int| 0 <= j < front.len() && front[j] == before.max_us->0;
            assert(samples[i] == before.min_us->0);
            assert(samples[j] == before.max_us->0);
        }
    }
}

/// A report is seen as it is, each value under its own name.
pub proof fn law_report_is_seen_as_it_is(r: LatencyReport)
    ensures
        r@.capture_to_encode == r.capture_to_encode@,
        r@.encode_to_send == r.encode_to_send@,
        r@.send_to_arrive == r.send_to_arrive@,
        r@.arrive_to_decode == r.arrive_to_decode@,
        r@.decode_to_present == r.decode_to_present@,
        r@.glass_to_glass == r.glass_to_glass@,
        r@.anomalies == r.anomalies,
        r@.unmatched_stats == r.unmatched_stats,
        r@.dropped_frames == r.dropped_frames,
{
}

} // verus!
