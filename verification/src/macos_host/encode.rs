//! The `Encoder` seam, the encode session, and per-frame latency statistics.

use vstd::prelude::*;
use vstd::relations::{sorted_by, total_ordering};
use vstd::seq_lib::lemma_sorted_unique;
use crate::count::{add_bytes, capped_sum};
use crate::io::{write_all, ByteSink, IoError, LinkState};
use crate::io::{link_failed, partly_sent, LinkOp};
use crate::protocol::nal::{extract_codec_config, CodecConfig};
use crate::protocol::nal::{codec_config_of, config_view, CodecConfigView};
use super::capture::{CapturedFrame, Capturer};

verus! {

/// One access unit of encoder output.
#[derive(Debug, Clone, PartialEq, Eq)]
pub struct EncodedFrame {
    /// Presentation timestamp in microseconds (carried through from capture).
    pub pts_us: u64,
    /// Host time at which the frame was captured, in microseconds.
    pub capture_us: u64,
    /// Whether this access unit is a keyframe.
    pub keyframe: bool,
    /// Time the encoder took to produce this frame, in microseconds.
    pub encode_micros: u64,
    /// The access unit as an Annex-B byte stream.
    pub annex_b: Vec<u8>,
}

/// An [`EncodedFrame`] by its values.
#[verifier::ext_equal]
pub struct EncodedView {
    pub pts_us: u64,
    pub capture_us: u64,
    pub keyframe: bool,
    pub encode_micros: u64,
    pub annex_b: Seq<u8>,
}

impl View for EncodedFrame {
    type V = EncodedView;

    open spec fn view(&self) -> EncodedView {
        EncodedView {
            pts_us: self.pts_us,
            capture_us: self.capture_us,
            keyframe: self.keyframe,
            encode_micros: self.encode_micros,
            annex_b: self.annex_b@,
        }
    }
}

/// The encode seam.
pub trait Encoder {
    /// Every frame that was encoded so far, with what came out of it.
    open spec fn produced(&self) -> Seq<(CapturedFrame, EncodedView)> {
        arbitrary()
    }

    /// Encode one captured frame into an Annex-B access unit.
    fn encode(&mut self, frame: &CapturedFrame) -> (r: EncodedFrame)
        ensures
            final(self).produced() == old(self).produced().push((*frame, r@)),
    ;
}

/// The sum of a list of samples.
pub open spec fn sum_of(samples: Seq<u64>) -> int
    decreases samples.len(),
{
    if samples.len() == 0 {
        0
    } else {
        sum_of(samples.drop_last()) + samples.last()
    }
}

/// The order of samples.
pub open spec fn at_most() -> spec_fn(u64, u64) -> bool {
    |a: u64, b: u64| a <= b
}

/// The samples from the smallest to the largest.
pub open spec fn sorted_samples(samples: Seq<u64>) -> Seq<u64> {
    samples.sort_by(at_most())
}

/// The sample of the given rank, counted from 1; a rank outside the list is moved to its nearest
/// end.
pub open spec fn sample_of_rank(samples: Seq<u64>, rank: int) -> Option<u64> {
    if samples.len() == 0 {
        None
    } else if rank < 1 {
        Some(sorted_samples(samples)[0])
    } else if rank > samples.len() {
        Some(sorted_samples(samples)[samples.len() - 1])
    } else {
        Some(sorted_samples(samples)[rank - 1])
    }
}

/// The nearest rank of the `p`-th percentile of `n` samples: `p` percent of `n`, rounded up.
pub open spec fn nearest_rank_of(p: int, n: int) -> int {
    (p * n + 99) / 100
}

/// The `p`-th percentile by the nearest-rank method.
pub open spec fn percentile_of(samples: Seq<u64>, p: int) -> Option<u64> {
    sample_of_rank(samples, nearest_rank_of(p, samples.len() as int))
}

/// Sort ascending, by `<[u64]>::sort_unstable`: the same values, each as often, in ascending
/// order.
#[verifier::external_body]
fn sort_samples(samples: &mut Vec<u64>)
    ensures
        sorted_by(final(samples)@, at_most()),
        final(samples)@.to_multiset() == old(samples)@.to_multiset(),
{
    samples.sort_unstable()
}

/// Accumulating per-frame latency statistics, in microseconds. The individual samples are kept, so
/// that tail percentiles can be reported.
#[derive(Debug, PartialEq, Eq)]
pub struct LatencyStats {
    sum: u128,
    min: Option<u64>,
    max: Option<u64>,
    samples: Vec<u64>,
}

impl View for LatencyStats {
    type V = Seq<u64>;

    closed spec fn view(&self) -> Seq<u64> {
        self.samples@
    }
}

/// The smallest of a list of samples.
pub open spec fn min_of(samples: Seq<u64>) -> Option<u64>
    decreases samples.len(),
{
    if samples.len() == 0 {
        None
    } else {
        match min_of(samples.drop_last()) {
            None => Some(samples.last()),
            Some(m) => Some(
                if samples.last() < m {
                    samples.last()
                } else {
                    m
                },
            ),
        }
    }
}

/// The largest of a list of samples.
pub open spec fn max_of(samples: Seq<u64>) -> Option<u64>
    decreases samples.len(),
{
    if samples.len() == 0 {
        None
    } else {
        match max_of(samples.drop_last()) {
            None => Some(samples.last()),
            Some(m) => Some(
                if samples.last() > m {
                    samples.last()
                } else {
                    m
                },
            ),
        }
    }
}

impl LatencyStats {
    #[verifier::type_invariant]
    spec fn inv(self) -> bool {
        &&& self.sum == sum_of(self.samples@)
        &&& self.min == min_of(self.samples@)
        &&& self.max == max_of(self.samples@)
    }

    /// A fresh, empty accumulator.
    pub fn new() -> (r: Self)
        ensures
            r@ == Seq::<u64>::empty(),
    {
        LatencyStats { sum: 0, min: None, max: None, samples: Vec::new() }
    }

    /// Record one frame's latency.
    pub fn record(&mut self, micros: u64)
        ensures
            final(self)@ == old(self)@.push(micros),
    {
        proof {
            use_type_invariant(&*self);
            lemma_sum_bound(self.samples@);
        }
        let room: usize = self.samples.len();
        let mut taken = LatencyStats::new();
        std::mem::swap(self, &mut taken);
        let LatencyStats { sum, min, max, mut samples } = taken;
        let least: u64 = match min {
            Some(m) => if micros < m {
                micros
            } else {
                m
            },
            None => micros,
        };
        let most: u64 = match max {
            Some(m) => if micros > m {
                micros
            } else {
                m
            },
            None => micros,
        };
        proof {
            assert(samples@ == old(self)@);
            assert(samples@.push(micros).drop_last() =~= samples@);
            assert(sum + micros <= u128::MAX) by (nonlinear_arith)
                requires
                    sum <= room * 0xffff_ffff_ffff_ffff,
                    room <= 0xffff_ffff_ffff_ffff,
                    micros <= 0xffff_ffff_ffff_ffff,
            ;
        }
        samples.push(micros);
        *self =
        LatencyStats { sum: sum + micros as u128, min: Some(least), max: Some(most), samples };
    }

    /// Number of frames recorded.
    pub fn count(&self) -> (n: u64)
        ensures
            n == self@.len(),
    {
        self.samples.len() as u64
    }

    /// The sum of all recorded latencies; with [`count`](Self::count) it gives the mean.
    pub fn sum(&self) -> (s: u128)
        ensures
            s == sum_of(self@),
    {
        proof {
            use_type_invariant(self);
        }
        self.sum
    }

    /// Smallest recorded latency, or `None` if no frames were recorded.
    pub fn min(&self) -> (r: Option<u64>)
        ensures
            r == min_of(self@),
    {
        proof {
            use_type_invariant(self);
        }
        self.min
    }

    /// Largest recorded latency, or `None` if no frames were recorded.
    pub fn max(&self) -> (r: Option<u64>)
        ensures
            r == max_of(self@),
    {
        proof {
            use_type_invariant(self);
        }
        self.max
    }

    /// The sample of the given rank (1 is the smallest), or `None` if no frames were recorded.
    pub fn nearest_rank(&self, rank: usize) -> (r: Option<u64>)
        ensures
            r == sample_of_rank(self@, rank as int),
    {
        if self.samples.len() == 0 {
            return None;
        }
        let mut sorted: Vec<u64> = vstd::slice::slice_to_vec(self.samples.as_slice());
        sort_samples(&mut sorted);
        proof {
            lemma_sorting_is_unique(self@, sorted@);
            lemma_sorted_samples(self@);
        }
        let n: usize = self.samples.len();
        let at: usize = if rank < 1 {
            0
        } else if rank > n {
            n - 1
        } else {
            rank - 1
        };
        Some(sorted[at])
    }

    /// The `p`-th percentile by the nearest-rank method, or `None` if no frames were recorded; a
    /// `p` above 100 counts as 100.
    pub fn percentile(&self, p: u64) -> (r: Option<u64>)
        ensures
            r == percentile_of(
                self@,
                if p > 100 {
                    100
                } else {
                    p as int
                },
            ),
    {
        let percent: u128 = if p > 100 {
            100
        } else {
            p as u128
        };
        let n: u128 = self.samples.len() as u128;
        proof {
            assert(percent * n <= 100 * n) by (nonlinear_arith)
                requires
                    percent <= 100,
                    n >= 0,
            ;
        }
        let rank: u128 = (percent * n + 99) / 100;
        self.nearest_rank(rank as usize)
    }

    /// The median.
    pub fn p50(&self) -> (r: Option<u64>)
        ensures
            r == percentile_of(self@, 50),
    {
        self.percentile(50)
    }

    /// The 95th percentile: the headline tail metric.
    pub fn p95(&self) -> (r: Option<u64>)
        ensures
            r == percentile_of(self@, 95),
    {
        self.percentile(95)
    }

    /// The 99th percentile.
    pub fn p99(&self) -> (r: Option<u64>)
        ensures
            r == percentile_of(self@, 99),
    {
        self.percentile(99)
    }
}

impl Clone for LatencyStats {
    fn clone(&self) -> (r: Self)
        ensures
            r@ == self@,
    {
        proof {
            use_type_invariant(self);
        }
        LatencyStats {
            sum: self.sum,
            min: self.min,
            max: self.max,
            samples: vstd::slice::slice_to_vec(self.samples.as_slice()),
        }
    }
}

impl Default for LatencyStats {
    fn default() -> (r: Self)
        ensures
            r@ == Seq::<u64>::empty(),
    {
        LatencyStats::new()
    }
}

/// A sum of samples is at most their number times the largest sample there is.
proof fn lemma_sum_bound(samples: Seq<u64>)
    ensures
        0 <= sum_of(samples) <= samples.len() * 0xffff_ffff_ffff_ffff,
    decreases samples.len(),
{
    if samples.len() > 0 {
        lemma_sum_bound(samples.drop_last());
    }
}

proof fn lemma_at_most_is_total()
    ensures
        total_ordering(at_most()),
{
}

/// Sorting keeps the number of samples and their values, and puts them in ascending order.
pub proof fn lemma_sorted_samples(samples: Seq<u64>)
    ensures
        sorted_samples(samples).len() == samples.len(),
        sorted_samples(samples).to_multiset() == samples.to_multiset(),
        forall|i: int, j: int|
            0 <= i <= j < samples.len() ==> #[trigger] sorted_samples(samples)[i]
                <= #[trigger] sorted_samples(samples)[j],
{
    lemma_at_most_is_total();
    samples.lemma_sort_by_ensures(at_most());
    sorted_samples(samples).to_multiset_ensures();
    samples.to_multiset_ensures();
    let s = sorted_samples(samples);
    assert forall|i: int, j: int| 0 <= i <= j < samples.len() implies #[trigger] s[i]
        <= #[trigger] s[j] by {
        if i < j {
            assert(at_most()(s[i], s[j]));
        }
    }
}

/// There is only one way to sort.
proof fn lemma_sorting_is_unique(samples: Seq<u64>, s: Seq<u64>)
    requires
        sorted_by(s, at_most()),
        s.to_multiset() == samples.to_multiset(),
    ensures
        s == sorted_samples(samples),
{
    lemma_at_most_is_total();
    samples.lemma_sort_by_ensures(at_most());
    lemma_sorted_unique(s, sorted_samples(samples), at_most());
}

/// Every percentile lies between the smallest and the largest sample, a higher one is not below a
/// lower one, and the ends of the scale are the two extremes.
pub proof fn law_percentiles(samples: Seq<u64>, p: int, q: int)
    requires
        samples.len() > 0,
        0 <= p <= q <= 100,
    ensures
        percentile_of(samples, 0) == min_of(samples),
        percentile_of(samples, 100) == max_of(samples),
        min_of(samples)->Some_0 <= percentile_of(samples, p)->Some_0,
        percentile_of(samples, p)->Some_0 <= percentile_of(samples, q)->Some_0,
        percentile_of(samples, q)->Some_0 <= max_of(samples)->Some_0,
{
    let n = samples.len() as int;
    lemma_sorted_samples(samples);
    law_extremes(samples);
    let s = sorted_samples(samples);
    let least = min_of(samples)->Some_0;
    let most = max_of(samples)->Some_0;
    s.to_multiset_ensures();
    samples.to_multiset_ensures();
    assert(samples.to_multiset().count(least) > 0);
    assert(samples.to_multiset().count(most) > 0);
    assert(s.contains(least));
    assert(s.contains(most));
    assert(s.to_multiset().count(s[0]) > 0);
    assert(s.to_multiset().count(s[n - 1]) > 0);
    assert(samples.contains(s[0]));
    assert(samples.contains(s[n - 1]));
    let i = choose|i: int| 0 <= i < s.len() && s[i] == least;
    let j = choose|j: int| 0 <= j < s.len() && s[j] == most;
    assert(s[0] <= s[i]);
    assert(s[j] <= s[n - 1]);
    assert(nearest_rank_of(100, n) == n);
    assert(0 <= p * n <= q * n <= 100 * n) by (nonlinear_arith)
        requires
            0 <= p <= q <= 100,
            n >= 0,
    ;
    assert(nearest_rank_of(p, n) <= nearest_rank_of(q, n) <= n);
}

/// The extremes are the least and the greatest of the samples.
pub proof fn law_extremes(samples: Seq<u64>)
    requires
        samples.len() > 0,
    ensures
        min_of(samples) is Some,
        max_of(samples) is Some,
        samples.contains(min_of(samples)->Some_0),
        samples.contains(max_of(samples)->Some_0),
        forall|i: int|
            0 <= i < samples.len() ==> min_of(samples)->Some_0 <= #[trigger] samples[i]
                <= max_of(samples)->Some_0,
    decreases samples.len(),
{
    let n = samples.len() - 1;
    let front = samples.drop_last();
    assert(samples[n] == samples.last());
    if n > 0 {
        law_extremes(front);
        let i = choose|i: int| 0 <= i < front.len() && front[i] == min_of(front)->Some_0;
        let j = choose|j: int| 0 <= j < front.len() && front[j] == max_of(front)->Some_0;
        assert(samples[i] == min_of(front)->Some_0);
        assert(samples[j] == max_of(front)->Some_0);
        assert forall|k: int| 0 <= k < samples.len() implies min_of(samples)->Some_0
            <= #[trigger] samples[k] <= max_of(samples)->Some_0 by {
            if k < n {
                assert(front[k] == samples[k]);
            }
        }
    }
}

/// One sample may be taken out of a sum wherever it stands.
proof fn lemma_sum_of_removed(samples: Seq<u64>, i: int)
    requires
        0 <= i < samples.len(),
    ensures
        sum_of(samples) == sum_of(samples.remove(i)) + samples[i],
    decreases samples.len(),
{
    if i == samples.len() - 1 {
        assert(samples.remove(i) =~= samples.drop_last());
    } else {
        lemma_sum_of_removed(samples.drop_last(), i);
        assert(samples.remove(i).drop_last() =~= samples.drop_last().remove(i));
        assert(samples.remove(i).last() == samples.last());
    }
}

/// The sum does not depend on the order.
proof fn lemma_sum_of_permuted(a: Seq<u64>, b: Seq<u64>)
    requires
        a.to_multiset() == b.to_multiset(),
    ensures
        sum_of(a) == sum_of(b),
    decreases a.len(),
{
    a.to_multiset_ensures();
    b.to_multiset_ensures();
    assert(a.len() == b.len());
    if a.len() > 0 {
        let x = a.last();
        assert(a.contains(x));
        assert(a.to_multiset().count(x) > 0);
        assert(b.to_multiset().count(x) > 0);
        let j = choose|j: int| 0 <= j < b.len() && b[j] == x;
        assert(a.remove(a.len() - 1) =~= a.drop_last());
        lemma_sum_of_removed(b, j);
        assert(a.drop_last().to_multiset() =~= b.remove(j).to_multiset());
        lemma_sum_of_permuted(a.drop_last(), b.remove(j));
    }
}

/// The order in which samples are recorded changes no figure: not their number, their sum, their
/// extremes or any of their ranks and percentiles.
pub proof fn law_order_of_samples_is_irrelevant(a: Seq<u64>, b: Seq<u64>)
    requires
        a.to_multiset() == b.to_multiset(),
    ensures
        a.len() == b.len(),
        sum_of(a) == sum_of(b),
        min_of(a) == min_of(b),
        max_of(a) == max_of(b),
        forall|rank: int| #[trigger] sample_of_rank(a, rank) == sample_of_rank(b, rank),
        forall|p: int| #[trigger] percentile_of(a, p) == percentile_of(b, p),
{
    a.to_multiset_ensures();
    b.to_multiset_ensures();
    lemma_sum_of_permuted(a, b);
    lemma_sorted_samples(b);
    lemma_at_most_is_total();
    b.lemma_sort_by_ensures(at_most());
    lemma_sorting_is_unique(a, sorted_samples(b));
    if a.len() > 0 {
        law_extremes(a);
        law_extremes(b);
        let (la, ha) = (min_of(a)->Some_0, max_of(a)->Some_0);
        let (lb, hb) = (min_of(b)->Some_0, max_of(b)->Some_0);
        assert(a.to_multiset().count(la) > 0 && a.to_multiset().count(ha) > 0);
        assert(b.to_multiset().count(lb) > 0 && b.to_multiset().count(hb) > 0);
        assert(b.contains(la) && b.contains(ha) && a.contains(lb) && a.contains(hb));
    }
}

/// What an encoder was given in a run of frames.
pub open spec fn inputs_of(run: Seq<(CapturedFrame, EncodedView)>) -> Seq<CapturedFrame> {
    Seq::new(run.len(), |i: int| run[i].0)
}

/// What came out of an encoder in a run of frames.
pub open spec fn outputs_of(run: Seq<(CapturedFrame, EncodedView)>) -> Seq<EncodedView> {
    Seq::new(run.len(), |i: int| run[i].1)
}

/// The encode time of each frame.
pub open spec fn micros_of(frames: Seq<EncodedView>) -> Seq<u64> {
    Seq::new(frames.len(), |i: int| frames[i].encode_micros)
}

/// The access units of several frames, one behind the other.
pub open spec fn bytes_of(frames: Seq<EncodedView>) -> Seq<u8>
    decreases frames.len(),
{
    if frames.len() == 0 {
        Seq::empty()
    } else {
        bytes_of(frames.drop_last()) + frames.last().annex_b
    }
}

/// The codec configuration that is known once `frame` has been seen: the one that was known
/// before, or else the one that a keyframe carries.
pub open spec fn config_after(known: Option<CodecConfigView>, frame: EncodedView) -> Option<
    CodecConfigView,
> {
    if known is None && frame.keyframe {
        codec_config_of(frame.annex_b)
    } else {
        known
    }
}

/// The codec configuration that is known once all `frames` have been seen.
pub open spec fn config_after_all(
    known: Option<CodecConfigView>,
    frames: Seq<EncodedView>,
) -> Option<CodecConfigView>
    decreases frames.len(),
{
    if frames.len() == 0 {
        known
    } else {
        config_after(config_after_all(known, frames.drop_last()), frames.last())
    }
}

/// Summary of a completed encode session.
#[derive(Debug, Clone, PartialEq, Eq)]
pub struct SessionSummary {
    /// Number of frames captured and encoded.
    pub frames: u64,
    /// Total Annex-B bytes written to the sink.
    pub bytes_written: usize,
    /// Codec config from the first keyframe that carried one.
    pub codec_config: Option<CodecConfig>,
    /// Per-frame encode latency.
    pub latency: LatencyStats,
}

/// What a session over the frames `run` leaves behind.
pub open spec fn encoded_session(
    pre: LinkState,
    post: LinkState,
    frames: Seq<EncodedView>,
    s: SessionSummary,
) -> bool {
    &&& post.sent == pre.sent + bytes_of(frames)
    &&& s.frames == frames.len()
    &&& s.bytes_written == capped_sum(0, bytes_of(frames).len() as int)
    &&& config_view(s.codec_config) == config_after_all(None, frames)
    &&& s.latency@ == micros_of(frames)
}

/// Drive a capture, encode and write session for up to `max_frames` frames.
///
/// Frames are pulled from `capturer`, encoded by `encoder` and written to `sink` in order. The
/// codec configuration is looked for in keyframes only, until one has been found.
pub fn run_session<C: Capturer, E: Encoder, W: ByteSink>(
    capturer: &mut C,
    encoder: &mut E,
    sink: &mut W,
    max_frames: u64,
) -> (r: Result<SessionSummary, IoError>)
    ensures
        old(encoder).produced().is_prefix_of(final(encoder).produced()),
        ({
            let run = final(encoder).produced().skip(old(encoder).produced().len() as int);
            &&& final(capturer).delivered() == old(capturer).delivered() + inputs_of(run)
            &&& run.len() <= max_frames
            &&& match r {
                Ok(s) => {
                    &&& encoded_session(old(sink).state(), final(sink).state(), outputs_of(run), s)
                    &&& run.len() == max_frames || final(capturer).ended()
                },
                Err(e) => {
                    &&& link_failed(old(sink).state(), final(sink).state(), LinkOp::Write, e)
                    &&& run.len() > 0
                    &&& partly_sent(
                        LinkState {
                            sent: old(sink).state().sent + bytes_of(outputs_of(run.drop_last())),
                            ..old(sink).state()
                        },
                        final(sink).state(),
                        run.last().1.annex_b,
                    )
                },
            }
        }),
{
    let ghost pre = sink.state();
    let ghost made = encoder.produced();
    let ghost seen = capturer.delivered();
    let mut summary = SessionSummary {
        frames: 0,
        bytes_written: 0,
        codec_config: None,
        latency: LatencyStats::new(),
    };
    proof {
        let none = Seq::<(CapturedFrame, EncodedView)>::empty();
        assert(made.skip(made.len() as int) =~= none);
        assert(outputs_of(none) =~= Seq::<EncodedView>::empty());
        assert(seen + inputs_of(none) =~= seen);
        assert(micros_of(outputs_of(none)) =~= Seq::<u64>::empty());
        assert(pre.sent + bytes_of(outputs_of(none)) =~= pre.sent);
    }
    while summary.frames < max_frames
        invariant_except_break
            summary.frames <= max_frames,
        invariant
            pre == old(sink).state(),
            made == old(encoder).produced(),
            seen == old(capturer).delivered(),
            sink.state().faultless == pre.faultless,
            made.is_prefix_of(encoder.produced()),
            ({
                let run = encoder.produced().skip(made.len() as int);
                &&& capturer.delivered() == seen + inputs_of(run)
                &&& run.len() <= max_frames
                &&& encoded_session(pre, sink.state(), outputs_of(run), summary)
            }),
        ensures
            summary.frames == max_frames || capturer.ended(),
        decreases max_frames - summary.frames,
    {
        let ghost before = encoder.produced();
        let ghost run = before.skip(made.len() as int);
        let frame: CapturedFrame = match capturer.next_frame() {
            Some(frame) => frame,
            None => {
                break;
            },
        };
        let encoded: EncodedFrame = encoder.encode(&frame);
        let ghost now = encoder.produced().skip(made.len() as int);
        proof {
            assert(now =~= run.push((frame, encoded@)));
            assert(inputs_of(now) =~= inputs_of(run).push(frame));
            assert(outputs_of(now) =~= outputs_of(run).push(encoded@));
            assert(outputs_of(now).drop_last() =~= outputs_of(run));
            assert(capturer.delivered() =~= seen + inputs_of(now));
        }
        match write_all(sink, encoded.annex_b.as_slice()) {
            Ok(_) => {},
            Err(e) => {
                proof {
                    assert(now.drop_last() =~= run);
                }
                return Err(e);
            },
        }
        summary.bytes_written = add_bytes(summary.bytes_written, encoded.annex_b.len());
        summary.latency.record(encoded.encode_micros);
        summary.frames = summary.frames + 1;
        if summary.codec_config.is_none() && encoded.keyframe {
            summary.codec_config = extract_codec_config(encoded.annex_b.as_slice());
        }
        proof {
            assert(micros_of(outputs_of(now)) =~= micros_of(outputs_of(run)).push(
                encoded.encode_micros,
            ));
            assert(sink.state().sent =~= pre.sent + bytes_of(outputs_of(now)));
        }
    }
    Ok(summary)
}

/// A sum is made of the sums of its parts, and a single sample is its own sum.
pub proof fn law_sums_add_up(a: Seq<u64>, b: Seq<u64>, x: u64)
    ensures
        sum_of(Seq::<u64>::empty()) == 0,
        sum_of(seq![x]) == x,
        sum_of(a + b) == sum_of(a) + sum_of(b),
    decreases b.len(),
{
    reveal_with_fuel(sum_of, 2);
    assert(seq![x].drop_last() =~= Seq::<u64>::empty());
    if b.len() == 0 {
        assert(a + b =~= a);
    } else {
        law_sums_add_up(a, b.drop_last(), x);
        assert((a + b).drop_last() =~= a + b.drop_last());
    }
}

/// How many samples lie below a limit.
pub open spec fn samples_below(samples: Seq<u64>, limit: int) -> nat
    decreases samples.len(),
{
    if samples.len() == 0 {
        0
    } else {
        samples_below(samples.drop_last(), limit) + if samples.last() < limit {
            1nat
        } else {
            0nat
        }
    }
}

/// One sample may be taken out of a count wherever it stands.
proof fn lemma_below_of_removed(samples: Seq<u64>, limit: int, i: int)
    requires
        0 <= i < samples.len(),
    ensures
        samples_below(samples, limit) == samples_below(samples.remove(i), limit)
            + if samples[i] < limit {
            1nat
        } else {
            0nat
        },
    decreases samples.len(),
{
    if i == samples.len() - 1 {
        assert(samples.remove(i) =~= samples.drop_last());
    } else {
        lemma_below_of_removed(samples.drop_last(), limit, i);
        assert(samples.remove(i).drop_last() =~= samples.drop_last().remove(i));
        assert(samples.remove(i).last() == samples.last());
    }
}

/// A count below a limit does not depend on the order.
proof fn lemma_below_of_permuted(a: Seq<u64>, b: Seq<u64>, limit: int)
    requires
        a.to_multiset() == b.to_multiset(),
    ensures
        samples_below(a, limit) == samples_below(b, limit),
    decreases a.len(),
{
    a.to_multiset_ensures();
    b.to_multiset_ensures();
    assert(a.len() == b.len());
    if a.len() > 0 {
        let x = a.last();
        assert(a.contains(x));
        assert(a.to_multiset().count(x) > 0);
        assert(b.to_multiset().count(x) > 0);
        let j = choose|j: int| 0 <= j < b.len() && b[j] == x;
        assert(a.remove(a.len() - 1) =~= a.drop_last());
        lemma_below_of_removed(b, limit, j);
        assert(a.drop_last().to_multiset() =~= b.remove(j).to_multiset());
        lemma_below_of_permuted(a.drop_last(), b.remove(j), limit);
    }
}

/// In an ascending list, the samples below a limit come first.
proof fn lemma_below_in_order(s: Seq<u64>, limit: int, r: int)
    requires
        0 <= r <= s.len(),
        forall|i: int| 0 <= i < r ==> #[trigger] s[i] < limit,
        forall|i: int| r <= i < s.len() ==> #[trigger] s[i] >= limit,
    ensures
        samples_below(s, limit) == r,
    decreases s.len(),
{
    if s.len() > 0 {
        let front = s.drop_last();
        assert forall|i: int| 0 <= i < front.len() implies front[i] == #[trigger] s[i] by {}
        assert(s.last() == s[s.len() - 1]);
        if r == s.len() {
            lemma_below_in_order(front, limit, r - 1);
        } else {
            lemma_below_in_order(front, limit, r);
        }
    }
}

/// In an ascending list, as many samples lie below a limit as stand before the first that does
/// not.
proof fn lemma_first_not_below(s: Seq<u64>, limit: int) -> (r: int)
    requires
        forall|i: int, j: int| 0 <= i <= j < s.len() ==> #[trigger] s[i] <= #[trigger] s[j],
    ensures
        0 <= r <= s.len(),
        r == samples_below(s, limit),
        forall|i: int| 0 <= i < r ==> #[trigger] s[i] < limit,
        forall|i: int| r <= i < s.len() ==> #[trigger] s[i] >= limit,
    decreases s.len(),
{
    if s.len() == 0 {
        0
    } else {
        let front = s.drop_last();
        assert forall|i: int, j: int| 0 <= i <= j < front.len() implies #[trigger] front[i]
            <= #[trigger] front[j] by {
            assert(s[i] <= s[j]);
        }
        let q = lemma_first_not_below(front, limit);
        assert forall|i: int| 0 <= i < front.len() implies front[i] == #[trigger] s[i] by {}
        let last = s[s.len() - 1];
        if last < limit {
            assert forall|i: int| 0 <= i < s.len() implies #[trigger] s[i] < limit by {
                assert(s[i] <= s[s.len() - 1]);
            }
            lemma_below_in_order(s, limit, s.len() as int);
            s.len() as int
        } else {
            lemma_below_in_order(s, limit, q);
            q
        }
    }
}

/// What a rank means: the sample of rank `rank` is one of the samples, fewer than `rank` samples
/// are smaller, and at least `rank` samples are no larger.
pub proof fn law_rank_counts_samples(samples: Seq<u64>, rank: int)
    requires
        1 <= rank <= samples.len(),
    ensures
        ({
            let v = sample_of_rank(samples, rank)->0;
            &&& sample_of_rank(samples, rank) is Some
            &&& samples.contains(v)
            &&& samples_below(samples, v as int) < rank <= samples_below(samples, v + 1)
        }),
{
    lemma_sorted_samples(samples);
    let s = sorted_samples(samples);
    let v = s[rank - 1];
    s.to_multiset_ensures();
    samples.to_multiset_ensures();
    assert(s.contains(v));
    assert(s.to_multiset().count(v) > 0);
    lemma_below_of_permuted(s, samples, v as int);
    lemma_below_of_permuted(s, samples, v + 1);
    let fewer = lemma_first_not_below(s, v as int);
    let most = lemma_first_not_below(s, v + 1);
    assert(s[rank - 1] >= v);
    assert(s[rank - 1] < v + 1);
}

/// What a percentile means: less than `p` percent of the samples are smaller than it, and at least
/// `p` percent are no larger. Without samples there is none.
pub proof fn law_percentile_counts_samples(samples: Seq<u64>, p: int)
    requires
        0 < p <= 100,
    ensures
        percentile_of(samples, p) is Some <==> samples.len() > 0,
        samples.len() > 0 ==> {
            let v = percentile_of(samples, p)->0;
            &&& samples.contains(v)
            &&& 100 * samples_below(samples, v as int) < p * samples.len()
            &&& 100 * samples_below(samples, v + 1) >= p * samples.len()
        },
{
    let n = samples.len() as int;
    if n > 0 {
        assert(0 < p * n <= 100 * n) by (nonlinear_arith)
            requires
                0 < p <= 100,
                n > 0,
        ;
        law_rank_counts_samples(samples, nearest_rank_of(p, n));
    }
}

/// The access units of a run are written one behind the other, and what is known of the run's
/// frames is theirs, each in its place.
pub proof fn law_run_is_written_in_order(a: Seq<EncodedView>, b: Seq<EncodedView>, f: EncodedView)
    ensures
        bytes_of(Seq::<EncodedView>::empty()) == Seq::<u8>::empty(),
        bytes_of(seq![f]) == f.annex_b,
        bytes_of(a + b) == bytes_of(a) + bytes_of(b),
        micros_of(seq![f]) == seq![f.encode_micros],
        micros_of(a + b) == micros_of(a) + micros_of(b),
    decreases b.len(),
{
    reveal_with_fuel(bytes_of, 2);
    assert(seq![f].drop_last() =~= Seq::<EncodedView>::empty());
    assert(bytes_of(seq![f]) =~= f.annex_b);
    assert(micros_of(seq![f]) =~= seq![f.encode_micros]);
    assert(micros_of(a + b) =~= micros_of(a) + micros_of(b));
    if b.len() == 0 {
        assert(a + b =~= a);
        assert(bytes_of(a) + bytes_of(b) =~= bytes_of(a));
    } else {
        law_run_is_written_in_order(a, b.drop_last(), f);
        assert((a + b).drop_last() =~= a + b.drop_last());
        assert(bytes_of(a + b) =~= bytes_of(a) + bytes_of(b));
    }
}

/// The configuration of a session is the one in the first keyframe that carries one: frames before
/// it, which are no keyframes or carry none, do not matter, and neither do the frames behind it.
pub proof fn law_first_config_counts(before: Seq<EncodedView>, f: EncodedView, behind: Seq<EncodedView>)
    requires
        f.keyframe,
        codec_config_of(f.annex_b) is Some,
        forall|i: int|
            0 <= i < before.len() ==> !(#[trigger] before[i]).keyframe || codec_config_of(
                before[i].annex_b,
            ) is None,
    ensures
        config_after_all(None, before) is None,
        config_after_all(None, before.push(f) + behind) == codec_config_of(f.annex_b),
    decreases before.len() + behind.len(),
{
    if before.len() > 0 {
        let front = before.drop_last();
        assert forall|i: int| 0 <= i < front.len() implies !(#[trigger] front[i]).keyframe
            || codec_config_of(front[i].annex_b) is None by {
            assert(front[i] == before[i]);
        }
        law_first_config_counts(front, f, Seq::empty());
        assert(before.last() == before[before.len() - 1]);
    }
    if behind.len() == 0 {
        assert((before.push(f) + behind).drop_last() =~= before);
    } else {
        law_first_config_counts(before, f, behind.drop_last());
        assert((before.push(f) + behind).drop_last() =~= before.push(f) + behind.drop_last());
    }
}

/// The summary of a session agrees with what was written: as many bytes as the sink received, one
/// encode time for each frame, in their order.
pub proof fn law_summary_is_of_what_was_written(
    pre: LinkState,
    post: LinkState,
    frames: Seq<EncodedView>,
    s: SessionSummary,
    i: int,
)
    requires
        encoded_session(pre, post, frames, s),
        post.sent.len() - pre.sent.len() <= usize::MAX,
    ensures
        pre.sent.len() + s.bytes_written == post.sent.len(),
        pre.sent.is_prefix_of(post.sent),
        s.frames == frames.len(),
        s.latency@.len() == frames.len(),
        0 <= i < frames.len() ==> s.latency@[i] == frames[i].encode_micros,
{
}

/// A rank below the first is taken as the first, the smallest sample; one beyond the last as the
/// last, the largest.
pub proof fn law_ranks_outside_are_the_ends(samples: Seq<u64>, rank: int)
    requires
        samples.len() > 0,
    ensures
        rank < 1 ==> sample_of_rank(samples, rank) == min_of(samples),
        rank > samples.len() ==> sample_of_rank(samples, rank) == max_of(samples),
        sample_of_rank(Seq::empty(), rank) is None,
{
    law_percentiles(samples, 0, 100);
    assert(nearest_rank_of(0, samples.len() as int) == 0);
    assert(nearest_rank_of(100, samples.len() as int) == samples.len());
}

/// An encoded frame is seen as it is, each value under its own name.
pub proof fn law_encoded_frame_is_seen_as_it_is(e: EncodedFrame)
    ensures
        e@.pts_us == e.pts_us,
        e@.capture_us == e.capture_us,
        e@.keyframe == e.keyframe,
        e@.encode_micros == e.encode_micros,
        e@.annex_b == e.annex_b@,
{
}

} // verus!
