//! Glass-to-glass latency.

use rustscreen::macos_host::latency::{
    LatencyAccum, LatencyReport, PipelineLatency, ReportLine, ReportSink, Stage, StageFigures,
};
use rustscreen::protocol::clock::ClockOffset;

/// The arithmetic mean of the samples; zero without any.
fn avg_us(a: &LatencyAccum) -> f64 {
    if a.count() == 0 {
        0.0
    } else {
        a.sum_us() as f64 / a.count() as f64
    }
}

fn offset(us: i64) -> ClockOffset {
    ClockOffset {
        offset_us: us,
        rtt_us: 0,
    }
}

#[test]
fn fuses_host_and_phone_into_glass_to_glass() {
    let mut p = PipelineLatency::new(16);
    p.record_host(1000, 0, 8, 10);
    p.record_stats(1000, 110, 120, 130, offset(100));
    let r = p.report();
    assert_eq!(r.glass_to_glass.count(), 1);
    assert_eq!(r.glass_to_glass.max(), Some(30));
    assert_eq!(r.capture_to_encode.max(), Some(8));
    assert_eq!(r.encode_to_send.max(), Some(2));
    assert_eq!(r.send_to_arrive.max(), Some(0));
    assert_eq!(r.arrive_to_decode.max(), Some(10));
    assert_eq!(r.decode_to_present.max(), Some(10));
}

#[test]
fn stats_without_matching_host_record_is_dropped() {
    let mut p = PipelineLatency::new(16);
    p.record_stats(999, 100, 110, 120, offset(0));
    assert_eq!(p.report().glass_to_glass.count(), 0);
}

#[test]
fn unmatched_stats_counter_increments_on_missing_host_record() {
    let mut p = PipelineLatency::new(16);
    p.record_stats(999, 100, 110, 120, offset(0));
    assert_eq!(
        p.report().unmatched_stats,
        1,
        "missing host record is counted"
    );

    p.record_stats(998, 100, 110, 120, offset(0));
    assert_eq!(p.report().unmatched_stats, 2);

    p.record_host(1000, 0, 8, 10);
    p.record_stats(1000, 110, 120, 130, offset(100));
    let r = p.report();
    assert_eq!(
        r.unmatched_stats, 2,
        "a matched stat leaves the counter untouched"
    );
    assert_eq!(r.glass_to_glass.count(), 1);
}

#[test]
fn evicted_host_record_makes_stats_unmatched() {
    let mut p = PipelineLatency::new(2);
    p.record_host(1, 0, 1, 2);
    p.record_host(2, 0, 1, 2);
    p.record_host(3, 0, 1, 2);
    p.record_stats(1, 10, 11, 12, offset(0));
    let r = p.report();
    assert_eq!(r.glass_to_glass.count(), 0);
    assert_eq!(
        r.unmatched_stats, 1,
        "an evicted host record makes its phone stat observably unmatched"
    );
}

#[test]
fn interleaved_out_of_order_pts_still_fuse() {
    let mut p = PipelineLatency::new(16);
    p.record_host(10, 0, 1, 2);
    p.record_host(20, 0, 2, 4);
    p.record_host(30, 0, 3, 6);

    p.record_stats(20, 100, 100, 100, offset(100));
    p.record_stats(30, 100, 100, 100, offset(100));
    p.record_stats(10, 100, 100, 100, offset(100));

    let r = p.report();
    assert_eq!(
        r.glass_to_glass.count(),
        3,
        "all three fuse regardless of order"
    );
    assert_eq!(r.unmatched_stats, 0, "every pts found a host record");
    assert_eq!(r.glass_to_glass.max(), Some(0));
    assert_eq!(r.capture_to_encode.max(), Some(3));
}

#[test]
fn bounded_map_evicts_oldest() {
    let mut p = PipelineLatency::new(2);
    p.record_host(1, 0, 1, 2);
    p.record_host(2, 0, 1, 2);
    p.record_host(3, 0, 1, 2);
    p.record_stats(1, 10, 11, 12, offset(0));
    p.record_stats(3, 10, 11, 12, offset(0));
    assert_eq!(p.report().glass_to_glass.count(), 1);
}

#[test]
fn negative_interval_clamps_to_zero_and_counts_anomaly() {
    let mut p = PipelineLatency::new(16);
    p.record_host(1, 0, 1, 2);
    p.record_stats(1, 50, 50, 50, offset(100));
    let r = p.report();
    assert_eq!(r.glass_to_glass.max(), Some(0), "negative G2G clamps to 0");
    assert_eq!(r.anomalies, 1);
}

#[test]
fn record_dropped_accumulates_into_report() {
    let mut p = PipelineLatency::new(16);
    assert_eq!(p.report().dropped_frames, 0);
    p.record_dropped(3);
    p.record_dropped(2);
    assert_eq!(
        p.report().dropped_frames,
        5,
        "drop-to-keyframe counts accumulate so the report surfaces total shed load"
    );
}

#[test]
fn summary_line_reports_glass_to_glass_p50() {
    let mut p = PipelineLatency::new(16);
    p.record_host(1000, 0, 8, 10);
    p.record_stats(1000, 110, 120, 130, offset(100));
    let figures = p.report().figures();
    assert_eq!(figures.g2g_p50, Some(30));
    assert_eq!(figures.g2g_max, Some(30));
    assert_eq!(figures.n, 1);
    assert_eq!(figures.cap_enc_p50, Some(8));
    assert_eq!(figures.dropped, 0);
}

#[test]
fn new_accum_has_no_samples() {
    let a = LatencyAccum::new();
    assert_eq!(a.count(), 0);
    assert_eq!(avg_us(&a), 0.0);
    assert_eq!(a.min_us(), None);
    assert_eq!(a.max_us(), None);
}

#[test]
fn first_sample_seeds_min_max_and_avg() {
    let mut a = LatencyAccum::new();
    a.record(500);
    assert_eq!(a.count(), 1);
    assert_eq!(a.min_us(), Some(500));
    assert_eq!(a.max_us(), Some(500));
    assert_eq!(avg_us(&a), 500.0);
}

#[test]
fn min_tracks_smallest_max_tracks_largest() {
    let mut a = LatencyAccum::new();
    for us in [500u128, 200, 800, 350] {
        a.record(us);
    }
    assert_eq!(a.count(), 4);
    assert_eq!(a.min_us(), Some(200));
    assert_eq!(a.max_us(), Some(800));
}

#[test]
fn avg_is_arithmetic_mean() {
    let mut a = LatencyAccum::new();
    a.record(100);
    a.record(300);
    assert_eq!(avg_us(&a), 200.0);
}

#[test]
fn zero_us_first_sample_is_valid_not_unset() {
    let mut a = LatencyAccum::new();
    a.record(0);
    a.record(10);
    assert_eq!(a.count(), 2);
    assert_eq!(
        a.min_us(),
        Some(0),
        "a true 0 µs sample is the minimum, not discarded"
    );
    assert_eq!(a.max_us(), Some(10));
    assert_eq!(avg_us(&a), 5.0);
}

#[test]
fn zero_us_later_sample_lowers_min() {
    let mut a = LatencyAccum::new();
    a.record(7);
    a.record(0);
    assert_eq!(a.min_us(), Some(0));
    assert_eq!(a.max_us(), Some(7));
}

#[test]
fn csv_header_names_every_figure() {
    // The elapsed time and the seventeen figures of a report.
    assert_eq!(LatencyReport::csv_header().split(',').count(), 18);
    assert!(LatencyReport::csv_header().starts_with("elapsed_s,n,g2g_p50"));
    assert_eq!(LatencyReport::new().figures().g2g_p50, None);
}

#[test]
fn stages_add_up_to_the_whole() {
    let mut p = PipelineLatency::new(4);
    p.record_host(7, 100, 150, 180);
    p.record_stats(7, 1190, 1200, 1260, offset(1000));
    let r = p.report();
    let stages = [
        &r.capture_to_encode,
        &r.encode_to_send,
        &r.send_to_arrive,
        &r.arrive_to_decode,
        &r.decode_to_present,
    ];
    let total: u64 = stages.iter().map(|s| s.max().unwrap()).sum();
    assert_eq!(r.glass_to_glass.max(), Some(160));
    assert_eq!(total, 160);
    assert_eq!(r.anomalies, 0);
}

#[test]
fn a_report_without_clocks_shows_the_host_stages_only() {
    let lines = LatencyReport::new().lines(None);
    assert_eq!(
        lines,
        vec![
            ReportLine::Stage(Stage::CaptureToEncode, None),
            ReportLine::Stage(Stage::EncodeToSend, None),
            ReportLine::Unavailable,
            ReportLine::Anomalies(0),
            ReportLine::Unmatched(0),
            ReportLine::Dropped(0),
        ]
    );
}

#[test]
fn a_fused_report_shows_every_stage_and_a_summary() {
    let mut p = PipelineLatency::new(16);
    p.record_host(1000, 0, 8, 10);
    p.record_stats(1000, 110, 120, 130, offset(100));
    p.record_dropped(4);
    let clocks = ClockOffset { offset_us: 100, rtt_us: 7 };
    let lines = p.report().lines(Some(clocks));
    assert_eq!(lines.len(), 11);
    let figures = StageFigures { count: 1, sum: 30, p50: 30, p95: 30, max: 30 };
    assert_eq!(lines[5], ReportLine::Stage(Stage::GlassToGlass, Some(figures)));
    assert_eq!(lines[6], ReportLine::Precision { offset_us: 100, rtt_us: 7, half_rtt_us: 3 });
    assert_eq!(lines[9], ReportLine::Dropped(4));
    assert_eq!(lines[10], ReportLine::Summary(p.report().figures()));
}

#[test]
fn a_report_that_was_passed_on_stays_as_it_was() {
    let mut p = PipelineLatency::new(16);
    let mut kept: Vec<LatencyReport> = Vec::new();
    kept.report(p.report());
    p.record_dropped(1);
    kept.report(p.report());
    assert_eq!(kept[0], LatencyReport::new());
    assert_eq!(kept[1].dropped_frames, 1);
}

#[test]
fn recording_a_waiting_frame_again_evicts_nothing() {
    let mut p = PipelineLatency::new(2);
    p.record_host(1, 0, 1, 2);
    p.record_host(2, 0, 1, 2);
    p.record_host(2, 0, 1, 2);
    p.record_stats(1, 10, 11, 12, offset(0));
    let r = p.report();
    assert_eq!(r.glass_to_glass.count(), 1);
    assert_eq!(r.unmatched_stats, 0);
}

#[test]
fn a_record_counts_from_when_it_was_made() {
    let mut p = PipelineLatency::new(2);
    p.record_host(1, 0, 1, 2);
    p.record_stats(1, 10, 11, 12, offset(0));
    p.record_host(2, 0, 1, 2);
    p.record_host(1, 0, 1, 2);
    p.record_host(3, 0, 1, 2);
    p.record_stats(2, 10, 11, 12, offset(0));
    assert_eq!(p.report().unmatched_stats, 1, "2 was the oldest that waited");
    p.record_stats(1, 10, 11, 12, offset(0));
    p.record_stats(3, 10, 11, 12, offset(0));
    assert_eq!(p.report().glass_to_glass.count(), 3);
    assert_eq!(p.report().unmatched_stats, 1);
}

#[test]
fn the_last_records_are_those_that_fuse() {
    for (capacity, n) in [(0, 3), (1, 1), (3, 2), (3, 3), (3, 7)] {
        let mut p = PipelineLatency::new(capacity);
        for pts in 0..n {
            p.record_host(pts, 0, 1, 2);
        }
        for pts in 0..n {
            p.record_stats(pts, 10, 11, 12, offset(0));
        }
        let kept = n.min(capacity.max(1) as u64);
        assert_eq!(p.report().glass_to_glass.count(), kept);
        assert_eq!(p.report().unmatched_stats, n - kept);
    }
}
