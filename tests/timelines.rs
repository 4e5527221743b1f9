use streaming_harness::format::{format_detailed_timeline, format_summary_timeline};
use streaming_harness::input::ConstantThroughputInputTimes;
use streaming_harness::output::{hdrhist_timeline_collector, Metrics, WarmupDurationMetrics};
use streaming_harness::timeline::{Timeline, TimelineElement};
use streaming_harness_hdrhist::HDRHist;

fn new_timeline(start: u64, end: u64, dt: u64) -> Timeline<HDRHist, HDRHist> {
    Timeline::new(start, end, dt, HDRHist::new(), HDRHist::new)
}

fn counts(t: &Timeline<HDRHist, HDRHist>) -> Vec<usize> {
    t.timeline.iter().map(|e| e.samples).collect()
}

#[test]
fn timeline_buckets_cover_start_to_end() {
    let t = new_timeline(10, 45, 10);
    let times: Vec<u64> = t.timeline.iter().map(|e| e.time).collect();
    assert_eq!(times, vec![10, 20, 30, 40]);
    assert_eq!(counts(&t), vec![0, 0, 0, 0]);
    let t = new_timeline(0, 2_000_000_000, 1_000_000_000);
    assert_eq!(t.timeline.len(), 2);
    let t = new_timeline(5, 5, 1);
    assert_eq!(t.timeline.len(), 0);
}

#[test]
fn in_order_samples_land_in_their_bucket() {
    let mut t = new_timeline(100, 200, 25);
    for b in [100u64, 110, 124, 125, 149, 150, 199] {
        t.record(b, b + 1);
    }
    assert_eq!(counts(&t), vec![3, 2, 1, 1]);
}

#[test]
fn late_sample_goes_to_current_bucket() {
    let mut t = new_timeline(0, 40, 10);
    t.record(25, 30);
    t.record(5, 30);
    t.record(3, 4);
    assert_eq!(counts(&t), vec![0, 0, 3, 0]);
}

#[test]
fn sample_before_start_goes_to_first_bucket() {
    let mut t = new_timeline(10, 40, 10);
    t.record(2, 5);
    assert_eq!(counts(&t), vec![1, 0, 0]);
}

#[test]
fn timeline_combine_adds_bucket_counts() {
    let mut a = new_timeline(0, 30, 10);
    let mut b = new_timeline(0, 30, 10);
    a.record(1, 2);
    a.record(25, 27);
    b.record(11, 12);
    b.record(12, 13);
    assert!(a.can_combine(&b));
    let c = Metrics::combined(a, b);
    assert_eq!(counts(&c), vec![1, 2, 1]);
}

#[test]
fn timeline_combine_refuses_other_shape() {
    let a = new_timeline(0, 30, 10);
    let b = new_timeline(0, 30, 5);
    let c = new_timeline(0, 40, 10);
    assert!(!a.can_combine(&b));
    assert!(!a.can_combine(&c));
}

#[test]
fn timeline_combine_is_associative() {
    let make = |samples: &[u64]| {
        let mut t = new_timeline(0, 30, 10);
        for s in samples {
            t.record(*s, *s + 3);
        }
        t
    };
    let left = Metrics::combined(Metrics::combined(make(&[1, 2]), make(&[12])), make(&[25, 26, 27]));
    let right = Metrics::combined(make(&[1, 2]), Metrics::combined(make(&[12]), make(&[25, 26, 27])));
    assert_eq!(counts(&left), vec![2, 1, 3]);
    assert_eq!(counts(&left), counts(&right));
    let s = |h: &HDRHist| h.summary().map(|(_, _, u)| u).collect::<Vec<u64>>();
    assert_eq!(s(&left.latency_metrics), s(&right.latency_metrics));
    for (l, r) in left.timeline.iter().zip(right.timeline.iter()) {
        assert_eq!(s(&l.metrics), s(&r.metrics));
    }
}

#[test]
fn element_combine_adds_samples() {
    let mut h = HDRHist::new();
    h.add_value(3);
    let a = TimelineElement { time: 7, metrics: h, samples: 1 };
    let b = TimelineElement { time: 7, metrics: HDRHist::new(), samples: 4 };
    let c = a.combined(b);
    assert_eq!(c.time, 7);
    assert_eq!(c.samples, 5);
}

#[test]
fn end_to_end_one_second_buckets() {
    let input = ConstantThroughputInputTimes::new(0, 1_000_000, 2_000_000_000);
    let mut c = hdrhist_timeline_collector(input, 0, 0, 2_000_000_000, 2_000_000_000, 1_000_000_000);
    for k in 0..2000u64 {
        c.acknowledge_next(k * 1_000_000 + 500);
    }
    assert_eq!(c.recorded_samples(), 2000);
    let t = c.into_inner();
    assert_eq!(t.timeline.len(), 2);
    assert_eq!(t.timeline[0].time, 0);
    assert_eq!(t.timeline[1].time, 1_000_000_000);
    assert_eq!(t.timeline[0].samples, 1000);
    assert_eq!(t.timeline[1].samples, 1000);
}

#[test]
fn default_collector_window_counts_only_window() {
    let input = ConstantThroughputInputTimes::new(0, 1_000_000_000, 10_000_000_000);
    let mut c = hdrhist_timeline_collector(input, 0, 2_000_000_000, 8_000_000_000, 10_000_000_000, 1_000_000_000);
    c.acknowledge_till_input_t(20_000_000_000, 10_000_000_000);
    assert_eq!(c.recorded_samples(), 6);
    let t = c.into_inner();
    let counts: Vec<usize> = t.timeline.iter().map(|e| e.samples).collect();
    assert_eq!(counts, vec![1; 10]);
    let _: WarmupDurationMetrics<HDRHist> = t.latency_metrics;
}

#[test]
fn summary_report_of_empty_buckets() {
    let t = new_timeline(0, 20, 10);
    let out = format_summary_timeline("s".to_string(), t.timeline);
    assert_eq!(out, "s\t0\t0\t0\t0\t0\t0\t0\t0\ns\t10\t0\t0\t0\t0\t0\t0\t0");
}

#[test]
fn summary_report_of_one_value() {
    let mut h = HDRHist::new();
    h.add_value(1);
    let e = TimelineElement { time: 42, metrics: h, samples: 1 };
    let out = format_summary_timeline("p".to_string(), vec![e]);
    assert_eq!(out, "p\t42\t2\t2\t2\t2\t2\t2\t2");
}

#[test]
fn detailed_report_of_one_value() {
    let mut h = HDRHist::new();
    h.add_value(1);
    let e = TimelineElement { time: 5, metrics: h, samples: 1 };
    let out = format_detailed_timeline("pfx".to_string(), vec![e]);
    assert_eq!(out, "pfx\t5\t2\t1");
}

#[test]
fn detailed_report_matches_histogram_rows() {
    let mut h = HDRHist::new();
    for v in [3u64, 17, 17, 900, 12345] {
        h.add_value(v);
    }
    let rows: Vec<String> = h
        .ccdf_upper_bound()
        .map(|(v, p)| format!("x\t1000\t{}\t{}", v, p))
        .collect();
    let e = TimelineElement { time: 1000, metrics: h, samples: 5 };
    let empty = TimelineElement { time: 2000, metrics: HDRHist::new(), samples: 0 };
    let out = format_detailed_timeline("x".to_string(), vec![e, empty]);
    assert_eq!(out, format!("{}\n", rows.join("\n")));
}

#[test]
fn timeline_into_parts_hands_out_buckets() {
    let mut t = new_timeline(0, 20, 10);
    t.record(3, 4);
    t.record(13, 14);
    let (overall, buckets) = t.into_parts();
    assert_eq!(buckets.len(), 2);
    assert_eq!(buckets[0].samples, 1);
    assert_eq!(buckets[1].samples, 1);
    let s = |h: &HDRHist| h.summary().map(|(_, _, u)| u).collect::<Vec<u64>>();
    let mut expected = HDRHist::new();
    expected.add_value(1);
    expected.add_value(1);
    assert_eq!(s(&overall), s(&expected));
    let out = format_summary_timeline("q".to_string(), buckets);
    assert_eq!(out, "q\t0\t2\t2\t2\t2\t2\t2\t2\nq\t10\t2\t2\t2\t2\t2\t2\t2");
}
