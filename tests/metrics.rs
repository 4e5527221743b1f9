use streaming_harness::input::ConstantThroughputInputTimes;
use streaming_harness::output::{combine_all, MetricCollector, Metrics, WarmupDurationMetrics};
use streaming_harness_hdrhist::HDRHist;

fn summary(h: &HDRHist) -> Vec<u64> {
    h.summary().map(|(_, _, upper)| upper).collect()
}

#[test]
fn histogram_records_latency() {
    let mut h = HDRHist::new();
    Metrics::record(&mut h, 10, 15);
    let mut expected = HDRHist::new();
    expected.add_value(5);
    assert_eq!(summary(&h), summary(&expected));
}

#[test]
fn histogram_completion_before_send_counts_as_zero() {
    let mut h = HDRHist::new();
    Metrics::record(&mut h, 15, 10);
    let mut expected = HDRHist::new();
    expected.add_value(0);
    assert_eq!(summary(&h), summary(&expected));
}

#[test]
fn histogram_combined_holds_both() {
    let mut a = HDRHist::new();
    a.add_value(1);
    let mut b = HDRHist::new();
    b.add_value(1000);
    let merged = Metrics::combined(a, b);
    let mut expected = HDRHist::new();
    expected.add_value(1);
    expected.add_value(1000);
    assert_eq!(summary(&merged), summary(&expected));
    assert_ne!(summary(&merged), summary(&HDRHist::new()));
}

#[test]
fn window_drops_samples_outside() {
    let mut w = WarmupDurationMetrics::new(HDRHist::new(), 100, 200);
    assert!(!w.admits_sample(99));
    assert!(w.admits_sample(100));
    assert!(w.admits_sample(199));
    assert!(!w.admits_sample(200));
    w.record(50, 60);
    w.record(150, 170);
    w.record(250, 260);
    let inner = w.into_inner();
    let mut expected = HDRHist::new();
    expected.add_value(20);
    assert_eq!(summary(&inner), summary(&expected));
}

#[test]
fn window_combine_needs_equal_bounds() {
    let a = WarmupDurationMetrics::new(HDRHist::new(), 0, 10);
    let b = WarmupDurationMetrics::new(HDRHist::new(), 0, 10);
    let c = WarmupDurationMetrics::new(HDRHist::new(), 1, 10);
    assert!(a.can_combine(&b));
    assert!(!a.can_combine(&c));
}

#[test]
fn combine_all_merges_every_sink() {
    let mut all = Vec::new();
    for v in [1u64, 20, 300] {
        let mut h = HDRHist::new();
        h.add_value(v);
        all.push(h);
    }
    let merged = combine_all(all);
    let mut expected = HDRHist::new();
    for v in [1u64, 20, 300] {
        expected.add_value(v);
    }
    assert_eq!(summary(&merged), summary(&expected));
}

fn windowed_collector() -> MetricCollector<ConstantThroughputInputTimes, WarmupDurationMetrics<HDRHist>> {
    MetricCollector::new(
        ConstantThroughputInputTimes::new(0, 10, 100),
        WarmupDurationMetrics::new(HDRHist::new(), 20, 60),
    )
}

#[test]
fn acknowledge_next_pops_in_order() {
    let mut c = windowed_collector();
    c.acknowledge_next(5);
    c.acknowledge_next(15);
    c.acknowledge_next(25);
    assert_eq!(c.recorded_samples(), 1);
    let inner = c.into_inner().into_inner();
    let mut expected = HDRHist::new();
    expected.add_value(5);
    assert_eq!(summary(&inner), summary(&expected));
}

#[test]
fn acknowledge_till_pops_up_to_bound() {
    let mut c = windowed_collector();
    c.acknowledge_till_input_t(100, 35);
    assert_eq!(c.recorded_samples(), 2);
    c.acknowledge_till_input_t(100, 35);
    assert_eq!(c.recorded_samples(), 2);
    c.acknowledge_till_input_t(200, 1000);
    assert_eq!(c.recorded_samples(), 4);
}

#[test]
fn acknowledge_while_stops_at_first_refusal() {
    let mut c = windowed_collector();
    c.acknowledge_while(70, |t| t < 45);
    assert_eq!(c.recorded_samples(), 3);
    c.acknowledge_while(80, |t| t % 20 == 0);
    assert_eq!(c.recorded_samples(), 3);
    c.acknowledge_while(90, |t| t <= 50);
    assert_eq!(c.recorded_samples(), 4);
}

#[test]
fn recorded_samples_counts_window_under_any_interleaving() {
    let mut c = windowed_collector();
    c.acknowledge_next(1);
    c.acknowledge_till_input_t(50, 30);
    c.acknowledge_while(60, |t| t < 55);
    c.acknowledge_next(70);
    c.acknowledge_till_input_t(200, 1000);
    // admitted begin times: 20, 30, 40, 50
    assert_eq!(c.recorded_samples(), 4);
}

#[test]
fn histogram_keeps_buckets_not_values() {
    let mut a = HDRHist::new();
    Metrics::record(&mut a, 0, 32);
    let mut b = HDRHist::new();
    Metrics::record(&mut b, 0, 33);
    let mut c = HDRHist::new();
    Metrics::record(&mut c, 0, 31);
    assert_eq!(summary(&a), summary(&b));
    assert_ne!(summary(&a), summary(&c));
}

#[test]
fn window_kept_by_record_and_combine() {
    let mut a = WarmupDurationMetrics::new(HDRHist::new(), 10, 20);
    let b = WarmupDurationMetrics::new(HDRHist::new(), 10, 20);
    a.record(15, 16);
    a.record(25, 26);
    let c = Metrics::combined(a, b);
    assert!(!c.admits_sample(9));
    assert!(c.admits_sample(10));
    assert!(!c.admits_sample(20));
    let mut expected = HDRHist::new();
    expected.add_value(1);
    assert_eq!(summary(&c.into_inner()), summary(&expected));
}
