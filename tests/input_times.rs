use streaming_harness::input::{
    ConstantThroughputInputTimes, InputTimeResumableIterator, SyntheticInputTimeGenerator,
};

fn drain_all(mut times: ConstantThroughputInputTimes) -> Vec<u64> {
    let mut out = Vec::new();
    while let Some(t) = times.next() {
        out.push(t);
    }
    out
}

#[test]
fn schedule_steps_from_first_until_end() {
    let out = drain_all(ConstantThroughputInputTimes::new(1, 3, 10));
    assert_eq!(out, vec![1, 4, 7]);
    let out = drain_all(ConstantThroughputInputTimes::new(1, 3, 11));
    assert_eq!(out, vec![1, 4, 7, 10]);
}

#[test]
fn schedule_count_is_ceiling_of_span_over_step() {
    for (first, d, end) in [(0u64, 7u64, 100u64), (5, 5, 5), (5, 5, 6), (10, 1, 3), (0, 1_000_000, 2_000_000_000)] {
        let out = drain_all(ConstantThroughputInputTimes::new(first, d, end));
        let expected = if end <= first { 0 } else { (end - first + d - 1) / d };
        assert_eq!(out.len() as u64, expected);
        for (k, t) in out.iter().enumerate() {
            assert_eq!(*t, first + k as u64 * d);
            assert!(*t < end);
        }
    }
}

#[test]
fn schedule_empty_when_end_not_after_first() {
    let mut times = ConstantThroughputInputTimes::new(10, 2, 10);
    assert!(times.end());
    assert_eq!(times.peek(), None);
    assert_eq!(times.next(), None);
}

#[test]
fn peek_does_not_consume() {
    let mut times = ConstantThroughputInputTimes::new(2, 2, 7);
    assert_eq!(times.peek(), Some(2));
    assert_eq!(times.peek(), Some(2));
    assert_eq!(times.next(), Some(2));
    assert_eq!(times.peek(), Some(4));
    assert!(!times.end());
    assert_eq!(times.next(), Some(4));
    assert_eq!(times.next(), Some(6));
    assert!(times.end());
    assert_eq!(times.next(), None);
}

#[test]
fn schedule_near_the_largest_time_stops_without_overflow() {
    let out = drain_all(ConstantThroughputInputTimes::new(u64::MAX - 5, 4, u64::MAX));
    assert_eq!(out, vec![u64::MAX - 5, u64::MAX - 1]);
}

#[test]
fn drain_distinguishes_not_yet_from_exhausted() {
    let mut g = SyntheticInputTimeGenerator::new(ConstantThroughputInputTimes::new(10, 10, 40));
    assert_eq!(g.iter_until_incl(5), Some(vec![]));
    assert!(!g.is_exhausted());
    assert_eq!(g.iter_until_incl(20), Some(vec![10, 20]));
    assert_eq!(g.iter_until_incl(20), Some(vec![]));
    assert_eq!(g.iter_until_incl(1000), Some(vec![30]));
    assert!(g.is_exhausted());
    assert_eq!(g.iter_until_incl(1000), None);
}

#[test]
fn repeated_drains_never_repeat_and_increase() {
    let mut g = SyntheticInputTimeGenerator::new(ConstantThroughputInputTimes::new(0, 3, 100));
    let mut all = Vec::new();
    for bound in [0u64, 0, 4, 5, 6, 6, 50, 51, 99, 200] {
        if let Some(batch) = g.iter_until_incl(bound) {
            for t in &batch {
                assert!(*t <= bound);
            }
            all.extend(batch);
        }
    }
    let expected: Vec<u64> = (0..34).map(|k| 3 * k).collect();
    assert_eq!(all, expected);
    for w in all.windows(2) {
        assert!(w[0] < w[1]);
    }
}

#[test]
fn lazy_drain_consumes_only_what_it_yields() {
    let mut g = SyntheticInputTimeGenerator::new(ConstantThroughputInputTimes::new(0, 5, 30));
    assert_eq!(g.next_until_incl(12), Some(0));
    assert_eq!(g.next_until_incl(12), Some(5));
    // stop early: 10 stays pending
    assert_eq!(g.iter_until_incl(100), Some(vec![10, 15, 20, 25]));
    assert_eq!(g.next_until_incl(100), None);
    assert!(g.is_exhausted());
}

#[test]
fn lazy_drain_not_yet_due() {
    let mut g = SyntheticInputTimeGenerator::new(ConstantThroughputInputTimes::new(7, 5, 30));
    assert_eq!(g.next_until_incl(6), None);
    assert!(!g.is_exhausted());
    assert_eq!(g.next_until_incl(7), Some(7));
}
