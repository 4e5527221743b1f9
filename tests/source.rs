use std::time::Duration;
use streaming_harness::flow_controlled::{FlowControlledSource, SourceAction, SourcePhase};
use streaming_harness::input::{ConstantThroughputInputTimes, SyntheticInputTimeGenerator};
use streaming_harness::util::{nanos_from_parts, ToNanos};

fn source(first: u64, d: u64, end: u64, wait: bool) -> FlowControlledSource<ConstantThroughputInputTimes> {
    let input = SyntheticInputTimeGenerator::new(ConstantThroughputInputTimes::new(first, d, end));
    FlowControlledSource::new(input, 0, 1, 1_000_000, wait)
}

#[test]
fn source_loads_then_waits_for_watermark() {
    let mut s = source(1, 1_000_000, 10_000_000, true);
    assert_eq!(s.phase(), SourcePhase::Loading);
    match s.step(Some(0), 0) {
        SourceAction::Load { at, token } => {
            assert_eq!(at, 0);
            assert_eq!(token, 1);
        }
        _ => panic!("expected the seed batch"),
    }
    assert_eq!(s.phase(), SourcePhase::Waiting);
    assert!(matches!(s.step(Some(0), 0), SourceAction::Idle));
    assert!(matches!(s.step(Some(1), 0), SourceAction::StartRun));
    assert_eq!(s.phase(), SourcePhase::Running);
}

#[test]
fn source_without_wait_starts_at_once() {
    let mut s = source(1, 1_000_000, 10_000_000, false);
    assert!(matches!(s.step(Some(0), 0), SourceAction::Load { .. }));
    assert!(matches!(s.step(Some(0), 0), SourceAction::StartRun));
    // the run is still gated on the load having drained
    assert!(matches!(s.step(Some(0), 5_000_000), SourceAction::Idle));
}

#[test]
fn source_gates_on_watermark_and_emits_due_times() {
    let mut s = source(1, 1_000_000, 10_000_000, true);
    s.step(None, 0);
    s.step(None, 0);
    match s.step(None, 2_500_000) {
        SourceAction::Emit { at, times, token } => {
            assert_eq!(at, 1);
            assert_eq!(times, vec![1, 1_000_001]);
            assert_eq!(token, 2_000_000);
        }
        _ => panic!("expected an emission"),
    }
    assert_eq!(s.token(), 2_000_000);
    // watermark behind the token: nothing happens
    assert!(matches!(s.step(Some(1_999_999), 9_000_000), SourceAction::Idle));
    assert_eq!(s.token(), 2_000_000);
    match s.step(Some(2_000_000), 4_999_999) {
        SourceAction::Emit { at, times, token } => {
            assert_eq!(at, 2_000_000);
            assert_eq!(times, vec![2_000_001, 3_000_001]);
            assert_eq!(token, 4_000_000);
        }
        _ => panic!("expected an emission"),
    }
}

#[test]
fn source_token_never_moves_back() {
    let mut s = source(0, 1_000, 1_000_000_000, true);
    s.step(None, 0);
    s.step(None, 0);
    let mut last = s.token();
    for elapsed in [5_000_000u64, 3_000_000, 3_000_000, 7_500_000, 1] {
        s.step(None, elapsed);
        assert!(s.token() >= last);
        last = s.token();
    }
    assert_eq!(last, 7_000_000);
}

#[test]
fn source_finishes_when_schedule_runs_out() {
    let mut s = source(0, 1_000_000, 3_000_000, true);
    s.step(None, 0);
    s.step(None, 0);
    match s.step(None, 10_000_000) {
        SourceAction::Finish { at, times } => {
            assert_eq!(at, 1);
            assert_eq!(times, vec![0, 1_000_000, 2_000_000]);
        }
        _ => panic!("expected the last batch"),
    }
    assert_eq!(s.phase(), SourcePhase::Done);
    assert!(matches!(s.step(None, 20_000_000), SourceAction::Idle));
}

#[test]
fn end_to_end_source_emits_whole_schedule() {
    let input = SyntheticInputTimeGenerator::new(ConstantThroughputInputTimes::new(0, 1_000_000, 2_000_000_000));
    let mut s = FlowControlledSource::new(input, 0, 0, 1_000_000, true);
    let mut emitted = Vec::new();
    let mut elapsed = 0u64;
    loop {
        match s.step(None, elapsed) {
            SourceAction::Emit { times, .. } => emitted.extend(times),
            SourceAction::Finish { times, .. } => {
                emitted.extend(times);
                break;
            }
            _ => {}
        }
        elapsed += 250_000;
    }
    assert_eq!(emitted.len(), 2000);
    for (k, t) in emitted.iter().enumerate() {
        assert_eq!(*t, k as u64 * 1_000_000);
    }
}

#[test]
fn duration_in_nanoseconds() {
    assert_eq!(Duration::new(2, 5).to_nanos(), 2_000_000_005);
    assert_eq!(Duration::from_millis(1500).to_nanos(), 1_500_000_000);
    assert_eq!(nanos_from_parts(u64::MAX, 0), u64::MAX);
    assert_eq!(nanos_from_parts(3, 999_999_999), 3_999_999_999);
}
