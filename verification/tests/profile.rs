use helix_lib::profile::{
    enabled, scope, MetricRegistry, MetricState, Samples, Scope, Stats, MIN_SAMPLES,
};
use std::rc::Rc;

#[test]
fn profiling_switch() {
    assert!(enabled(Some("1")));
    assert!(!enabled(Some("0")));
    assert!(!enabled(Some("11")));
    assert!(!enabled(None));
}

#[test]
fn stats_of_samples() {
    let values: Vec<u64> = (1..=100).rev().collect();
    let stats = Stats::from_values(values);
    assert_eq!(stats.samples, 100);
    assert_eq!(stats.p50_us, 50);
    assert_eq!(stats.p95_us, 95);
    assert_eq!(stats.max_us, 100);
    let stats = Stats::from_values(vec![7]);
    assert_eq!((stats.samples, stats.p50_us, stats.p95_us, stats.max_us), (1, 7, 7, 7));
}

#[test]
fn samples_report_after_enough() {
    let mut s = Samples::new();
    for i in 0..(MIN_SAMPLES as u64 - 1) {
        assert!(!s.push(i));
    }
    assert!(s.push(1000));
    assert_eq!(s.take().len(), MIN_SAMPLES);
    assert!(!s.push(1));
}

#[test]
fn scopes() {
    let s: Scope<u32, &str> = Scope::disabled();
    assert_eq!(s.finish(), None);
    let s = Scope::active(5u32, "render");
    assert_eq!(s.finish(), Some((5, "render")));
}

#[test]
fn scope_calls_nothing_when_disabled() {
    let s = scope(false, || -> u32 { panic!("no clock read when disabled") }, || "m");
    assert_eq!(s.finish(), None);
    let s = scope(true, || 3u32, || "m");
    assert_eq!(s.finish(), Some((3, "m")));
}

#[test]
fn metrics_report_after_enough_samples_and_the_interval() {
    let mut state = MetricState::new(0u32);
    for i in 0..(MIN_SAMPLES as u64 - 1) {
        assert_eq!(state.record(i, true, 1), None);
    }
    // Enough samples, but the interval has not passed: the sample is kept.
    assert_eq!(state.record(500, false, 2), None);
    assert_eq!(*state.last_log(), 0);
    let reported = state.record(7, true, 3).unwrap();
    assert_eq!(reported.len(), MIN_SAMPLES + 1);
    assert_eq!(reported[MIN_SAMPLES - 1], 500);
    assert_eq!(*state.last_log(), 3);
    // While a report is being made, samples are kept.
    for i in 0..(MIN_SAMPLES as u64) {
        assert_eq!(state.record(i, true, 4), None);
    }
    state.finish_report();
    assert_eq!(state.record(1, true, 5).map(|v| v.len()), Some(MIN_SAMPLES + 1));
}

#[test]
fn one_metric_per_name() {
    let mut registry = MetricRegistry::new();
    let a = registry.metric("render", || Rc::new(1));
    let b = registry.metric("render", || Rc::new(2));
    let c = registry.metric("input", || Rc::new(3));
    assert!(Rc::ptr_eq(&a, &b));
    assert_eq!(*b, 1);
    assert_eq!(*c, 3);
    assert!(!Rc::ptr_eq(&a, &c));
}
