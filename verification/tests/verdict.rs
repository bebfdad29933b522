//! Thresholds and verdicts.

use tutui::number::Number;
use tutui::protocol::{Labels, MetricSpec, Observation};
use tutui::sorted::SortedMap;
use tutui::store::MetricStore;
use tutui::verdict::{evaluate, judge, value_of, Bound, Stat, Threshold};

fn num(v: f64) -> Number {
    Number::from_bits(v.to_bits())
}

fn val(n: Number) -> f64 {
    f64::from_bits(n.to_bits())
}

fn bound(v: f64) -> Option<Bound> {
    Some(Bound { at: num(v), text: format!("{v}") })
}

fn label_map(pairs: &[(&str, &str)]) -> Labels {
    let mut l = SortedMap::new();
    for (k, v) in pairs {
        l.put(k.to_string(), v.to_string());
    }
    l
}

fn obs(metric: &str, value: f64, labels: &[(&str, &str)]) -> Observation {
    Observation { metric: metric.to_string(), value: num(value), labels: label_map(labels) }
}

fn rule(metric: &str, stat: Stat, labels: &[(&str, &str)], min: Option<Bound>, max: Option<Bound>, skip: &[&str]) -> Threshold {
    Threshold {
        metric: metric.to_string(),
        stat,
        labels: label_map(labels),
        min,
        max,
        skip_phases: skip.iter().map(|s| s.to_string()).collect(),
    }
}

fn rules() -> Vec<Threshold> {
    vec![
        rule("lat", Stat::P95, &[], None, bound(100.0), &["setup"]),
        rule("reqs", Stat::Share, &[("status", "200")], bound(0.9), None, &[]),
        rule("queue", Stat::Slope, &[], None, bound(0.0), &[]),
    ]
}

#[test]
fn ceiling_is_last_passing_phase_and_setup_phases_are_skipped() {
    let mut s = MetricStore::new(vec![
        MetricSpec::histogram("lat", "ms", ""),
        MetricSpec::counter("reqs", ""),
        MetricSpec::gauge("queue", ""),
    ]);
    s.begin_phase("setup");
    s.record(&obs("lat", 5000.0, &[]));
    s.advance_to(1);
    s.begin_phase("c=5");
    s.record(&obs("lat", 50.0, &[]));
    s.record(&obs("reqs", 1.0, &[("status", "200")]));
    s.record(&obs("queue", 5.0, &[]));
    s.advance_to(2);
    s.record(&obs("queue", 5.0, &[]));
    s.advance_to(3);
    s.begin_phase("c=50");
    s.record(&obs("lat", 500.0, &[]));
    s.record(&obs("reqs", 1.0, &[("status", "503")]));
    s.advance_to(4);
    let v = evaluate(&rules(), &s.overall_summary(), &s.phase_summaries(), s.current_second());
    assert_eq!(v.phases[0].pass, None);
    assert_eq!(v.phases[1].pass, Some(true));
    assert_eq!(v.phases[2].pass, Some(false));
    assert_eq!(v.ceiling.as_deref(), Some("c=5"));
    assert_eq!(v.first_failure.as_deref(), Some("c=50"));
}

#[test]
fn gauge_without_samples_is_not_judged() {
    let mut s = MetricStore::new(vec![MetricSpec::gauge("queue", "")]);
    s.begin_phase("idle");
    s.advance_to(2);
    let rules = vec![rule("queue", Stat::Slope, &[], None, bound(0.0), &[])];
    let v = evaluate(&rules, &s.overall_summary(), &s.phase_summaries(), 2);
    assert_eq!(v.phases[0].pass, None);
    assert_eq!(v.overall.unwrap().pass, None);
}

#[test]
fn no_thresholds_means_no_verdicts() {
    let s = MetricStore::new(vec![]);
    let v = evaluate(&[], &s.overall_summary(), &s.phase_summaries(), 0);
    assert!(v.overall.is_none());
}

#[test]
fn rules_in_words() {
    assert_eq!(rules()[0].describe(), "lat.p95 ≤ 100");
    assert_eq!(rules()[1].describe(), "reqs{status=200}.share ≥ 0.9");
    let both = rule("lat", Stat::Mean, &[("a", "1"), ("b", "2")], bound(1.5), bound(2.0), &[]);
    assert_eq!(both.describe(), "lat{a=1,b=2}.mean 1.5 ≤ · ≤ 2");
    assert_eq!(rule("c", Stat::Rate, &[], None, None, &[]).describe(), "c.rate (no bound)");
}

fn filled_store() -> MetricStore {
    let mut s = MetricStore::new(vec![
        MetricSpec::histogram("lat", "ms", ""),
        MetricSpec::counter("reqs", ""),
        MetricSpec::gauge("queue", ""),
    ]);
    s.begin_phase("load");
    s.record(&obs("lat", 1.0, &[]));
    s.record(&obs("lat", 2.0, &[]));
    s.record(&obs("reqs", 6.0, &[("status", "200")]));
    s.record(&obs("reqs", 2.0, &[("status", "503")]));
    s.record(&obs("queue", 1.0, &[]));
    s.advance_to(4);
    s.record(&obs("queue", 9.0, &[]));
    s
}

fn value(stat: Stat, metric: &str, labels: &[(&str, &str)]) -> Option<f64> {
    let s = filled_store();
    value_of(&rule(metric, stat, labels, None, None, &[]), &s.phase_summaries()[0], s.current_second()).map(val)
}

#[test]
fn every_statistic_has_its_value() {
    assert_eq!(value(Stat::Count, "lat", &[]), Some(2.0));
    assert_eq!(value(Stat::P50, "lat", &[]), Some(1.0));
    assert_eq!(value(Stat::P90, "lat", &[]), Some(2.0));
    assert_eq!(value(Stat::P95, "lat", &[]), Some(2.0));
    assert_eq!(value(Stat::P99, "lat", &[]), Some(2.0));
    assert_eq!(value(Stat::Max, "lat", &[]), Some(2.0));
    assert_eq!(value(Stat::Mean, "lat", &[]), Some(1.5));
    assert_eq!(value(Stat::Total, "reqs", &[]), Some(8.0));
    assert_eq!(value(Stat::Rate, "reqs", &[]), Some(2.0));
    assert_eq!(value(Stat::Share, "reqs", &[("status", "200")]), Some(0.75));
    assert_eq!(value(Stat::Share, "reqs", &[("status", "404")]), Some(0.0));
    assert_eq!(value(Stat::Last, "queue", &[]), Some(9.0));
    assert_eq!(value(Stat::Slope, "queue", &[]), Some(2.0));
    assert_eq!(value(Stat::Max, "queue", &[]), Some(9.0));
    assert_eq!(value(Stat::Mean, "queue", &[]), Some(5.0));
    assert_eq!(value(Stat::P95, "nope", &[]), None);
    assert_eq!(value(Stat::Total, "lat", &[]), None);
    assert_eq!(value(Stat::Last, "reqs", &[]), None);
}

#[test]
fn bounds_are_inclusive() {
    let s = filled_store();
    let p = &s.phase_summaries()[0];
    let judged = |min: Option<Bound>, max: Option<Bound>| judge(&rule("reqs", Stat::Total, &[], min, max, &[]), p, 4).unwrap().pass;
    assert!(judged(bound(8.0), None));
    assert!(judged(None, bound(8.0)));
    assert!(judged(bound(8.0), bound(8.0)));
    assert!(!judged(bound(8.5), None));
    assert!(!judged(None, bound(7.5)));
    assert!(judged(None, None));
}

#[test]
fn a_rule_without_data_holds_and_is_not_judged() {
    let s = filled_store();
    let p = &s.phase_summaries()[0];
    let c = judge(&rule("nope", Stat::P95, &[], None, bound(0.0), &[]), p, 4).unwrap();
    assert!(c.pass && c.value.is_none());
    assert!(judge(&rule("reqs", Stat::Total, &[], None, None, &["lo"]), p, 4).is_none());
    assert!(judge(&rule("reqs", Stat::Total, &[], None, None, &["oa"]), p, 4).is_some());
}

#[test]
fn the_first_failure_is_the_first_and_the_ceiling_the_last() {
    let mut s = MetricStore::new(vec![MetricSpec::counter("errors", "")]);
    for (name, errors) in [("a", 1.0), ("b", 0.0), ("c", 3.0), ("d", 0.0), ("e", 2.0)] {
        s.begin_phase(name);
        s.record(&obs("errors", errors, &[]));
        s.advance_to(s.current_second() + 1);
    }
    let rules = vec![rule("errors", Stat::Total, &[], None, bound(0.0), &[])];
    let v = evaluate(&rules, &s.overall_summary(), &s.phase_summaries(), s.current_second());
    assert_eq!(v.first_failure.as_deref(), Some("a"));
    assert_eq!(v.ceiling.as_deref(), Some("d"));
    assert_eq!(v.overall.unwrap().pass, Some(false));
}

#[test]
fn a_share_is_that_of_its_own_labels() {
    let mut s = MetricStore::new(vec![MetricSpec::counter("reqs", "")]);
    s.record(&obs("reqs", 1.0, &[("a", "1 b=2")]));
    s.record(&obs("reqs", 3.0, &[("a", "1"), ("b", "2")]));
    let p = s.overall_summary();
    let one = rule("reqs", Stat::Share, &[("a", "1 b=2")], None, None, &[]);
    let two = rule("reqs", Stat::Share, &[("a", "1"), ("b", "2")], None, None, &[]);
    assert_eq!(value_of(&one, &p, 1).map(val), Some(0.25));
    assert_eq!(value_of(&two, &p, 1).map(val), Some(0.75));
}

#[test]
fn a_run_of_one_phase_is_judged_as_the_phase() {
    let mut s = MetricStore::new(vec![
        MetricSpec::histogram("lat", "ms", ""),
        MetricSpec::counter("reqs", ""),
        MetricSpec::gauge("queue", ""),
    ]);
    s.begin_phase("load");
    for i in 0..10u64 {
        s.record(&obs("lat", 1.5 * i as f64, &[]));
        s.record(&obs("reqs", 2.0, &[("ok", "y")]));
        s.record(&obs("queue", 5.0, &[]));
        s.record(&obs("queue", i as f64, &[]));
        s.advance_to(2 * i);
    }
    let now = s.current_second();
    let whole = s.overall_summary();
    let phase = &s.phase_summaries()[0];
    for stat in [
        Stat::Total, Stat::Rate, Stat::Share, Stat::Last, Stat::Slope, Stat::P50, Stat::P90, Stat::P95, Stat::P99, Stat::Max,
        Stat::Mean, Stat::Count,
    ] {
        for metric in ["lat", "reqs", "queue"] {
            let t = rule(metric, stat, &[("ok", "y")], None, None, &[]);
            assert_eq!(value_of(&t, &whole, now), value_of(&t, phase, now));
        }
    }
}
