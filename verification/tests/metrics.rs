//! Stores, phases and gauges.

use tutui::hist::Hist;
use tutui::metrics::{from_hist_units, to_hist_units, Aggregate, GaugeStats, Metric, Percentiles};
use tutui::number::Number;
use tutui::protocol::{label_key, MetricKind, MetricSpec, Observation};
use tutui::scenario::labels;
use tutui::sorted::SortedMap;
use tutui::store::MetricStore;

fn num(v: f64) -> Number {
    Number::from_bits(v.to_bits())
}

fn val(n: Number) -> f64 {
    f64::from_bits(n.to_bits())
}

fn obs(metric: &str, value: f64) -> Observation {
    Observation { metric: metric.to_string(), value: num(value), labels: SortedMap::new() }
}

fn labelled(metric: &str, value: f64, key: &str, label: &str) -> Observation {
    Observation { metric: metric.to_string(), value: num(value), labels: labels([(key, label.to_string())]) }
}

#[test]
fn counter_buckets_per_second() {
    let mut s = MetricStore::new(vec![MetricSpec::counter("reqs", "")]);
    s.record(&obs("reqs", 1.0));
    s.record(&obs("reqs", 1.0));
    s.advance_to(1);
    s.record(&obs("reqs", 1.0));
    s.advance_to(3);
    let Aggregate::Counter { total, per_second, .. } = &s.get("reqs").unwrap().aggregate else {
        panic!()
    };
    assert_eq!(val(*total), 3.0);
    let buckets: Vec<f64> = per_second.iter().map(|v| val(*v)).collect();
    assert_eq!(buckets, vec![2.0, 1.0, 0.0, 0.0]);
}

#[test]
fn histogram_percentiles_and_windows() {
    let mut s = MetricStore::new(vec![MetricSpec::histogram("lat", "ms", "")]);
    for v in [10.0, 20.0, 30.0, 40.0, 100.0] {
        s.record(&obs("lat", v));
    }
    s.advance_to(1);
    let m = s.get("lat").unwrap();
    let p = m.percentiles().unwrap();
    assert_eq!(p.count, 5);
    assert!((val(p.max) - 100.0).abs() < 0.2);
    assert!((val(p.p50) - 30.0).abs() < 0.2);
    let Aggregate::Histogram { windows, .. } = &m.aggregate else {
        panic!()
    };
    assert_eq!(windows.len(), 1);
    assert_eq!(windows[0].count, 5);
}

#[test]
fn phases_partition_counters() {
    let mut s = MetricStore::new(vec![MetricSpec::counter("reqs", "")]);
    s.begin_phase("a");
    s.record(&obs("reqs", 1.0));
    s.advance_to(2);
    s.begin_phase("b");
    s.record(&obs("reqs", 1.0));
    s.record(&obs("reqs", 1.0));
    let ps = s.phase_summaries();
    assert_eq!(val(*ps[0].counters.get("reqs").unwrap()), 1.0);
    assert_eq!(ps[0].end_second, Some(2));
    assert_eq!(val(*ps[1].counters.get("reqs").unwrap()), 2.0);
}

#[test]
fn gauge_slope_is_units_per_second() {
    let g = GaugeStats::of(&[(0, num(10.0)), (1, num(20.0)), (2, num(30.0)), (3, num(40.0))]);
    assert!((val(g.slope) - 10.0).abs() < 1e-9);
    assert_eq!(val(g.last), 40.0);
    assert_eq!(val(g.max), 40.0);
    let flat = GaugeStats::of(&[(5, num(3.0)), (6, num(3.0))]);
    assert_eq!(val(flat.slope), 0.0);
}

#[test]
fn unknown_metric_is_counted_not_dropped_silently() {
    let mut s = MetricStore::new(vec![]);
    s.record(&obs("nope", 1.0));
    assert_eq!(*s.unknown_metrics.get("nope").unwrap(), 1);
}

#[test]
fn every_report_of_an_unknown_metric_is_counted() {
    let mut s = MetricStore::new(vec![MetricSpec::counter("reqs", "")]);
    s.record(&obs("nope", 1.0));
    s.record(&obs("reqs", 1.0));
    s.record(&obs("nope", 1.0));
    s.record(&obs("other", 1.0));
    assert_eq!(*s.unknown().get("nope").unwrap(), 2);
    assert_eq!(*s.unknown().get("other").unwrap(), 1);
    assert!(s.unknown().get("reqs").is_none());
    assert!(s.get("nope").is_none());
}

#[test]
fn a_gauge_without_a_slope() {
    let none = GaugeStats::of(&[]);
    assert_eq!(none.samples, 0);
    assert_eq!(val(none.slope), 0.0);
    let one = GaugeStats::of(&[(3, num(7.0))]);
    assert_eq!(one.samples, 1);
    assert_eq!(val(one.last), 7.0);
    assert_eq!(val(one.slope), 0.0);
    let falling = GaugeStats::of(&[(0, num(4.0)), (2, num(0.0))]);
    assert_eq!(val(falling.slope), -2.0);
    assert_eq!(val(falling.max), 4.0);
    assert_eq!(val(falling.mean), 2.0);
}

#[test]
fn a_declared_metric_is_not_declared_anew() {
    let mut s = MetricStore::new(vec![MetricSpec::counter("reqs", "")]);
    s.record(&obs("reqs", 5.0));
    s.declare(MetricSpec::gauge("reqs", "another"));
    s.declare_all(&vec![MetricSpec::counter("reqs", ""), MetricSpec::gauge("queue", "")]);
    assert_eq!(s.names(), &vec!["reqs".to_string(), "queue".to_string()]);
    let m = s.get("reqs").unwrap();
    assert_eq!(m.spec.kind, MetricKind::Counter);
    let Aggregate::Counter { total, .. } = &m.aggregate else {
        panic!()
    };
    assert_eq!(val(*total), 5.0);
}

#[test]
fn names_keep_the_order_of_declaration() {
    let s = MetricStore::new(vec![
        MetricSpec::gauge("zeta", ""),
        MetricSpec::counter("alpha", ""),
        MetricSpec::histogram("mid", "ms", ""),
    ]);
    assert_eq!(s.names(), &vec!["zeta".to_string(), "alpha".to_string(), "mid".to_string()]);
}

#[test]
fn the_clock_does_not_go_back() {
    let mut s = MetricStore::new(vec![MetricSpec::counter("reqs", "")]);
    s.advance_to(5);
    s.advance_to(3);
    assert_eq!(s.current_second(), 5);
    let Aggregate::Counter { per_second, .. } = &s.get("reqs").unwrap().aggregate else {
        panic!()
    };
    assert_eq!(per_second.len(), 6);
}

#[test]
fn a_gauge_holds_its_last_value() {
    let mut s = MetricStore::new(vec![MetricSpec::gauge("queue", "")]);
    s.advance_to(1);
    s.record(&obs("queue", 4.0));
    s.record(&obs("queue", 7.0));
    s.advance_to(3);
    let Aggregate::Gauge { last, per_second, .. } = &s.get("queue").unwrap().aggregate else {
        panic!()
    };
    assert_eq!(val(*last), 7.0);
    let buckets: Vec<Option<f64>> = per_second.iter().map(|v| v.map(val)).collect();
    assert_eq!(buckets, vec![None, Some(7.0), Some(7.0), Some(7.0)]);
}

#[test]
fn an_empty_second_has_no_window() {
    let mut s = MetricStore::new(vec![MetricSpec::histogram("lat", "ms", "")]);
    s.record(&obs("lat", 2.0));
    s.advance_to(4);
    s.record(&obs("lat", 3.0));
    s.advance_to(5);
    let Aggregate::Histogram { windows, .. } = &s.get("lat").unwrap().aggregate else {
        panic!()
    };
    let seconds: Vec<u64> = windows.iter().map(|w| w.second).collect();
    assert_eq!(seconds, vec![0, 4]);
    assert_eq!(val(windows[0].p50), 2.0);
    assert_eq!(val(windows[1].p99), 3.001);
}

#[test]
fn labels_break_counters_down() {
    let mut s = MetricStore::new(vec![MetricSpec::counter("reqs", "")]);
    s.begin_phase("load");
    s.record(&labelled("reqs", 2.0, "status", "200"));
    s.record(&labelled("reqs", 3.0, "status", "200"));
    s.record(&labelled("reqs", 1.0, "status", "503"));
    s.record(&obs("reqs", 10.0));
    let Aggregate::Counter { total, by_label, .. } = &s.get("reqs").unwrap().aggregate else {
        panic!()
    };
    assert_eq!(val(*total), 16.0);
    assert_eq!(by_label.len(), 2);
    assert_eq!(val(*by_label.get("status=200").unwrap()), 5.0);
    assert_eq!(val(*by_label.get("status=503").unwrap()), 1.0);
    let p = &s.phase_summaries()[0];
    assert_eq!(val(*p.counter_labels.get("reqs").unwrap().get("status=200").unwrap()), 5.0);
}

#[test]
fn label_keys_are_in_name_order() {
    let l = labels([("zone", "b".to_string()), ("code", "1".to_string()), ("zone", "a".to_string())]);
    assert_eq!(label_key(&l), Some("code=1 zone=a".to_string()));
    assert_eq!(label_key(&labels([])), None);
}

#[test]
fn each_label_set_has_a_row_of_its_own() {
    let one = labels([("a", "1 b=2".to_string())]);
    let two = labels([("a", "1".to_string()), ("b", "2".to_string())]);
    assert_eq!(label_key(&one), Some("a:1%20b%3D2".to_string()));
    assert_eq!(label_key(&two), Some("a=1 b=2".to_string()));
    for (name, value, row) in [
        ("city", "New York", "city=New York"),
        ("path", "C:\\x 100%", "path=C:\\x 100%"),
        ("query", "a=b", "query=a=b"),
        ("query", "x=1 and more", "query=x=1 and more"),
        ("b", "1 a=2", "b=1 a=2"),
        ("two words", "1", "two words=1"),
        ("a=b", "c:d", "a%3Db:c%3Ad"),
        ("", "", "="),
    ] {
        assert_eq!(label_key(&labels([(name, value.to_string())])).as_deref(), Some(row));
    }
    let words = labels([("a", "1".to_string()), ("x y", "2".to_string())]);
    assert_eq!(label_key(&words), Some("a:1 x%20y:2".to_string()));
    let read = labels([("a", "1 x".to_string()), ("y", "2".to_string())]);
    assert_eq!(label_key(&read), Some("a=1 x y=2".to_string()));
    assert_eq!(label_key(&labels([])), None);
    let mut m = Metric::new(MetricSpec::counter("reqs", ""));
    m.record(num(1.0), &one);
    m.record(num(1.0), &two);
    let Aggregate::Counter { by_label, .. } = &m.aggregate else {
        panic!()
    };
    assert_eq!(by_label.len(), 2);
    assert_eq!(val(*by_label.value(0)), 1.0);
    assert_eq!(val(*by_label.value(1)), 1.0);
}

#[test]
fn micro_units_are_rounded_and_bounded() {
    assert_eq!(to_hist_units(num(0.0)), 1);
    assert_eq!(to_hist_units(num(-3.0)), 1);
    assert_eq!(to_hist_units(num(f64::NAN)), 1);
    assert_eq!(to_hist_units(num(0.0015)), 2);
    assert_eq!(to_hist_units(num(12.5)), 12_500);
    assert_eq!(to_hist_units(num(f64::INFINITY)), 3_600_000_000);
    assert_eq!(val(from_hist_units(12_500)), 12.5);
    for k in [1u64, 7, 1000, 3_600_000] {
        assert_eq!(to_hist_units(num(k as f64)), k * 1000);
        assert_eq!(val(from_hist_units(k * 1000)), k as f64);
    }
}

#[test]
fn percentiles_rise() {
    let mut s = MetricStore::new(vec![MetricSpec::histogram("lat", "ms", "")]);
    let mut x: u64 = 12345;
    for _ in 0..5000 {
        x = x.wrapping_mul(6364136223846793005).wrapping_add(1442695040888963407);
        s.record(&obs("lat", ((x >> 40) as f64) / 1000.0));
    }
    let p: Percentiles = s.get("lat").unwrap().percentiles().unwrap();
    assert_eq!(p.count, 5000);
    assert!(val(p.min) <= val(p.p50));
    assert!(val(p.p50) <= val(p.p90));
    assert!(val(p.p90) <= val(p.p95));
    assert!(val(p.p95) <= val(p.p99));
    assert!(val(p.p99) <= val(p.max));
    assert!(val(p.min) <= val(p.mean) && val(p.mean) <= val(p.max));
}

#[test]
fn percentiles_of_nothing_are_zero() {
    let s = MetricStore::new(vec![MetricSpec::histogram("lat", "ms", "")]);
    let p = s.get("lat").unwrap().percentiles().unwrap();
    assert_eq!(p.count, 0);
    assert_eq!(val(p.max), 0.0);
    assert!(MetricStore::new(vec![MetricSpec::counter("c", "")]).get("c").unwrap().percentiles().is_none());
}

#[test]
fn the_whole_run_is_one_summary() {
    let mut s = MetricStore::new(vec![
        MetricSpec::counter("reqs", ""),
        MetricSpec::histogram("lat", "ms", ""),
        MetricSpec::gauge("queue", ""),
    ]);
    s.record(&obs("reqs", 4.0));
    s.record(&obs("lat", 8.0));
    s.record(&obs("queue", 3.0));
    let p = s.overall_summary();
    assert_eq!(p.name, "overall");
    assert_eq!(p.start_second, 0);
    assert_eq!(p.end_second, Some(1));
    assert_eq!(val(*p.counters.get("reqs").unwrap()), 4.0);
    assert_eq!(p.histograms.get("lat").unwrap().count, 1);
    assert_eq!(p.gauges.get("queue").unwrap().samples, 1);
    s.advance_to(9);
    assert_eq!(s.overall_summary().end_second, Some(9));
    assert_eq!(s.overall_summary().gauges.get("queue").unwrap().samples, 1);
}

#[test]
fn the_whole_run_takes_in_every_sample_of_a_gauge() {
    let mut s = MetricStore::new(vec![MetricSpec::gauge("queue", "")]);
    s.begin_phase("load");
    s.record(&obs("queue", 5.0));
    s.record(&obs("queue", 3.0));
    s.advance_to(4);
    s.record(&obs("queue", 1.0));
    let whole = s.overall_summary();
    let g = whole.gauges.get("queue").unwrap();
    assert_eq!((g.samples, val(g.max), val(g.last), val(g.mean)), (3, 5.0, 1.0, 3.0));
    assert_eq!(g, s.phase_summaries()[0].gauges.get("queue").unwrap());
}

#[test]
fn phases_add_up_to_the_run() {
    let mut s = MetricStore::new(vec![MetricSpec::counter("reqs", "")]);
    s.record(&obs("reqs", 2.0));
    s.begin_phase("warm");
    s.record(&obs("reqs", 3.0));
    s.advance_to(2);
    s.record(&obs("reqs", 4.0));
    s.begin_phase("idle");
    s.begin_phase("load");
    s.record(&obs("reqs", 5.0));
    let counts: Vec<Option<f64>> =
        s.phase_summaries().iter().map(|p| p.counters.get("reqs").map(|n| val(*n))).collect();
    assert_eq!(counts, vec![Some(7.0), None, Some(5.0)]);
    assert_eq!(s.overall_summary().counters.get("reqs").map(|n| val(*n)), Some(14.0));
}

#[test]
fn every_second_has_its_bucket() {
    let mut s = MetricStore::new(vec![]);
    s.advance_to(3);
    s.declare(MetricSpec::gauge("queue", ""));
    s.declare(MetricSpec::histogram("lat", "ms", ""));
    s.advance_to(4);
    s.record(&obs("queue", 7.0));
    s.record(&obs("queue", 2.0));
    s.record(&obs("lat", 1.0));
    s.record(&obs("lat", 2.0));
    s.advance_to(6);
    s.record(&obs("lat", 3.0));
    s.advance_to(7);
    s.record(&obs("lat", 4.0));
    let Aggregate::Gauge { per_second, .. } = &s.get("queue").unwrap().aggregate else {
        panic!()
    };
    let shown: Vec<Option<f64>> = per_second.iter().map(|v| v.map(val)).collect();
    assert_eq!(shown, vec![None, Some(2.0), Some(2.0), Some(2.0), Some(2.0)]);
    let Aggregate::Histogram { windows, .. } = &s.get("lat").unwrap().aggregate else {
        panic!()
    };
    let points: Vec<(u64, u64)> = windows.iter().map(|w| (w.second, w.count)).collect();
    assert_eq!(points, vec![(4, 2), (6, 1)]);
}

#[test]
fn values_keep_three_decimals() {
    assert_eq!(to_hist_units(num(0.000999)), 1);
    let mut last = 0;
    for v in [0.001, 0.0014, 0.0016, 0.5, 1.0, 1.2345, 99.9994, 12_345.678_9, 3_599_999.999_6, 3_600_000.0] {
        let units = to_hist_units(num(v));
        assert!(units >= last);
        last = units;
        assert!((val(from_hist_units(units)) - v).abs() < 0.00051);
    }
}

#[test]
fn the_value_at_a_percentage() {
    let mut h = Hist::new();
    for v in 1..=100 {
        h.record(v);
    }
    // binary64 makes a little more than 55 of 0.55 times 100, and exactly 50 of 0.5 times 100
    assert_eq!(h.percentile(55), 56);
    assert_eq!(h.percentile(50), 50);
    assert_eq!(h.percentile(1), 1);
    assert_eq!(h.percentile(99), 99);
    assert_eq!(Hist::new().percentile(50), 0);
}

#[test]
fn the_mean_is_that_of_the_middles_of_the_buckets() {
    let mut h = Hist::new();
    h.record(3000);
    h.record(7);
    h.record(3001);
    assert_eq!(f64::from_bits(h.mean_bits()), 7.0 * 1.0 / 3.0 + 3001.0 * 2.0 / 3.0);
    assert_eq!(Hist::new().mean_bits(), 0);
}

#[test]
fn phases_follow_one_another() {
    let mut s = MetricStore::new(vec![]);
    assert_eq!(s.current_phase(), None);
    s.begin_phase("warm");
    s.advance_to(3);
    s.begin_phase("load");
    s.begin_phase("cool");
    s.advance_to(8);
    assert_eq!(s.current_phase(), Some("cool"));
    let ps = s.phase_summaries();
    let times: Vec<(u64, Option<u64>)> = ps.iter().map(|p| (p.start_second, p.end_second)).collect();
    assert_eq!(times, vec![(0, Some(3)), (3, Some(3)), (3, None)]);
    assert_eq!(ps[0].duration_seconds(8), 3);
    assert_eq!(ps[1].duration_seconds(8), 1);
    assert_eq!(ps[2].duration_seconds(8), 5);
}

#[test]
fn buckets_keep_three_digits() {
    for (v, low, high) in [
        (1u64, 1u64, 1u64),
        (2047, 2047, 2047),
        (2048, 2048, 2049),
        (3001, 3000, 3001),
        (4096, 4096, 4099),
        (500_000, 499_968, 500_223),
        (3_600_000_000, 3_598_712_832, 3_600_809_983),
    ] {
        let mut h = Hist::new();
        h.record(v);
        assert_eq!((h.min(), h.max(), h.percentile(50)), (low, high, high), "{v}");
        assert_eq!(h.len(), 1);
        h.reset();
        assert!(h.is_empty());
    }
}

#[test]
fn percentiles_split_the_hits() {
    let mut h = Hist::new();
    for v in 1..=200 {
        h.record(v);
    }
    assert_eq!((h.percentile(50), h.percentile(90), h.percentile(95), h.percentile(99)), (100, 180, 190, 198));
    assert_eq!(f64::from_bits(h.mean_bits()), 100.5);
}

#[test]
fn advancing_in_steps_is_advancing_at_once() {
    let fill = |steps: &[u64]| {
        let mut s = MetricStore::new(vec![
            MetricSpec::counter("reqs", ""),
            MetricSpec::gauge("queue", ""),
            MetricSpec::histogram("lat", "ms", ""),
        ]);
        s.record(&obs("reqs", 2.0));
        s.record(&obs("queue", 3.0));
        s.record(&obs("lat", 4.0));
        for second in steps {
            s.advance_to(*second);
        }
        format!("{s:?}")
    };
    assert_eq!(fill(&[1, 2, 7]), fill(&[7]));
    assert_eq!(fill(&[7, 3, 7]), fill(&[7]));
    assert_ne!(fill(&[6]), fill(&[7]));
}
