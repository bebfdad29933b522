//! Summaries and their renderings.

use serde_json::Value;
use tutui::app::App;
use tutui::doc::{Doc, Piece};
use tutui::markdown::{md_hist, md_num, render_markdown, render_markdown_many, render_markdown_with};
use tutui::number::Number;
use tutui::protocol::{Event, Labels, MetricSpec, Observation};
use tutui::render::{is_in_time, render_text, verdict_line};
use tutui::report::{describe_status, summarise, summarise_from, RunSummary};
use tutui::sorted::SortedMap;
use tutui::time::Stamp;
use tutui::verdict::{Bound, Stat, Threshold};

fn num(v: f64) -> Number {
    Number::from_bits(v.to_bits())
}

fn val(n: Number) -> f64 {
    f64::from_bits(n.to_bits())
}

fn written(d: &Doc) -> String {
    let mut out = String::new();
    for p in &d.pieces {
        match p {
            Piece::Text(s) => out.push_str(s),
            Piece::Fixed(v, decimals) => out.push_str(&format!("{:.*}", *decimals as usize, val(*v))),
            Piece::Plain(v) => out.push_str(&format!("{}", val(*v))),
            Piece::Json(v) => out.push_str(&Value::from(val(*v)).to_string()),
        }
    }
    out
}

fn label(key: &str, value: &str) -> Labels {
    let mut l = SortedMap::new();
    l.put(key.to_string(), value.to_string());
    l
}

fn obs(metric: &str, value: f64) -> Event {
    Event::Observe(Observation { metric: metric.to_string(), value: num(value), labels: SortedMap::new() })
}

fn counted(metric: &str, value: f64, key: &str, of: &str) -> Event {
    Event::Observe(Observation { metric: metric.to_string(), value: num(value), labels: label(key, of) })
}

fn threshold(metric: &str, stat: Stat, min: Option<f64>, max: Option<f64>, skip: &[&str]) -> Threshold {
    let bound = |v: f64| Bound { at: num(v), text: format!("{v}") };
    Threshold {
        metric: metric.to_string(),
        stat,
        labels: SortedMap::new(),
        min: min.map(bound),
        max: max.map(bound),
        skip_phases: skip.iter().map(|s| s.to_string()).collect(),
    }
}

fn stamp() -> Stamp {
    Stamp { seconds: 0, nanos: 0, offset: 0 }
}

fn sample_app() -> App {
    let mut app = App::new(
        "Ramp",
        "checkout",
        vec![
            MetricSpec::counter("reqs", "requests"),
            MetricSpec::gauge("queue", "depth"),
            MetricSpec::histogram("lat", "ms", "latency"),
        ],
        120,
        vec![
            threshold("lat", Stat::P95, None, Some(100.0), &["warm"]),
            threshold("reqs", Stat::Total, Some(1.5), None, &[]),
        ],
        Some("step by step".to_string()),
        0,
    );
    app.apply(Event::Phase { name: "warm".to_string() }, 0);
    app.apply(counted("reqs", 3.0, "status", "200"), 100);
    app.apply(obs("lat", 10.0), 200);
    app.apply(Event::Phase { name: "load".to_string() }, 2_000);
    app.apply(counted("reqs", 1.0, "status", "500"), 2_100);
    app.apply(obs("lat", 500.0), 2_200);
    app.apply(obs("queue", 4.0), 2_300);
    app.apply(obs("nope", 1.0), 2_400);
    app
}

fn sample() -> RunSummary {
    let mut app = sample_app();
    let mut map = serde_json::Map::new();
    map.insert("ok".to_string(), Value::from(1));
    app.apply(Event::Done { summary: Value::Object(map) }, 4_000);
    summarise(&app, stamp(), 4_000)
}

const TEXT: &str = "run Ramp (checkout) — Done — 4s
verdict FAIL  ceiling = warm  first failure = load
  ✗ [load] lat.p95 ≤ 100  actual 500.2
  ✗ [load] reqs.total ≥ 1.5  actual 1.00
  lat: n=2 p50 10.01ms p90 500.2ms p95 500.2ms p99 500.2ms max 500.2ms mean 255.1ms
  queue: last 4.00  max 4.00
  reqs: total 4.00  mean 1.00/s
      status=200: 3.0
      status=500: 1.0

phases:
  [warm] 2s
      reqs: 3.00  status=200:3
      lat: n=1 p50 10.01 p95 10.01 p99 10.01 max 10.01
  [load] 2s+
      reqs: 1.00  status=500:1
      lat: n=1 p50 500.2 p95 500.2 p99 500.2 max 500.2

undeclared metrics ignored: {\"nope\": 1}
";

const BODY: &str = "## Ramp

step by step

| | |
|---|---|
| scenario | `checkout` |
| started | 1970-01-01T00:00:00+00:00 |
| duration | 4s |
| status | Done |
| verdict | **❌ FAIL** |
| ceiling | **warm** |
| first failure | load |

### Thresholds

| rule | overall | warm | load | 
|---|---|---|---|
| `lat.p95 ≤ 100` | ❌ 500.2 | skip | ❌ 500.2 | 
| `reqs.total ≥ 1.5` | ✅ 4.00 | ✅ 3.00 | ❌ 1.00 | 

### Phases

| phase | duration | reqs | lat | queue (max / slope) | 
|---|---|---|---|---|
| warm | 2s | 3.00 (200:3.00) | n=1 · p50 10.01ms · p95 10.01ms · p99 10.01ms · max 10.01ms | – | 
| load | 2s | 1.00 (500:1.00) | n=1 · p50 500.2ms · p95 500.2ms · p99 500.2ms · max 500.2ms | 4.00 / 0.00 | 

### Metrics (whole run)

| metric | kind | value |
|---|---|---|
| `lat` | histogram | n=2 · p50 10.01ms · p95 500.2ms · p99 500.2ms · max 500.2ms |
| `queue` | gauge | last 4.00 · max 4.00 |
| `reqs` | counter | total 4.00 · mean 1.00/s · status=200: 3.0, status=500: 1.0 |

";

const DETAILS: &str = "<details><summary>scenario summary</summary>

```json
{
  \"ok\": 1
}
```
</details>

";

#[test]
fn the_text_report() {
    assert_eq!(written(&render_text(&sample())), TEXT);
}

#[test]
fn the_markdown_report() {
    assert_eq!(written(&render_markdown(&sample())), format!("{BODY}{DETAILS}"));
}

#[test]
fn the_markdown_report_takes_the_laid_out_summary() {
    let given = written(&render_markdown_with(&sample(), "PRETTY"));
    assert_eq!(given, format!("{BODY}<details><summary>scenario summary</summary>\n\n```json\nPRETTY\n```\n</details>\n\n"));
}

#[test]
fn one_run_has_no_overview() {
    let one = written(&render_markdown_many(&[sample()]));
    assert_eq!(one, format!("# Load test report\n\n{BODY}{DETAILS}"));
    assert_eq!(written(&render_markdown_many(&[])), "# Load test report\n\n");
}

#[test]
fn several_runs_have_an_overview() {
    let mut plain = App::new("Plain", "s", vec![], 120, vec![], None, 0);
    plain.apply(Event::Error { message: "bad \"luck\"".to_string() }, 10);
    let bare = summarise(&plain, stamp(), 10);
    let both = written(&render_markdown_many(&[sample(), bare]));
    let overview = "# Load test report\n\n| run | status | verdict | ceiling |\n|---|---|---|---|\n| Ramp | Done | ❌ | warm |\n| Plain | Failed(\"bad \\\"luck\\\"\") | – | – |\n\n";
    assert!(both.starts_with(&format!("{overview}## Ramp\n")));
    assert!(both.ends_with(
        "## Plain\n\n| | |\n|---|---|\n| scenario | `s` |\n| started | 1970-01-01T00:00:00+00:00 |\n| duration | 0s |\n| status | Failed(\"bad \\\"luck\\\"\") |\n\n### Metrics (whole run)\n\n| metric | kind | value |\n|---|---|---|\n\n"
    ));
}

#[test]
fn a_failed_run_has_not_passed() {
    let mut app = App::new(
        "r",
        "s",
        vec![MetricSpec::counter("reqs", "")],
        120,
        vec![threshold("reqs", Stat::Total, Some(1.0), None, &[])],
        None,
        0,
    );
    app.apply(obs("reqs", 5.0), 0);
    assert_eq!(app.verdicts().overall.unwrap().pass, Some(true));
    app.apply(Event::Error { message: "x".to_string() }, 0);
    let s = summarise(&app, stamp(), 0);
    assert_eq!(s.verdicts.overall.as_ref().unwrap().pass, Some(false));
    assert_eq!(verdict_line(&s.verdicts).as_deref(), Some("verdict FAIL"));
    assert_eq!(describe_status(&app.status), "Failed(\"x\")");
}

#[test]
fn the_summary_of_the_scenario_is_copied() {
    let mut app = sample_app();
    app.apply(Event::Done { summary: Value::from(vec![1, 2]) }, 4_000);
    let s = summarise_from(&app, "then".to_string(), 4_000);
    assert_eq!(s.scenario_summary, Value::from(vec![1, 2]));
    assert_eq!(s.started_at, "then");
    assert_eq!(s.status, "Done");
    assert_eq!(s.metrics.len(), 3);
    assert_eq!(*s.unknown_metrics.get("nope").unwrap(), 1);
}

#[test]
fn numbers_are_shown_by_size() {
    assert_eq!(written(&md_num(None)), "–");
    assert_eq!(written(&md_num(Some(num(0.005)))), "0.01");
    assert_eq!(written(&md_num(Some(num(99.994)))), "99.99");
    assert_eq!(written(&md_num(Some(num(100.0)))), "100.0");
    assert_eq!(written(&md_num(Some(num(-9999.96)))), "-10000.0");
    assert_eq!(written(&md_num(Some(num(10_000.4)))), "10000");
    assert_eq!(written(&md_num(Some(num(f64::NAN)))), "-");
    assert_eq!(written(&md_num(Some(num(f64::INFINITY)))), "-");
    let s = sample();
    let p = s.metrics.get("lat").unwrap().percentiles.unwrap();
    assert_eq!(written(&md_hist(&p, "µs")), "n=2 · p50 10.01µs · p95 500.2µs · p99 500.2µs · max 500.2µs");
}

#[test]
fn a_summary_out_of_time_is_noticed() {
    let mut s = sample();
    assert!(is_in_time(&s));
    s.phases[0].end_second = None;
    assert!(is_in_time(&s));
    s.phases[0].start_second = 5;
    s.phases[0].end_second = Some(4);
    assert!(!is_in_time(&s));
}
