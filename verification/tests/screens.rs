//! What the screens show.

use serde_json::Value;
use tutui::app::App;
use tutui::cli::{check_runs, check_summaries, finish, scenario_line, Choice, Picker};
use tutui::config::{LoadedRun, RunConfig};
use tutui::doc::{Doc, Piece};
use tutui::number::Number;
use tutui::protocol::{Event, LogLevel, MetricSpec, Observation};
use tutui::runner::{close, Key};
use tutui::scenario::labels;
use tutui::sorted::SortedMap;
use tutui::time::Stamp;
use tutui::ui::chart::{live, window_start, LivePane};
use tutui::ui::dashboard::{header, help, log_height, log_pane, metric_list, status_span};
use tutui::ui::phases::phase_table;
use tutui::ui::picker::{entries, hint};
use tutui::ui::{Color, Span, Style};
use tutui::verdict::{Bound, Stat, Threshold};

fn num(v: f64) -> Number {
    Number::from_bits(v.to_bits())
}

fn val(n: Number) -> f64 {
    f64::from_bits(n.to_bits())
}

fn written(d: &Doc) -> String {
    let mut out = String::new();
    for p in &d.pieces {
        match p {
            Piece::Text(s) => out.push_str(s),
            Piece::Fixed(v, decimals) => out.push_str(&format!("{:.*}", *decimals as usize, val(*v))),
            Piece::Plain(v) => out.push_str(&format!("{}", val(*v))),
            Piece::Json(v) => out.push_str(&Value::from(val(*v)).to_string()),
        }
    }
    out
}

fn line(spans: &[Span]) -> String {
    spans.iter().map(|s| written(&s.text)).collect::<Vec<_>>().join("|")
}

fn obs(metric: &str, value: f64) -> Event {
    Event::Observe(Observation { metric: metric.to_string(), value: num(value), labels: SortedMap::new() })
}

fn counted(metric: &str, value: f64, key: &str, of: &str) -> Event {
    Event::Observe(Observation { metric: metric.to_string(), value: num(value), labels: labels([(key, of.to_string())]) })
}

fn sample() -> App {
    let mut app = App::new(
        "Ramp",
        "checkout",
        vec![
            MetricSpec::counter("reqs", "requests"),
            MetricSpec::gauge("queue", "depth"),
            MetricSpec::histogram("lat", "ms", "latency"),
        ],
        3,
        vec![Threshold {
            metric: "reqs".to_string(),
            stat: Stat::Total,
            labels: SortedMap::new(),
            min: Some(Bound { at: num(2.0), text: "2".to_string() }),
            max: None,
            skip_phases: vec![],
        }],
        None,
        0,
    );
    app.apply(Event::Phase { name: "warm".to_string() }, 0);
    app.apply(counted("reqs", 3.0, "status", "200"), 100);
    app.apply(obs("lat", 10.0), 200);
    app.apply(obs("queue", 2.0), 1_000);
    app.apply(Event::Phase { name: "load".to_string() }, 2_000);
    app.apply(counted("reqs", 1.0, "status", "500"), 4_100);
    app.apply(Event::Log { level: LogLevel::Error, message: "ouch".to_string() }, 4_200);
    app.tick(5_000);
    app
}

#[test]
fn the_header_sums_the_run_up() {
    let app = sample();
    let spans = header(&app, 3_725_000);
    assert_eq!(
        line(&spans),
        " RUNNING |  |Ramp|  scenario checkout  phase |load|  elapsed 01:02:05  events 7|  | PASS | ceiling warm"
    );
    assert_eq!(spans[0].style, Style { fg: Some(Color::Black), bg: Some(Color::Green), bold: false });
    assert_eq!(spans[4].style.fg, Some(Color::Magenta));
    assert_eq!(spans[7].style.bg, Some(Color::Green));
    assert!(written(&help(&app).text).starts_with("s stop scenario   q quit"));
}

#[test]
fn a_plain_header_has_no_verdict() {
    let mut app = App::new("r", "s", vec![], 120, vec![], None, 0);
    assert_eq!(line(&header(&app, 59_000)), " STARTING |  |r|  scenario s  phase |-|  elapsed 00:00:59  events 0");
    app.apply(Event::Error { message: "x".to_string() }, 0);
    assert_eq!(written(&status_span(&app.status).text), " FAILED ");
    assert_eq!(status_span(&app.status).style.bg, Some(Color::Red));
    assert_eq!(written(&help(&app).text), "q quit   ↑↓ metric   tab live/phases   l logs");
}

#[test]
fn the_list_marks_the_selected_metric() {
    let mut app = sample();
    app.select_next();
    let list = metric_list(&app);
    let texts: Vec<(String, String)> = list.iter().map(|e| (written(&e.title.text), written(&e.detail.text))).collect();
    assert_eq!(
        texts,
        vec![
            ("Σ reqs".to_string(), "   4.00 total  0.8/s".to_string()),
            ("≈ queue".to_string(), "   2.00".to_string()),
            ("⧗ lat".to_string(), "   n=1  p50 10.01ms  p95 10.01ms".to_string()),
        ]
    );
    assert_eq!(list[1].title.style, Style { fg: Some(Color::Black), bg: Some(Color::White), bold: true });
    assert_eq!(list[1].detail.style, Style { fg: Some(Color::Black), bg: Some(Color::White), bold: false });
    assert_eq!(list[0].detail.style.fg, Some(Color::Gray));
}

#[test]
fn the_chart_of_a_counter() {
    let app = sample();
    assert_eq!(window_start(&app), 2);
    let LivePane::Metric { chart, detail } = live(&app) else {
        panic!()
    };
    assert_eq!(chart.title, " reqs  requests ");
    assert_eq!(chart.lines.len(), 1);
    assert_eq!((chart.lines[0].name.as_str(), chart.lines[0].color), ("per second", Color::Green));
    let points: Vec<(f64, f64)> = chart.lines[0].points.iter().map(|p| (val(p.0), val(p.1))).collect();
    assert_eq!(points, vec![(2.0, 0.0), (3.0, 0.0), (4.0, 1.0), (5.0, 0.0)]);
    assert_eq!((val(chart.from), val(chart.to), val(chart.top)), (2.0, 5.0, 1.1));
    assert_eq!(chart.second_labels.iter().map(written).collect::<Vec<_>>(), vec!["2s", "4s", "5s"]);
    assert_eq!(chart.value_labels.iter().map(written).collect::<Vec<_>>(), vec!["0", "0.55", "1.10 /s"]);
    let rows: Vec<(String, String)> = detail.iter().map(|r| (r.label.clone(), written(&r.value))).collect();
    assert_eq!(
        rows,
        vec![
            ("total".to_string(), "4.00".to_string()),
            ("status=200".to_string(), "3.00".to_string()),
            ("status=500".to_string(), "1.00".to_string()),
        ]
    );
}

#[test]
fn the_charts_of_a_gauge_and_a_histogram() {
    let mut app = sample();
    app.select_next();
    let LivePane::Metric { chart, detail } = live(&app) else {
        panic!()
    };
    assert_eq!(chart.lines[0].name, "value");
    assert_eq!(chart.lines[0].points.len(), 4);
    assert_eq!(written(&chart.value_labels[2]), "2.20 ");
    assert_eq!((detail[0].label.as_str(), written(&detail[0].value)), ("last", "2.00".to_string()));
    app.select_next();
    let LivePane::Metric { chart, detail } = live(&app) else {
        panic!()
    };
    let names: Vec<(&str, Color)> = chart.lines.iter().map(|l| (l.name.as_str(), l.color)).collect();
    assert_eq!(names, vec![("p50", Color::Green), ("p95", Color::Yellow), ("p99", Color::Red)]);
    assert!(chart.lines.iter().all(|l| l.points.is_empty()));
    assert_eq!(val(chart.top), 1.0);
    assert_eq!(written(&chart.value_labels[2]), "1.00 ms");
    assert_eq!(
        written(&detail[0].value),
        "n=1  min 10.00  p50 10.01  p90 10.01  p95 10.01  p99 10.01  max 10.01  mean 10.00 ms"
    );
    app.chart_window_seconds = 60;
    let LivePane::Metric { chart, .. } = live(&app) else {
        panic!()
    };
    assert_eq!(chart.lines[2].points.iter().map(|p| (val(p.0), val(p.1))).collect::<Vec<_>>(), vec![(0.0, 10.007)]);
}

#[test]
fn no_metric_no_chart() {
    let app = App::new("r", "s", vec![], 120, vec![], None, 0);
    assert!(matches!(live(&app), LivePane::Waiting));
    assert!(metric_list(&app).is_empty());
    assert!(phase_table(&app).is_none());
}

#[test]
fn the_table_of_phases() {
    let app = sample();
    let t = phase_table(&app).unwrap();
    assert_eq!(t.header, vec!["phase", "dur", "reqs", "lat p50/p95/p99"]);
    let rows: Vec<Vec<String>> = t.rows.iter().map(|r| r.cells.iter().map(written).collect()).collect();
    assert_eq!(
        rows,
        vec![
            vec!["✓ warm", "2s", "3.00 200:3", "10.01/10.01/10.01"],
            vec!["✗ load", "3s", "1.00 500:1", "-"],
        ]
    );
    assert_eq!(t.rows[0].style.fg, Some(Color::Green));
    assert_eq!(t.rows[1].style.fg, Some(Color::Red));
}

#[test]
fn the_log_shows_its_last_lines() {
    let app = sample();
    let lines = log_pane(&app, 4);
    assert_eq!(lines.len(), 2);
    assert_eq!(line(&lines[0]), "    2s |phase: load");
    assert_eq!(line(&lines[1]), "    4s |ouch");
    assert_eq!(lines[1][1].style.fg, Some(Color::Red));
    assert_eq!(log_pane(&app, 0).len(), 1);
    assert_eq!(log_pane(&app, 100).len(), 3);
    assert_eq!(log_height(true, 40), 10);
    assert_eq!(log_height(true, 8), 3);
    assert_eq!(log_height(false, 40), 3);
}

fn loaded(name: &str, description: Option<&str>) -> LoadedRun {
    LoadedRun {
        config: RunConfig {
            name: name.to_string(),
            description: description.map(|s| s.to_string()),
            scenario: "process".to_string(),
            params: Value::Null,
            chart_window_seconds: 120,
            thresholds: vec![],
        },
        path: format!("runs/{name}.json"),
    }
}

#[test]
fn the_list_of_configs() {
    let runs = vec![loaded("a", Some("first")), loaded("b", None)];
    let list = entries(&runs, 1);
    assert_eq!(written(&list[0].title.text), " a  [process]");
    assert_eq!(written(&list[0].detail.text), "   first  (runs/a.json)");
    assert_eq!(written(&list[1].detail.text), "     (runs/b.json)");
    assert_eq!(list[1].title.style.bg, Some(Color::White));
    assert_eq!(list[0].title.style.bg, None);
    assert_eq!(written(&hint(&None).text), "enter run   ↑↓ select   q quit");
    assert_eq!(hint(&Some("no".to_string())).style.fg, Some(Color::Red));
}

#[test]
fn choosing_a_config() {
    let mut p = Picker::new(3);
    assert_eq!(p.press(Key::Up), Choice::Stay);
    assert_eq!(p.selected, 2);
    p.press(Key::Char('j'));
    assert_eq!(p.selected, 0);
    p.press(Key::Down);
    p.press(Key::Char('k'));
    assert_eq!(p.selected, 0);
    assert_eq!(p.press(Key::Enter), Choice::Run);
    assert_eq!(p.press(Key::Tab), Choice::Stay);
    p.ran(Err("broken".to_string()));
    assert_eq!(p.error.as_deref(), Some("broken"));
    assert!(p.last_text.is_none());
    p.ran(Ok(Doc::of("done")));
    assert!(p.error.is_none());
    assert_eq!(written(p.last_text.as_ref().unwrap()), "done");
    assert_eq!(p.press(Key::Escape), Choice::Leave);
    assert_eq!(p.press(Key::Char('q')), Choice::Leave);
}

#[test]
fn what_is_printed_at_the_end() {
    let app = App::new("r", "s", vec![], 120, vec![], None, 0);
    let at = Stamp { seconds: 0, nanos: 0, offset: 0 };
    let o = close(&app, at, 0, "a.json".to_string(), "a.md".to_string(), "a.jsonl".to_string(), false);
    assert_eq!(
        written(&finish(&o)),
        "run r (s) — Starting — 0s\n\nsummary:  a.json\nmarkdown: a.md\nevents:   a.jsonl\n"
    );
    assert_eq!(scenario_line("process", "Runs"), format!("{:<28} {}", "process", "Runs"));
    assert_eq!(check_summaries(0).err().unwrap(), "pass at least one *.summary.json");
    assert!(check_summaries(1).is_ok());
    assert_eq!(check_runs(0, "runs").err().unwrap(), "no run configs found in runs");
    assert!(check_runs(2, "runs").is_ok());
}

#[test]
fn the_rate_before_the_first_second_is_an_empty_sum() {
    let app = App::new("r", "s", vec![MetricSpec::counter("reqs", "")], 120, vec![], None, 0);
    let nothing: Vec<f64> = Vec::new();
    let sum: f64 = nothing.iter().sum();
    assert_eq!(written(&metric_list(&app)[0].detail.text), format!("   0.00 total  {sum:.1}/s"));
}
