//! The dashboard's state, sessions, processes and replays.

use serde_json::Value;
use std::collections::VecDeque;
use tutui::app::{App, Pane, RunStatus, LOG_CAPACITY};
use tutui::config::{LoadedRun, RunConfig};
use tutui::json::with_base_dir;
use tutui::metrics::Aggregate;
use tutui::number::Number;
use tutui::paths::{directory, directory_of};
use tutui::process::{default_grace, kill_event, launch, spawn_context, stderr_event, Child, ExternalProcess, ProcessParams};
use tutui::protocol::{Control, Event, LogLevel, MetricSpec, Observation};
use tutui::replay::{due_ms, is_terminal, open_failed, schedule, wait_nanos, Player, Recorded};
use tutui::runner::{
    close, conclusion, event_line, events_file, hello, markdown_file, open_live, open_recording, open_replay, receive_headless, start, stem,
    stem_from, summary_file, Key, Session, Step,
};
use tutui::scenario::{labels, Recorder, Registry, ScenarioInfo};
use tutui::sorted::SortedMap;
use tutui::time::Stamp;

fn num(v: f64) -> Number {
    Number::from_bits(v.to_bits())
}

fn val(n: Number) -> f64 {
    f64::from_bits(n.to_bits())
}

fn obs(metric: &str, value: f64) -> Observation {
    Observation { metric: metric.to_string(), value: num(value), labels: SortedMap::new() }
}

fn object(pairs: &[(&str, Value)]) -> Value {
    let mut map = serde_json::Map::new();
    for (k, v) in pairs {
        map.insert(k.to_string(), v.clone());
    }
    Value::Object(map)
}

fn new_app() -> App {
    App::new("run", "scen", vec![MetricSpec::counter("reqs", ""), MetricSpec::gauge("queue", "")], 120, vec![], None, 1_000)
}

fn stamp() -> Stamp {
    // 2024-03-01T12:34:56.789+02:00
    Stamp { seconds: 1_709_289_296, nanos: 789_000_000, offset: 7200 }
}

#[test]
fn a_run_begins_empty() {
    let app = new_app();
    assert!(matches!(app.status, RunStatus::Starting));
    assert!(app.logs.is_empty() && app.show_logs && app.view == Pane::Live);
    assert!(app.summary.is_null());
    assert_eq!(app.elapsed_seconds(1_999), 0);
    assert_eq!(app.elapsed_seconds(2_000), 1);
    assert_eq!(app.elapsed_seconds(0), 0);
    assert!(!app.is_finished());
}

#[test]
fn events_move_a_run_on() {
    let mut app = new_app();
    app.apply(Event::Log { level: LogLevel::Debug, message: "x".to_string() }, 1_500);
    assert!(matches!(app.status, RunStatus::Starting));
    app.apply(Event::Observe(obs("reqs", 2.0)), 2_500);
    assert!(matches!(app.status, RunStatus::Running));
    app.apply(Event::Phase { name: "warm".to_string() }, 3_500);
    app.apply(Event::Batch { observations: vec![obs("reqs", 1.0), obs("nope", 1.0)] }, 4_500);
    assert_eq!(app.store.current_second(), 3);
    assert_eq!(app.events_seen, 4);
    let Aggregate::Counter { total, per_second, .. } = &app.store.get("reqs").unwrap().aggregate else {
        panic!()
    };
    assert_eq!(val(*total), 3.0);
    assert_eq!(per_second.iter().map(|v| val(*v)).collect::<Vec<_>>(), vec![0.0, 2.0, 0.0, 1.0]);
    let logs: Vec<(u64, String)> = app.logs.iter().map(|l| (l.second, l.message.clone())).collect();
    assert_eq!(logs, vec![(0, "x".to_string()), (2, "phase: warm".to_string())]);
    app.apply(Event::Done { summary: Value::from("all good") }, 5_000);
    assert!(app.is_finished());
    assert_eq!(app.summary, Value::from("all good"));
    assert_eq!(app.logs.back().unwrap().message, "scenario finished");
    app.apply(Event::Observe(obs("reqs", 1.0)), 5_100);
    assert!(app.is_finished());
}

#[test]
fn a_greeting_declares_metrics() {
    let mut app = App::new("run", "replay", vec![], 120, vec![], None, 0);
    app.apply(
        Event::Hello {
            scenario: "checkout".to_string(),
            metrics: vec![MetricSpec::counter("reqs", "")],
            params: Value::Null,
        },
        10,
    );
    assert_eq!(app.scenario_id, "checkout");
    assert!(matches!(app.status, RunStatus::Running));
    assert_eq!(app.store.names().len(), 1);
}

#[test]
fn an_error_fails_the_run() {
    let mut app = new_app();
    app.apply(Event::Error { message: "boom".to_string() }, 2_000);
    assert!(app.is_finished());
    let RunStatus::Failed(m) = &app.status else {
        panic!()
    };
    assert_eq!(m, "boom");
    let last = app.logs.back().unwrap();
    assert_eq!((last.level, last.message.as_str()), (LogLevel::Error, "boom"));
}

#[test]
fn the_log_drops_its_oldest_line() {
    let mut app = new_app();
    for i in 0..LOG_CAPACITY + 3 {
        app.push_log(LogLevel::Info, format!("{i}"), 1_000);
    }
    assert_eq!(app.logs.len(), LOG_CAPACITY);
    assert_eq!(app.logs.front().unwrap().message, "3");
    assert_eq!(app.logs.back().unwrap().message, format!("{}", LOG_CAPACITY + 2));
}

#[test]
fn the_selection_goes_round() {
    let mut app = new_app();
    assert_eq!(app.selected_metric(), Some("reqs"));
    app.select_prev();
    assert_eq!(app.selected_metric(), Some("queue"));
    app.select_next();
    assert_eq!(app.selected_metric(), Some("reqs"));
    app.select_next();
    app.select_next();
    assert_eq!(app.selected, 0);
    let mut none = App::new("run", "scen", vec![], 120, vec![], None, 0);
    none.select_next();
    none.select_prev();
    assert_eq!(none.selected_metric(), None);
}

#[test]
fn quitting_takes_two_requests() {
    let mut s = Session::new(new_app());
    assert_eq!(s.press(Key::Char('q'), false, false, 2_000), Step::Cancel);
    assert!(s.user_quit);
    assert!(matches!(s.app.status, RunStatus::Stopping));
    let last = s.app.logs.back().unwrap();
    assert_eq!(last.message, "stop requested; waiting for the scenario to unwind (q again to force)");
    assert_eq!(last.level, LogLevel::Warn);
    assert_eq!(s.press(Key::Char('c'), true, true, 3_000), Step::Leave);
}

#[test]
fn a_finished_run_closes_at_once() {
    let mut s = Session::new(new_app());
    s.receive(Event::Done { summary: Value::Null }, 2_000);
    let lines = s.app.logs.len();
    assert_eq!(s.press(Key::Char('s'), false, false, 2_000), Step::Stay);
    assert_eq!(s.press(Key::Char('q'), false, false, 2_000), Step::Leave);
    assert!(!s.user_quit);
    assert_eq!(s.app.logs.len(), lines);
}

#[test]
fn keys_do_what_they_say() {
    let mut s = Session::new(new_app());
    assert_eq!(s.press(Key::Down, false, false, 0), Step::Stay);
    assert_eq!(s.app.selected, 1);
    s.press(Key::Char('k'), false, false, 0);
    assert_eq!(s.app.selected, 0);
    s.press(Key::Char('j'), false, false, 0);
    s.press(Key::Up, false, false, 0);
    assert_eq!(s.app.selected, 0);
    s.press(Key::Tab, false, false, 0);
    assert!(s.app.view == Pane::Phases);
    s.press(Key::Tab, false, false, 0);
    assert!(s.app.view == Pane::Live);
    s.press(Key::Char('l'), false, false, 0);
    assert!(!s.app.show_logs);
    s.press(Key::Char('l'), false, false, 0);
    assert!(s.app.show_logs);
    assert_eq!(s.press(Key::Char('c'), false, false, 0), Step::Stay);
    assert_eq!(s.press(Key::Enter, false, false, 0), Step::Stay);
    assert!(s.app.logs.is_empty());
    assert_eq!(s.press(Key::Char('s'), false, false, 0), Step::Cancel);
    assert_eq!(s.app.logs.back().unwrap().message, "stop requested");
    assert!(!s.user_quit);
}

#[test]
fn silence_fails_a_run_that_has_not_ended() {
    let mut s = Session::new(new_app());
    s.tick(9_000);
    assert_eq!(s.app.store.current_second(), 8);
    s.fall_silent();
    assert!(s.scenario_done);
    let RunStatus::Failed(m) = &s.app.status else {
        panic!()
    };
    assert_eq!(m, "scenario ended without a done/error event");
    let mut done = Session::new(new_app());
    done.receive(Event::Done { summary: Value::Null }, 2_000);
    done.fall_silent();
    assert!(matches!(done.app.status, RunStatus::Done));
}

fn registry() -> Registry {
    Registry::new()
        .register(ScenarioInfo {
            id: "checkout".to_string(),
            description: "buys".to_string(),
            metrics: vec![MetricSpec::counter("reqs", "")],
        })
        .register(ScenarioInfo { id: "search".to_string(), description: "looks".to_string(), metrics: vec![] })
        .register(ScenarioInfo { id: "checkout".to_string(), description: "again".to_string(), metrics: vec![] })
}

fn config(scenario: &str) -> LoadedRun {
    LoadedRun {
        config: RunConfig {
            name: "Ramp Up".to_string(),
            description: Some("slowly".to_string()),
            scenario: scenario.to_string(),
            params: object(&[("rate", Value::from(5))]),
            chart_window_seconds: 60,
            thresholds: vec![],
        },
        path: "runs/ramp.json".to_string(),
    }
}

#[test]
fn a_registered_scenario_starts() {
    let r = registry();
    assert_eq!(r.ids(), vec!["checkout", "search", "checkout"]);
    assert_eq!(r.get("checkout").unwrap().description, "buys");
    assert_eq!(r.position("search"), Some(1));
    let o = open_live(&r, &config("checkout")).ok().unwrap();
    assert_eq!(o.metrics.len(), 1);
    let s = start(o, stamp(), "runs", 5_000);
    assert_eq!(s.stem, "20240301T123456-ramp-up");
    assert_eq!(s.app.run_name, "Ramp Up");
    assert_eq!(s.app.chart_window_seconds, 60);
    assert_eq!(s.app.description.as_deref(), Some("slowly"));
    assert_eq!(s.params, object(&[("rate", Value::from(5)), ("_base_dir", Value::from("runs"))]));
    let Event::Hello { scenario, metrics, params } = hello(r.get("checkout").unwrap(), &s.params) else {
        panic!()
    };
    assert_eq!((scenario.as_str(), metrics.len()), ("checkout", 1));
    assert_eq!(params, s.params);
}

#[test]
fn an_unknown_scenario_is_refused() {
    let e = open_live(&registry(), &config("nope")).err().unwrap();
    assert_eq!(e, "unknown scenario 'nope' (available: checkout, search, checkout)");
    assert!(registry().get("nope").is_none());
}

#[test]
fn a_replay_starts_without_metrics() {
    let o = open_replay(&Some("x.events.jsonl".to_string()), vec![]);
    assert_eq!((o.run_name.as_str(), o.scenario_id.as_str()), ("replay x.events.jsonl", "replay"));
    assert_eq!((o.chart_window_seconds, o.metrics.len()), (120, 0));
    assert!(o.params.is_null() && o.description.is_none());
    assert_eq!(open_replay(&None, vec![]).run_name, "replay ?");
    let s = start(o, stamp(), ".", 0);
    assert!(s.params.is_null());
}

#[test]
fn the_base_directory_is_not_overridden() {
    let given = object(&[("_base_dir", Value::from("mine"))]);
    assert_eq!(with_base_dir(given.clone(), "runs"), given);
    assert_eq!(with_base_dir(Value::Null, "runs"), Value::Null);
    let once = with_base_dir(object(&[]), "runs");
    assert_eq!(once, object(&[("_base_dir", Value::from("runs"))]));
    assert_eq!(with_base_dir(once.clone(), "other"), once);
    assert_eq!(directory(None), ".");
    assert_eq!(directory(Some("runs".to_string())), "runs");
    let mut run = config("checkout");
    assert_eq!(run.base_dir(), "runs");
    run.path = "ramp.json".to_string();
    assert_eq!(run.base_dir(), "");
    run.path = String::new();
    assert_eq!(run.base_dir(), ".");
    for (path, dir) in [
        ("runs/a.json", "runs"),
        ("runs/nightly/a.json", "runs/nightly"),
        ("../runs/a.json", "../runs"),
        ("/a.json", "/"),
        ("/etc/runs/a.json", "/etc/runs"),
        ("./a.json", "."),
        ("./runs/a.toml", "./runs"),
        ("runs//a.json", "runs"),
        ("runs/./nightly//a.json", "runs/./nightly"),
        (".", ""),
        ("/", "."),
    ] {
        run.path = path.to_string();
        assert_eq!(run.base_dir(), dir);
        assert_eq!(directory_of(path), dir);
    }
}

#[test]
fn a_recording_is_named_after_its_file() {
    assert_eq!(open_recording("logs/x.events.jsonl", vec![]).run_name, "replay x.events.jsonl");
    assert_eq!(open_recording("x.events.jsonl", vec![]).run_name, "replay x.events.jsonl");
    assert_eq!(open_recording("./logs/x.events.jsonl", vec![]).run_name, "replay x.events.jsonl");
    assert_eq!(open_recording("logs//x.events.jsonl/.", vec![]).run_name, "replay x.events.jsonl");
    assert_eq!(open_recording("/", vec![]).run_name, "replay ?");
    assert_eq!(open_recording(".", vec![]).run_name, "replay ?");
    assert_eq!(open_recording("", vec![]).run_name, "replay ?");
    assert_eq!(open_recording("logs/..", vec![]).run_name, "replay ?");
}

#[test]
fn files_of_a_run() {
    assert_eq!(stem(stamp(), "A b"), "20240301T123456-a-b");
    assert_eq!(stem_from("T", "A b"), "T-a-b");
    assert_eq!(events_file("s"), "s.events.jsonl");
    assert_eq!(summary_file("s"), "s.summary.json");
    assert_eq!(markdown_file("s"), "s.md");
    assert_eq!(stamp().written(), "2024-03-01T12:34:56.789+02:00");
}

#[test]
fn how_a_scenario_ends() {
    let Event::Done { summary } = conclusion(Ok(Value::from(1))) else {
        panic!()
    };
    assert_eq!(summary, Value::from(1));
    let Event::Error { message } = conclusion(Err("no".to_string())) else {
        panic!()
    };
    assert_eq!(message, "no");
}

#[test]
fn a_headless_run_prints_logs_alone() {
    let mut app = new_app();
    let log = Event::Log { level: LogLevel::Warn, message: "hm".to_string() };
    assert_eq!(event_line(&app, &log, 13_000).as_deref(), Some("   12s  Warn: hm"));
    let phase = Event::Phase { name: "load".to_string() };
    assert_eq!(event_line(&app, &phase, 1_000), None);
    assert_eq!(event_line(&app, &Event::Done { summary: Value::Null }, 1_000), None);
    assert_eq!(event_line(&app, &Event::Error { message: "x".to_string() }, 1_000), None);
    assert_eq!(event_line(&app, &Event::Observe(obs("reqs", 1.0)), 0), None);
    assert_eq!(receive_headless(&mut app, log, 2_000), Step::Stay);
    assert_eq!(receive_headless(&mut app, Event::Error { message: "x".to_string() }, 2_000), Step::Leave);
}

#[test]
fn a_run_is_closed_with_its_summary() {
    let mut app = new_app();
    app.apply(Event::Observe(obs("reqs", 6.0)), 2_000);
    let o = close(&app, stamp(), 4_500, "s".to_string(), "m".to_string(), "e".to_string(), true);
    assert_eq!(o.summary.duration_seconds, 3);
    assert_eq!(o.summary.started_at, "2024-03-01T12:34:56.789+02:00");
    assert_eq!(o.summary.status, "Running");
    let m = o.summary.metrics.get("reqs").unwrap();
    assert_eq!(m.mean_rate_per_second.map(val), Some(2.0));
    assert_eq!((o.summary_path.as_str(), o.markdown_path.as_str(), o.events_path.as_str()), ("s", "m", "e"));
    assert!(o.user_quit);
}

fn params(command: &[&str]) -> ProcessParams {
    let mut env = SortedMap::new();
    env.put("A".to_string(), "1".to_string());
    env.put("TUTUI_PARAMS".to_string(), "mine".to_string());
    ProcessParams {
        command: command.iter().map(|s| s.to_string()).collect(),
        cwd: Some("work".to_string()),
        env,
        params: object(&[("n", Value::from(3))]),
        stop_grace_seconds: default_grace(),
        base_dir: None,
    }
}

#[test]
fn a_command_is_launched_with_its_parameters() {
    let l = launch(&params(&["sh", "-c", "true"])).ok().unwrap();
    assert_eq!((l.program.as_str(), l.args.len()), ("sh", 2));
    assert_eq!(l.args, vec!["-c", "true"]);
    assert_eq!(l.env.get("A").unwrap(), "1");
    assert_eq!(l.env.get("TUTUI_PARAMS").unwrap(), "{\"n\":3}");
    assert_eq!(l.dir, "./work");
    for (base, cwd, dir) in [
        (Some("runs"), Some("work"), "runs/work"),
        (Some("runs"), Some("../work"), "runs/../work"),
        (Some("runs"), Some("/work"), "/work"),
        (Some("./runs"), Some("work"), "./runs/work"),
        (Some("./runs/"), Some("./work"), "./runs/./work"),
        (Some(""), Some("work"), "work"),
        (Some("/"), Some("work"), "/work"),
        (Some("runs"), None, "runs"),
        (None, None, "."),
    ] {
        let mut p = params(&["sh"]);
        p.base_dir = base.map(|s| s.to_string());
        p.cwd = cwd.map(|s| s.to_string());
        assert_eq!(launch(&p).ok().unwrap().dir, dir);
    }
    assert_eq!(launch(&params(&[])).err().unwrap(), "process.command must not be empty");
    assert_eq!(default_grace(), 5);
    assert_eq!(spawn_context(&vec!["a b".to_string(), "q\"".to_string()]), "spawn [\"a b\", \"q\\\"\"]");
    assert_eq!(ExternalProcess.id(), "process");
    assert!(ExternalProcess.metrics().is_empty());
    assert_eq!(ExternalProcess.description(), "Run an external command that reports metrics as JSON lines on stdout");
}

#[test]
fn a_child_is_heard_and_stopped() {
    let mut c = Child::new();
    let Event::Log { level, message } = c.hear("hello".to_string(), None) else {
        panic!()
    };
    assert_eq!((level, message.as_str()), (LogLevel::Info, "hello"));
    let Event::Done { summary } = c.hear("{}".to_string(), Some(Event::Done { summary: Value::from(7) })) else {
        panic!()
    };
    assert_eq!(summary, Value::from(7));
    assert_eq!(c.summary, Value::from(7));
    assert!(matches!(c.hear("p".to_string(), Some(Event::Phase { name: "x".to_string() })), Event::Phase { .. }));
    assert_eq!(c.summary, Value::from(7));
    assert_eq!(c.cancel().as_deref(), Some("{\"type\":\"stop\"}\n"));
    assert_eq!(c.cancel(), None);
    assert_eq!(Control::Stop.line(), "{\"type\":\"stop\"}\n");
    assert_eq!(c.exit(false, "exit status: 1").ok(), Some(Value::from(7)));
    assert_eq!(Child::new().exit(true, "exit status: 0").ok(), Some(Value::Null));
    assert_eq!(Child::new().exit(false, "exit status: 3").err().unwrap(), "scenario process exited with exit status: 3");
}

#[test]
fn what_is_said_of_a_child() {
    let Event::Log { level, message } = stderr_event("oops") else {
        panic!()
    };
    assert_eq!((level, message.as_str()), (LogLevel::Warn, "stderr: oops"));
    let Event::Log { level, message } = kill_event(99, 5) else {
        panic!()
    };
    assert_eq!((level, message.as_str()), (LogLevel::Warn, "child 99 ignored stop for 5s; killing"));
}

#[test]
fn a_child_is_killed_when_its_grace_is_over() {
    let mut c = Child::new();
    assert!(c.grace_over(Some(7), 5).is_none());
    c.cancel();
    assert!(c.grace_over(None, 5).is_none());
    let Some(Event::Log { level, message }) = c.grace_over(Some(7), 5) else {
        panic!()
    };
    assert_eq!((level, message.as_str()), (LogLevel::Warn, "child 7 ignored stop for 5s; killing"));
}

fn recorded(t_ms: u128, event: Event) -> Option<Recorded> {
    Some(Recorded { t_ms, event })
}

#[test]
fn a_replay_keeps_its_pace() {
    assert_eq!(due_ms(1500, num(1.0)), 1500);
    assert_eq!(due_ms(1500, num(2.0)), 750);
    assert_eq!(due_ms(1001, num(4.0)), 250);
    assert_eq!(due_ms(1500, num(0.0)), 1500);
    assert_eq!(due_ms(1500, num(-3.0)), 1500);
    assert_eq!(due_ms(1500, num(f64::NAN)), 0);
    assert_eq!(due_ms(u128::MAX, num(1.0)), u64::MAX);
    assert_eq!(wait_nanos(2, 500_000), Some(1_500_000));
    assert_eq!(wait_nanos(2, 2_000_000), Some(0));
    assert_eq!(wait_nanos(2, 2_000_001), None);
}

#[test]
fn a_replay_ends_with_the_first_end() {
    let mut lines: VecDeque<Option<Recorded>> = VecDeque::new();
    lines.push_back(recorded(10, Event::Phase { name: "a".to_string() }));
    lines.push_back(None);
    lines.push_back(recorded(30, Event::Error { message: "e".to_string() }));
    lines.push_back(recorded(40, Event::Done { summary: Value::Null }));
    let cues = schedule(lines, num(10.0));
    assert_eq!(cues.iter().map(|c| c.due_ms).collect::<Vec<_>>(), vec![1, 3]);
    assert!(matches!(cues[1].event, Event::Error { .. }));
    assert!(!is_terminal(&cues[0].event) && is_terminal(&cues[1].event));
}

#[test]
fn a_recording_is_played_line_by_line() {
    let mut p = Player::new(num(2.0));
    assert!(p.hear(None).is_none());
    let cue = p.hear(recorded(10, Event::Phase { name: "a".to_string() })).unwrap();
    assert_eq!((cue.due_ms, p.over), (5, false));
    assert!(matches!(p.close().unwrap().event, Event::Done { .. }));
    let cue = p.hear(recorded(30, Event::Error { message: "e".to_string() })).unwrap();
    assert_eq!((cue.due_ms, p.over), (15, true));
    assert!(p.hear(recorded(40, Event::Done { summary: Value::Null })).is_none());
    assert!(p.close().is_none());
}

#[test]
fn a_recording_without_an_end_is_closed() {
    let mut lines: VecDeque<Option<Recorded>> = VecDeque::new();
    lines.push_back(recorded(10, Event::Phase { name: "a".to_string() }));
    let cues = schedule(lines, num(1.0));
    assert_eq!(cues.len(), 2);
    let Event::Done { summary } = &cues[1].event else {
        panic!()
    };
    assert!(summary.is_null());
    assert_eq!(schedule(VecDeque::new(), num(1.0)).len(), 1);
    let Event::Error { message } = open_failed("x.jsonl") else {
        panic!()
    };
    assert_eq!(message, "cannot open x.jsonl");
}

#[test]
fn a_replay_rebuilds_the_run() {
    let metrics = || vec![MetricSpec::counter("reqs", ""), MetricSpec::histogram("lat", "ms", "")];
    let greeting = || Event::Hello { scenario: "checkout".to_string(), metrics: metrics(), params: Value::Null };
    let events = || {
        vec![
            (greeting(), 3u64),
            (Event::Phase { name: "warm".to_string() }, 900),
            (Event::Observe(obs("reqs", 1.0)), 1_200),
            (Event::Batch { observations: vec![obs("lat", 4.0), obs("lat", 6.0), obs("nope", 1.0)] }, 2_100),
            (Event::Done { summary: Value::from("ok") }, 3_050),
        ]
    };
    let mut live = App::new("live", "checkout", metrics(), 60, vec![], None, 10_000);
    for (e, t) in events() {
        live.apply(e, 10_000 + t);
    }
    let mut replay = App::new("replay x", "replay", vec![], 120, vec![], None, 70_000);
    for (e, t) in events() {
        replay.apply(e, 70_000 + t);
    }
    assert_eq!(format!("{:?}", live.store), format!("{:?}", replay.store));
    assert_eq!(format!("{:?}", live.logs), format!("{:?}", replay.logs));
    assert_eq!(live.scenario_id, replay.scenario_id);
    let a = close(&live, stamp(), 14_000, String::new(), String::new(), String::new(), false).summary;
    let b = close(&replay, stamp(), 74_000, String::new(), String::new(), String::new(), false).summary;
    assert_eq!(format!("{:?}", a.metrics), format!("{:?}", b.metrics));
    assert_eq!(format!("{:?}", a.phases), format!("{:?}", b.phases));
    assert_eq!(a.status, b.status);
    assert_eq!(a.scenario_summary, b.scenario_summary);
}

#[test]
fn a_batch_is_its_observations() {
    let mut one = new_app();
    one.apply(Event::Batch { observations: vec![obs("reqs", 2.0), obs("queue", 1.0), obs("nope", 3.0)] }, 3_000);
    let mut other = new_app();
    for o in [obs("reqs", 2.0), obs("queue", 1.0), obs("nope", 3.0)] {
        other.apply(Event::Observe(o), 3_000);
    }
    assert_eq!(format!("{:?}", one.store), format!("{:?}", other.store));
    assert_eq!((one.events_seen, other.events_seen), (1, 3));
}

#[test]
fn a_recorder_keeps_what_is_reported() {
    let mut r = Recorder::new();
    r.observe("m", num(2.5));
    r.observe_labeled("m", num(1.5), labels([("k", "v".to_string())]));
    r.count("c");
    r.count_labeled("c", labels([("k", "v".to_string())]));
    r.gauge("g", num(9.0));
    r.phase("p".to_string());
    r.info("i".to_string());
    r.warn("w".to_string());
    r.log(LogLevel::Error, "e".to_string());
    r.emit(Event::Error { message: "x".to_string() });
    assert_eq!(r.events.len(), 10);
    let mut values = Vec::new();
    let mut levels = Vec::new();
    for e in &r.events {
        match e {
            Event::Observe(o) => values.push((o.metric.clone(), val(o.value), o.labels.len())),
            Event::Log { level, .. } => levels.push(*level),
            _ => {}
        }
    }
    let expected = vec![
        ("m".to_string(), 2.5, 0),
        ("m".to_string(), 1.5, 1),
        ("c".to_string(), 1.0, 0),
        ("c".to_string(), 1.0, 1),
        ("g".to_string(), 9.0, 0),
    ];
    assert_eq!(values, expected);
    assert_eq!(levels, vec![LogLevel::Info, LogLevel::Warn, LogLevel::Error]);
}
