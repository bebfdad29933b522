//! Drives one run: decides how it starts, what each key and each message of the scenario does,
//! and what is left when it ends. Waiting, reading keys and writing files is done by the caller.

use vstd::prelude::*;
use serde_json::Value;
use crate::app::{
    applied, elapsed, finished, ticked, with_log, selected_next, selected_prev, App, AppModel, Pane, RunStatus,
    StatusModel,
};
use crate::config::{LoadedRun, LoadedRunModel};
use crate::json::{json_fields, json_null, json_text, with_base_dir, with_base_dir_spec};
use crate::laws::stores::phases_of_a_store_are_in_time;
use crate::paths::{name_in, path_file_name, portable};
use crate::protocol::{Event, LogLevel, MetricSpec, MetricSpecModel};
use crate::render::phases_in_time;
use crate::report::{run_summary, summarise, RunSummary};
use crate::scenario::{found, ids_of, Registry, ScenarioInfo, ScenarioModel};
use crate::slug::{slug, slug_of};
use crate::sorted::Duplicate;
use crate::store::{all_declared, coherent, empty_store};
use crate::text::{decimal, join_text, joined_text, padded, padded_decimal};
use crate::time::{stamp_text, started_text, Stamp};
use crate::verdict::{Threshold, ThresholdModel};

verus! {

/// What a run starts from.
#[derive(Debug)]
pub struct Opening {
    pub run_name: String,
    pub scenario_id: String,
    pub metrics: Vec<MetricSpec>,
    pub chart_window_seconds: u64,
    pub params: Value,
    pub thresholds: Vec<Threshold>,
    pub description: Option<String>,
}

pub struct OpeningModel {
    pub run_name: Seq<char>,
    pub scenario_id: Seq<char>,
    pub metrics: Seq<MetricSpecModel>,
    pub chart_window_seconds: u64,
    pub params: Seq<char>,
    pub thresholds: Seq<ThresholdModel>,
    pub description: Option<Seq<char>>,
}

impl DeepView for Opening {
    type V = OpeningModel;

    open spec fn deep_view(&self) -> OpeningModel {
        OpeningModel {
            run_name: self.run_name@,
            scenario_id: self.scenario_id@,
            metrics: self.metrics.deep_view(),
            chart_window_seconds: self.chart_window_seconds,
            params: json_text(self.params),
            thresholds: self.thresholds.deep_view(),
            description: self.description.deep_view(),
        }
    }
}

/// What is said of a config whose scenario is not registered.
pub open spec fn unknown_text(id: Seq<char>, ids: Seq<Seq<char>>) -> Seq<char> {
    "unknown scenario '"@ + id + "' (available: "@ + joined_text(ids, ", "@) + ")"@
}

/// A run of a config whose scenario is `scenario`.
pub open spec fn live_opening(scenario: ScenarioModel, run: LoadedRunModel) -> OpeningModel {
    OpeningModel {
        run_name: run.config.name,
        scenario_id: scenario.id,
        metrics: scenario.metrics,
        chart_window_seconds: run.config.chart_window_seconds,
        params: json_text(run.config.params),
        thresholds: run.config.thresholds,
        description: run.config.description,
    }
}

/// A run of a config: its scenario has to be registered.
pub fn open_live(registry: &Registry, run: &LoadedRun) -> (r: Result<Opening, String>)
    ensures
        match r {
            Ok(o) => {
                &&& found(registry@, run.config.scenario@) is Some
                &&& o.deep_view() == live_opening(registry@[found(registry@, run.config.scenario@)->0], run.deep_view())
                &&& json_fields(o.params) == json_fields(run.config.params)
            },
            Err(e) => found(registry@, run.config.scenario@) is None && e@ == unknown_text(
                run.config.scenario@,
                ids_of(registry@),
            ),
        },
{
    let config = &run.config;
    match registry.get(config.scenario.as_str()) {
        Some(s) => Ok(
            Opening {
                run_name: config.name.clone(),
                scenario_id: s.id.clone(),
                metrics: s.metrics.duplicate(),
                chart_window_seconds: config.chart_window_seconds,
                params: config.params.clone(),
                thresholds: config.thresholds.duplicate(),
                description: config.description.duplicate(),
            },
        ),
        None => {
            let mut text = "unknown scenario '".to_owned();
            text.append(config.scenario.as_str());
            text.append("' (available: ");
            text.append(join_text(&registry.ids(), ", ").as_str());
            text.append(")");
            Err(text)
        },
    }
}

/// A replay of a recorded file, under the file's name where it has one.
pub open spec fn replay_opening(file: Option<Seq<char>>, thresholds: Seq<ThresholdModel>) -> OpeningModel {
    OpeningModel {
        run_name: "replay "@ + (match file {
            Some(name) => name,
            None => "?"@,
        }),
        scenario_id: "replay"@,
        metrics: Seq::empty(),
        chart_window_seconds: 120,
        params: "null"@,
        thresholds,
        description: None,
    }
}

/// A replay of a recorded file: its metrics come with its events.
pub fn open_replay(file: &Option<String>, thresholds: Vec<Threshold>) -> (r: Opening)
    ensures
        r.deep_view() == replay_opening(file.deep_view(), thresholds.deep_view()),
{
    let mut run_name = "replay ".to_owned();
    match file {
        Some(name) => run_name.append(name.as_str()),
        None => run_name.append("?"),
    }
    let metrics: Vec<MetricSpec> = Vec::new();
    assert(metrics.deep_view() =~= Seq::<MetricSpecModel>::empty());
    Opening {
        run_name,
        scenario_id: "replay".to_owned(),
        metrics,
        chart_window_seconds: 120,
        params: json_null(),
        thresholds,
        description: None,
    }
}

/// The replay of a recording opens under the name of its file.
pub open spec fn opens_recording(path: Seq<char>, thresholds: Seq<ThresholdModel>, r: OpeningModel) -> bool {
    exists|file: Option<Seq<char>>|
        {
            &&& r == #[trigger] replay_opening(file, thresholds)
            &&& path.len() == 0 ==> file is None
            &&& portable(path) ==> file == name_in(path)
        }
}

/// A replay of the recording at a path.
pub fn open_recording(path: &str, thresholds: Vec<Threshold>) -> (r: Opening)
    ensures
        opens_recording(path@, thresholds.deep_view(), r.deep_view()),
{
    let file = path_file_name(path);
    open_replay(&file, thresholds)
}

/// The name that all files of a run begin with.
pub open spec fn stem_text(started: Seq<char>, run_name: Seq<char>) -> Seq<char> {
    started + "-"@ + slug_of(run_name)
}

/// The name that all files of a run begin with, given the text of its starting time.
pub fn stem_from(started: &str, run_name: &str) -> (r: String)
    ensures
        r@ == stem_text(started@, run_name@),
{
    let mut out = started.to_owned();
    out.append("-");
    out.append(slug(run_name).as_str());
    out
}

/// The name that all files of a run begin with.
pub fn stem(started_at: Stamp, run_name: &str) -> (r: String)
    ensures
        r@ == stem_text(stamp_text(started_at), run_name@),
{
    stem_from(started_at.compact().as_str(), run_name)
}

/// The file of a run's recorded events.
pub fn events_file(stem: &str) -> (r: String)
    ensures
        r@ == stem@ + ".events.jsonl"@,
{
    let mut out = stem.to_owned();
    out.append(".events.jsonl");
    out
}

/// The file of a run's summary.
pub fn summary_file(stem: &str) -> (r: String)
    ensures
        r@ == stem@ + ".summary.json"@,
{
    let mut out = stem.to_owned();
    out.append(".summary.json");
    out
}

/// The file of a run's report.
pub fn markdown_file(stem: &str) -> (r: String)
    ensures
        r@ == stem@ + ".md"@,
{
    let mut out = stem.to_owned();
    out.append(".md");
    out
}

/// A run that has started.
pub struct Started {
    pub app: App,
    pub stem: String,
    /// What the scenario is handed.
    pub params: Value,
}

/// The dashboard of a run at its start.
pub open spec fn opened_app(o: OpeningModel, summary: Value, now: u64) -> AppModel {
    AppModel {
        run_name: o.run_name,
        scenario_id: o.scenario_id,
        started: now,
        status: StatusModel::Starting,
        store: all_declared(empty_store(), o.metrics),
        logs: Seq::empty(),
        selected: 0,
        view: Pane::Live,
        show_logs: true,
        summary,
        events_seen: 0,
        chart_window_seconds: o.chart_window_seconds,
        thresholds: o.thresholds,
        description: o.description,
    }
}

/// Starts a run at `started_at`, whose config lies in the directory `base`.
pub fn start(opening: Opening, started_at: Stamp, base: &str, now: u64) -> (r: Started)
    ensures
        json_text(r.app.summary) == "null"@,
        coherent(r.app.deep_view().store),
        r.app.deep_view() == opened_app(opening.deep_view(), r.app.summary, now),
        r.stem@ == stem_text(stamp_text(started_at), opening.run_name@),
        json_fields(r.params) == with_base_dir_spec(json_fields(opening.params), base@),
        json_fields(opening.params) is None ==> r.params == opening.params,
        json_fields(opening.params) is Some && json_fields(opening.params)->0.contains_key("_base_dir"@) ==> r.params
            == opening.params,
{
    let stem = stem(started_at, opening.run_name.as_str());
    let app = App::new(
        opening.run_name.as_str(),
        opening.scenario_id.as_str(),
        opening.metrics,
        opening.chart_window_seconds,
        opening.thresholds,
        opening.description,
        now,
    );
    Started { app, stem, params: with_base_dir(opening.params, base) }
}

/// A greeting that names a scenario and its metrics.
pub open spec fn is_hello(event: Event, of: ScenarioModel, with: Value) -> bool {
    match event {
        Event::Hello { scenario, metrics, params } => scenario@ == of.id && metrics.deep_view() == of.metrics
            && json_text(params) == json_text(with),
        _ => false,
    }
}

/// The event with which a scenario's run begins.
pub fn hello(scenario: &ScenarioInfo, params: &Value) -> (r: Event)
    ensures
        is_hello(r, scenario.deep_view(), *params),
{
    Event::Hello {
        scenario: scenario.id.clone(),
        metrics: scenario.metrics.duplicate(),
        params: params.clone(),
    }
}

/// The event with which a scenario's run ends.
pub fn conclusion(result: Result<Value, String>) -> (r: Event)
    ensures
        match result {
            Ok(summary) => r == (Event::Done { summary }),
            Err(message) => r == (Event::Error { message }),
        },
{
    match result {
        Ok(summary) => Event::Done { summary },
        Err(message) => Event::Error { message },
    }
}

/// A key, as far as the screens know keys.
#[derive(Clone, Copy, Debug, PartialEq, Eq, Structural)]
pub enum Key {
    Char(char),
    Up,
    Down,
    Tab,
    Enter,
    Escape,
    Other,
}

/// What is left to do for the caller after a key.
#[derive(Clone, Copy, Debug, PartialEq, Eq, Structural)]
pub enum Step {
    /// Go on.
    Stay,
    /// Tell the scenario to stop, and go on.
    Cancel,
    /// Close the run.
    Leave,
}

/// A run under the eyes of a user.
pub struct Session {
    pub app: App,
    /// The user asked to quit while the scenario was still running.
    pub user_quit: bool,
    /// The scenario reports nothing more.
    pub scenario_done: bool,
}

#[verifier::ext_equal]
pub struct SessionModel {
    pub app: AppModel,
    pub user_quit: bool,
    pub scenario_done: bool,
}

impl DeepView for Session {
    type V = SessionModel;

    open spec fn deep_view(&self) -> SessionModel {
        SessionModel {
            app: self.app.deep_view(),
            user_quit: self.user_quit,
            scenario_done: self.scenario_done,
        }
    }
}

/// A run asked to stop.
pub open spec fn stopping(a: AppModel, message: Seq<char>, now: u64) -> AppModel {
    with_log(AppModel { status: StatusModel::Stopping, ..a }, LogLevel::Warn, message, now)
}

/// A request to quit: it closes a run that is over, or one that was told to stop before.
pub open spec fn quit(s: SessionModel, cancelled: bool, now: u64) -> (SessionModel, Step) {
    if finished(s.app.status) || s.scenario_done {
        (s, Step::Leave)
    } else {
        (
            SessionModel {
                app: stopping(
                    s.app,
                    "stop requested; waiting for the scenario to unwind (q again to force)"@,
                    now,
                ),
                user_quit: true,
                scenario_done: s.scenario_done,
            },
            if cancelled {
                Step::Leave
            } else {
                Step::Cancel
            },
        )
    }
}

/// What a key does to a run. `control` is whether the control key, and no other, was held;
/// `cancelled` is whether the scenario has been told to stop.
pub open spec fn pressed(s: SessionModel, key: Key, control: bool, cancelled: bool, now: u64) -> (SessionModel, Step) {
    match key {
        Key::Char(c) => if c == 'q' || (c == 'c' && control) {
            quit(s, cancelled, now)
        } else if c == 's' && !finished(s.app.status) {
            (SessionModel { app: stopping(s.app, "stop requested"@, now), ..s }, Step::Cancel)
        } else if c == 'k' {
            (SessionModel { app: selected_prev(s.app), ..s }, Step::Stay)
        } else if c == 'j' {
            (SessionModel { app: selected_next(s.app), ..s }, Step::Stay)
        } else if c == 'l' {
            (SessionModel { app: AppModel { show_logs: !s.app.show_logs, ..s.app }, ..s }, Step::Stay)
        } else {
            (s, Step::Stay)
        },
        Key::Up => (SessionModel { app: selected_prev(s.app), ..s }, Step::Stay),
        Key::Down => (SessionModel { app: selected_next(s.app), ..s }, Step::Stay),
        Key::Tab => (
            SessionModel {
                app: AppModel {
                    view: if s.app.view == Pane::Live {
                        Pane::Phases
                    } else {
                        Pane::Live
                    },
                    ..s.app
                },
                ..s
            },
            Step::Stay,
        ),
        _ => (s, Step::Stay),
    }
}

/// A run whose scenario reports nothing more: it has failed unless it said how it ended.
pub open spec fn fallen_silent(s: SessionModel) -> SessionModel {
    SessionModel {
        app: AppModel {
            status: if finished(s.app.status) {
                s.app.status
            } else {
                StatusModel::Failed("scenario ended without a done/error event"@)
            },
            ..s.app
        },
        scenario_done: true,
        ..s
    }
}

impl Session {
    pub fn new(app: App) -> (r: Session)
        ensures
            r.deep_view() == (SessionModel { app: app.deep_view(), user_quit: false, scenario_done: false }),
    {
        Session { app, user_quit: false, scenario_done: false }
    }

    pub fn tick(&mut self, now: u64)
        ensures
            final(self).deep_view() == (SessionModel {
                app: ticked(old(self).deep_view().app, now),
                ..old(self).deep_view()
            }),
    {
        self.app.tick(now);
    }

    /// Takes in what the scenario reports.
    pub fn receive(&mut self, event: Event, now: u64)
        ensures
            final(self).deep_view() == (SessionModel {
                app: applied(old(self).deep_view().app, event, now),
                ..old(self).deep_view()
            }),
    {
        self.app.apply(event, now);
    }

    /// Takes in that the scenario reports nothing more.
    pub fn fall_silent(&mut self)
        ensures
            final(self).deep_view() == fallen_silent(old(self).deep_view()),
    {
        self.scenario_done = true;
        if !self.app.is_finished() {
            self.app.status = RunStatus::Failed("scenario ended without a done/error event".to_owned());
        }
    }

    fn request_stop(&mut self, message: &str, now: u64)
        ensures
            final(self).deep_view() == (SessionModel {
                app: stopping(old(self).deep_view().app, message@, now),
                ..old(self).deep_view()
            }),
    {
        self.app.status = RunStatus::Stopping;
        self.app.push_log(LogLevel::Warn, message.to_owned(), now);
    }

    fn quit(&mut self, cancelled: bool, now: u64) -> (r: Step)
        ensures
            (final(self).deep_view(), r) == quit(old(self).deep_view(), cancelled, now),
    {
        if self.app.is_finished() || self.scenario_done {
            return Step::Leave;
        }
        self.user_quit = true;
        self.request_stop("stop requested; waiting for the scenario to unwind (q again to force)", now);
        if cancelled {
            Step::Leave
        } else {
            Step::Cancel
        }
    }

    /// Takes in a key. `control` is whether the control key, and no other, was held; `cancelled`
    /// is whether the scenario has been told to stop.
    pub fn press(&mut self, key: Key, control: bool, cancelled: bool, now: u64) -> (r: Step)
        ensures
            (final(self).deep_view(), r) == pressed(old(self).deep_view(), key, control, cancelled, now),
    {
        match key {
            Key::Char(c) => {
                if c == 'q' || (c == 'c' && control) {
                    return self.quit(cancelled, now);
                }
                if c == 's' && !self.app.is_finished() {
                    self.request_stop("stop requested", now);
                    return Step::Cancel;
                }
                if c == 'k' {
                    self.app.select_prev();
                } else if c == 'j' {
                    self.app.select_next();
                } else if c == 'l' {
                    self.app.show_logs = !self.app.show_logs;
                }
            },
            Key::Up => self.app.select_prev(),
            Key::Down => self.app.select_next(),
            Key::Tab => {
                self.app.view = if self.app.view == Pane::Live {
                    Pane::Phases
                } else {
                    Pane::Live
                };
            },
            _ => {},
        }
        Step::Stay
    }
}

/// The second of a line, right-aligned to five columns.
pub open spec fn line_start(second: u64) -> Seq<char> {
    padded(decimal(second as nat), 5, ' ') + "s  "@
}

fn line_head(second: u64) -> (r: String)
    ensures
        r@ == line_start(second),
{
    let mut out = padded_decimal(second, 5, ' ');
    out.append("s  ");
    out
}

pub open spec fn level_name(level: LogLevel) -> Seq<char> {
    match level {
        LogLevel::Debug => "Debug"@,
        LogLevel::Info => "Info"@,
        LogLevel::Warn => "Warn"@,
        LogLevel::Error => "Error"@,
    }
}

/// The line that a run without a screen prints of an event: log lines go to stdout, everything
/// else only to the report.
pub open spec fn event_text(event: Event, second: u64) -> Option<Seq<char>> {
    match event {
        Event::Log { level, message } => Some(line_start(second) + level_name(level) + ": "@ + message@),
        _ => None,
    }
}

/// The line that a run without a screen prints of an event.
pub fn event_line(app: &App, event: &Event, now: u64) -> (r: Option<String>)
    ensures
        r.deep_view() == event_text(*event, elapsed(app.deep_view().started, now)),
{
    match event {
        Event::Log { level, message } => {
            let mut out = line_head(app.elapsed_seconds(now));
            out.append(
                match level {
                    LogLevel::Debug => "Debug",
                    LogLevel::Info => "Info",
                    LogLevel::Warn => "Warn",
                    LogLevel::Error => "Error",
                },
            );
            out.append(": ");
            out.append(message.as_str());
            Some(out)
        },
        _ => None,
    }
}

/// Takes an event into a run without a screen, which closes when the scenario says that it ended.
pub fn receive_headless(app: &mut App, event: Event, now: u64) -> (r: Step)
    ensures
        final(app).deep_view() == applied(old(app).deep_view(), event, now),
        r == (if finished(final(app).deep_view().status) {
            Step::Leave
        } else {
            Step::Stay
        }),
{
    app.apply(event, now);
    if app.is_finished() {
        Step::Leave
    } else {
        Step::Stay
    }
}

/// What is left of a run.
pub struct RunOutcome {
    pub summary: RunSummary,
    pub summary_path: String,
    pub markdown_path: String,
    pub events_path: String,
    /// The user pressed q while the scenario was still running.
    pub user_quit: bool,
}

/// Sums up a run that has ended.
pub fn close(
    app: &App,
    started_at: Stamp,
    now: u64,
    summary_path: String,
    markdown_path: String,
    events_path: String,
    user_quit: bool,
) -> (r: RunOutcome)
    ensures
        r.summary.deep_view() == run_summary(app.deep_view(), started_text(started_at), now),
        coherent(app.deep_view().store) ==> phases_in_time(r.summary.deep_view().phases),
        r.summary_path == summary_path,
        r.markdown_path == markdown_path,
        r.events_path == events_path,
        r.user_quit == user_quit,
{
    proof {
        if coherent(app.deep_view().store) {
            phases_of_a_store_are_in_time(app.deep_view().store);
        }
    }
    RunOutcome { summary: summarise(app, started_at, now), summary_path, markdown_path, events_path, user_quit }
}

} // verus!
