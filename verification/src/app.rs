//! Dashboard state: a reducer over scenario events plus view selection.
//!
//! Time is passed in, as milliseconds of a clock that does not run backwards.

use vstd::prelude::*;
use std::collections::VecDeque;
use serde_json::Value;
use crate::json::{json_null, json_text};
use crate::protocol::{Event, LogLevel, MetricSpec};
use crate::store::{
    advanced, all_declared, all_observed, coherent, empty_store, observed, overall, phase_begun, summaries, MetricStore,
    StoreModel,
};
use crate::verdict::{evaluate, evaluated, Threshold, ThresholdModel, Verdicts, VerdictsModel};

verus! {

/// The number of log lines that are kept.
pub const LOG_CAPACITY: usize = 500;

#[derive(Clone, Debug)]
pub enum RunStatus {
    Starting,
    Running,
    Stopping,
    Done,
    Failed(String),
}

pub enum StatusModel {
    Starting,
    Running,
    Stopping,
    Done,
    Failed(Seq<char>),
}

impl DeepView for RunStatus {
    type V = StatusModel;

    open spec fn deep_view(&self) -> StatusModel {
        match self {
            RunStatus::Starting => StatusModel::Starting,
            RunStatus::Running => StatusModel::Running,
            RunStatus::Stopping => StatusModel::Stopping,
            RunStatus::Done => StatusModel::Done,
            RunStatus::Failed(m) => StatusModel::Failed(m@),
        }
    }
}

#[derive(Clone, Debug)]
pub struct LogLine {
    pub second: u64,
    pub level: LogLevel,
    pub message: String,
}

pub struct LogModel {
    pub second: u64,
    pub level: LogLevel,
    pub message: Seq<char>,
}

impl DeepView for LogLine {
    type V = LogModel;

    open spec fn deep_view(&self) -> LogModel {
        LogModel { second: self.second, level: self.level, message: self.message@ }
    }
}

/// Which of its two pages the dashboard shows.
#[derive(Clone, Copy, Debug, PartialEq, Eq, Structural)]
pub enum Pane {
    Live,
    Phases,
}

pub struct App {
    pub run_name: String,
    pub scenario_id: String,
    /// When the run started, in milliseconds of the clock.
    pub started: u64,
    pub status: RunStatus,
    pub store: MetricStore,
    pub logs: VecDeque<LogLine>,
    pub selected: usize,
    pub view: Pane,
    pub show_logs: bool,
    pub summary: Value,
    pub events_seen: u64,
    pub chart_window_seconds: u64,
    pub thresholds: Vec<Threshold>,
    pub description: Option<String>,
}

#[verifier::ext_equal]
pub struct AppModel {
    pub run_name: Seq<char>,
    pub scenario_id: Seq<char>,
    pub started: u64,
    pub status: StatusModel,
    pub store: StoreModel,
    pub logs: Seq<LogModel>,
    pub selected: usize,
    pub view: Pane,
    pub show_logs: bool,
    pub summary: Value,
    pub events_seen: u64,
    pub chart_window_seconds: u64,
    pub thresholds: Seq<ThresholdModel>,
    pub description: Option<Seq<char>>,
}

impl DeepView for App {
    type V = AppModel;

    open spec fn deep_view(&self) -> AppModel {
        AppModel {
            run_name: self.run_name@,
            scenario_id: self.scenario_id@,
            started: self.started,
            status: self.status.deep_view(),
            store: self.store.deep_view(),
            logs: self.logs.deep_view(),
            selected: self.selected,
            view: self.view,
            show_logs: self.show_logs,
            summary: self.summary,
            events_seen: self.events_seen,
            chart_window_seconds: self.chart_window_seconds,
            thresholds: self.thresholds.deep_view(),
            description: self.description.deep_view(),
        }
    }
}

/// The whole seconds since the start.
pub open spec fn elapsed(started: u64, now: u64) -> u64 {
    if now > started {
        ((now - started) / 1000) as u64
    } else {
        0
    }
}

/// A line added to the log; a full log loses its oldest line.
pub open spec fn logged(logs: Seq<LogModel>, line: LogModel) -> Seq<LogModel> {
    (if logs.len() == LOG_CAPACITY {
        logs.drop_first()
    } else {
        logs
    }).push(line)
}

/// A message added to the log at a time.
pub open spec fn with_log(a: AppModel, level: LogLevel, message: Seq<char>, now: u64) -> AppModel {
    AppModel { logs: logged(a.logs, LogModel { second: elapsed(a.started, now), level, message }), ..a }
}

/// The buckets closed up to a time.
pub open spec fn ticked(a: AppModel, now: u64) -> AppModel {
    AppModel { store: advanced(a.store, elapsed(a.started, now)), ..a }
}

/// The first sign of life turns a starting run into a running one.
pub open spec fn woken(status: StatusModel) -> StatusModel {
    match status {
        StatusModel::Starting => StatusModel::Running,
        _ => status,
    }
}

/// One event taken in, on a clock that has been brought up to date and counted.
pub open spec fn reduced(a: AppModel, event: Event, now: u64) -> AppModel {
    match event {
        Event::Hello { scenario, metrics, .. } => AppModel {
            scenario_id: scenario@,
            store: all_declared(a.store, metrics.deep_view()),
            status: StatusModel::Running,
            ..a
        },
        Event::Phase { name } => {
            let b = AppModel { store: phase_begun(a.store, name@), status: woken(a.status), ..a };
            with_log(b, LogLevel::Info, "phase: "@ + name@, now)
        },
        Event::Observe(o) => AppModel {
            store: observed(a.store, o.deep_view()),
            status: woken(a.status),
            ..a
        },
        Event::Batch { observations } => AppModel {
            store: all_observed(a.store, observations.deep_view()),
            status: woken(a.status),
            ..a
        },
        Event::Log { level, message } => with_log(a, level, message@, now),
        Event::Done { summary } => with_log(
            AppModel { summary, status: StatusModel::Done, ..a },
            LogLevel::Info,
            "scenario finished"@,
            now,
        ),
        Event::Error { message } => with_log(
            AppModel { status: StatusModel::Failed(message@), ..a },
            LogLevel::Error,
            message@,
            now,
        ),
    }
}

/// One event taken in.
pub open spec fn applied(a: AppModel, event: Event, now: u64) -> AppModel {
    let t = ticked(a, now);
    let seen = if t.events_seen < u64::MAX {
        (t.events_seen + 1) as u64
    } else {
        t.events_seen
    };
    reduced(AppModel { events_seen: seen, ..t }, event, now)
}

pub open spec fn finished(status: StatusModel) -> bool {
    status is Done || status is Failed
}

impl App {
    pub fn new(
        run_name: &str,
        scenario_id: &str,
        metrics: Vec<MetricSpec>,
        chart_window_seconds: u64,
        thresholds: Vec<Threshold>,
        description: Option<String>,
        now: u64,
    ) -> (r: App)
        ensures
            json_text(r.summary) == "null"@,
            coherent(r.deep_view().store),
            r.deep_view() == (AppModel {
                run_name: run_name@,
                scenario_id: scenario_id@,
                started: now,
                status: StatusModel::Starting,
                store: all_declared(empty_store(), metrics.deep_view()),
                logs: Seq::empty(),
                selected: 0,
                view: Pane::Live,
                show_logs: true,
                summary: r.summary,
                events_seen: 0,
                chart_window_seconds,
                thresholds: thresholds.deep_view(),
                description: description.deep_view(),
            }),
    {
        let logs: VecDeque<LogLine> = VecDeque::with_capacity(LOG_CAPACITY);
        assert(logs.deep_view() =~= Seq::<LogModel>::empty());
        App {
            run_name: run_name.to_owned(),
            scenario_id: scenario_id.to_owned(),
            started: now,
            status: RunStatus::Starting,
            store: MetricStore::new(metrics),
            logs,
            selected: 0,
            view: Pane::Live,
            show_logs: true,
            summary: json_null(),
            events_seen: 0,
            chart_window_seconds,
            thresholds,
            description,
        }
    }

    pub fn elapsed_seconds(&self, now: u64) -> (r: u64)
        ensures
            r == elapsed(self.started, now),
    {
        if now > self.started {
            (now - self.started) / 1000
        } else {
            0
        }
    }

    /// Called on every UI tick so buckets close even when no events arrive.
    pub fn tick(&mut self, now: u64)
        ensures
            final(self).deep_view() == ticked(old(self).deep_view(), now),
            coherent(old(self).deep_view().store) ==> coherent(final(self).deep_view().store),
    {
        let second: u64 = self.elapsed_seconds(now);
        self.store.advance_to(second);
    }

    fn wake(&mut self)
        ensures
            final(self).deep_view() == (AppModel { status: woken(old(self).deep_view().status), ..old(self).deep_view() }),
    {
        if let RunStatus::Starting = self.status {
            self.status = RunStatus::Running;
        }
    }

    pub fn apply(&mut self, event: Event, now: u64)
        ensures
            final(self).deep_view() == applied(old(self).deep_view(), event, now),
            coherent(old(self).deep_view().store) ==> coherent(final(self).deep_view().store),
    {
        self.tick(now);
        if self.events_seen < u64::MAX {
            self.events_seen = self.events_seen + 1;
        }
        match event {
            Event::Hello { scenario, metrics, .. } => {
                self.scenario_id = scenario;
                self.store.declare_all(&metrics);
                self.status = RunStatus::Running;
            },
            Event::Phase { name } => {
                self.store.begin_phase(name.as_str());
                let mut message = "phase: ".to_owned();
                message.append(name.as_str());
                self.push_log(LogLevel::Info, message, now);
                self.wake();
            },
            Event::Observe(o) => {
                self.store.record(&o);
                self.wake();
            },
            Event::Batch { observations } => {
                self.store.record_all(&observations);
                self.wake();
            },
            Event::Log { level, message } => self.push_log(level, message, now),
            Event::Done { summary } => {
                self.summary = summary;
                self.status = RunStatus::Done;
                self.push_log(LogLevel::Info, "scenario finished".to_owned(), now);
            },
            Event::Error { message } => {
                self.push_log(LogLevel::Error, message.clone(), now);
                self.status = RunStatus::Failed(message);
            },
        }
    }

    pub fn push_log(&mut self, level: LogLevel, message: String, now: u64)
        ensures
            final(self).deep_view() == with_log(old(self).deep_view(), level, message@, now),
    {
        let ghost before = self.logs.deep_view();
        if self.logs.len() == LOG_CAPACITY {
            let _oldest = self.logs.pop_front();
            assert(self.logs.deep_view() =~= before.drop_first());
        }
        let second: u64 = self.elapsed_seconds(now);
        let line = LogLine { second, level, message };
        let ghost here = self.logs.deep_view();
        let ghost model = line.deep_view();
        self.logs.push_back(line);
        assert(self.logs.deep_view() =~= here.push(model));
    }

    /// Selects the next metric, the first one after the last.
    pub fn select_next(&mut self)
        ensures
            final(self).deep_view() == selected_next(old(self).deep_view()),
    {
        let n: usize = self.store.names().len();
        proof {
            assert(n == self.deep_view().store.order.len());
        }
        if n > 0 {
            let at: usize = self.selected % n;
            self.selected = if at + 1 == n {
                0
            } else {
                at + 1
            };
            proof {
                lemma_next(old(self).selected as int, n as int);
            }
        }
    }

    /// Selects the previous metric, the last one before the first.
    pub fn select_prev(&mut self)
        ensures
            final(self).deep_view() == selected_prev(old(self).deep_view()),
    {
        let n: usize = self.store.names().len();
        proof {
            assert(n == self.deep_view().store.order.len());
        }
        if n > 0 {
            let at: usize = self.selected % n;
            self.selected = if at == 0 {
                n - 1
            } else {
                at - 1
            };
            proof {
                lemma_prev(old(self).selected as int, n as int);
            }
        }
    }

    /// The name of the selected metric.
    pub fn selected_metric(&self) -> (r: Option<&str>)
        ensures
            match r {
                Some(name) => self.selected < self.deep_view().store.order.len() && name@
                    == self.deep_view().store.order[self.selected as int],
                None => self.selected >= self.deep_view().store.order.len(),
            },
    {
        let names = self.store.names();
        if self.selected < names.len() {
            Some(names[self.selected].as_str())
        } else {
            None
        }
    }

    pub fn verdicts(&self) -> (r: Verdicts)
        ensures
            r.deep_view() == app_verdicts(self.deep_view()),
    {
        let phases = self.store.phase_summaries();
        evaluate(
            self.thresholds.as_slice(),
            &self.store.overall_summary(),
            phases.as_slice(),
            self.store.current_second(),
        )
    }

    pub fn is_finished(&self) -> (r: bool)
        ensures
            r == finished(self.deep_view().status),
    {
        match self.status {
            RunStatus::Done => true,
            RunStatus::Failed(_) => true,
            _ => false,
        }
    }
}

/// The verdicts on what was recorded so far.
pub open spec fn app_verdicts(a: AppModel) -> VerdictsModel {
    evaluated(a.thresholds, overall(a.store), summaries(a.store.phases), a.store.current_second)
}

pub open spec fn selected_next(a: AppModel) -> AppModel {
    let n = a.store.order.len() as int;
    if n == 0 {
        a
    } else {
        AppModel { selected: ((a.selected + 1) % n) as usize, ..a }
    }
}

pub open spec fn selected_prev(a: AppModel) -> AppModel {
    let n = a.store.order.len() as int;
    if n == 0 {
        a
    } else {
        AppModel { selected: ((a.selected + n - 1) % n) as usize, ..a }
    }
}

proof fn lemma_next(s: int, n: int)
    requires
        s >= 0,
        n > 0,
    ensures
        (s + 1) % n == (if s % n + 1 == n { 0 } else { s % n + 1 }),
{
    let q = s / n;
    let r = s % n;
    assert(s == q * n + r && 0 <= r < n) by (nonlinear_arith)
        requires
            q == s / n,
            r == s % n,
            n > 0,
    ;
    if r + 1 == n {
        assert(s + 1 == (q + 1) * n + 0) by (nonlinear_arith)
            requires
                s == q * n + r,
                r + 1 == n,
        ;
        vstd::arithmetic::div_mod::lemma_fundamental_div_mod_converse(s + 1, n, q + 1, 0);
    } else {
        vstd::arithmetic::div_mod::lemma_fundamental_div_mod_converse(s + 1, n, q, r + 1);
    }
}

proof fn lemma_prev(s: int, n: int)
    requires
        s >= 0,
        n > 0,
    ensures
        (s + n - 1) % n == (if s % n == 0 { n - 1 } else { s % n - 1 }),
{
    let q = s / n;
    let r = s % n;
    assert(s == q * n + r && 0 <= r < n) by (nonlinear_arith)
        requires
            q == s / n,
            r == s % n,
            n > 0,
    ;
    if r == 0 {
        vstd::arithmetic::div_mod::lemma_fundamental_div_mod_converse(s + n - 1, n, q, n - 1);
    } else {
        assert(s + n - 1 == (q + 1) * n + (r - 1)) by (nonlinear_arith)
            requires
                s == q * n + r,
        ;
        vstd::arithmetic::div_mod::lemma_fundamental_div_mod_converse(s + n - 1, n, q + 1, r - 1);
    }
}

} // verus!
