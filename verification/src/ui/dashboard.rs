//! The screen of a run in progress.

use vstd::prelude::*;
use crate::app::{app_verdicts, elapsed, finished, App, AppModel, LogLine, LogModel, RunStatus, StatusModel};
use crate::doc::{count_ink, ink, Doc, Glyph};
use crate::metrics::MetricModel;
use crate::protocol::{LogLevel, MetricKind};
use crate::sorted::lookup;
use crate::store::{coherent, MetricStore, StoreModel};
use crate::text::{decimal, padded, padded_decimal};
use crate::ui::{
    bold_style, entry, entry_of, in_color, in_colors, plain_style, put, span, span_of, Color, Entry, EntryModel, Span,
    SpanModel, Style,
};
use crate::verdict::{VerdictsModel, Verdicts};

verus! {

/// The rows that the log pane gets on a screen of some height.
pub open spec fn log_rows(show_logs: bool, height: u16) -> u16 {
    if show_logs && height / 4 > 3 {
        height / 4
    } else {
        3
    }
}

pub fn log_height(show_logs: bool, height: u16) -> (r: u16)
    ensures
        r == log_rows(show_logs, height),
{
    if show_logs && height / 4 > 3 {
        height / 4
    } else {
        3
    }
}

/// The status as a badge.
pub open spec fn status_badge(status: StatusModel) -> SpanModel {
    match status {
        StatusModel::Starting => span_of(" STARTING "@, in_colors(Color::Black, Color::Yellow)),
        StatusModel::Running => span_of(" RUNNING "@, in_colors(Color::Black, Color::Green)),
        StatusModel::Stopping => span_of(" STOPPING "@, in_colors(Color::Black, Color::Yellow)),
        StatusModel::Done => span_of(" DONE "@, in_colors(Color::Black, Color::Cyan)),
        StatusModel::Failed(_) => span_of(" FAILED "@, in_colors(Color::White, Color::Red)),
    }
}

pub fn status_span(status: &RunStatus) -> (r: Span)
    ensures
        r.deep_view() == status_badge(status.deep_view()),
{
    let (text, fg, bg): (&str, Color, Color) = match status {
        RunStatus::Starting => (" STARTING ", Color::Black, Color::Yellow),
        RunStatus::Running => (" RUNNING ", Color::Black, Color::Green),
        RunStatus::Stopping => (" STOPPING ", Color::Black, Color::Yellow),
        RunStatus::Done => (" DONE ", Color::Black, Color::Cyan),
        RunStatus::Failed(_) => (" FAILED ", Color::White, Color::Red),
    };
    span(text, Style { fg: Some(fg), bg: Some(bg), bold: false })
}

/// Two decimal digits at least.
pub open spec fn two_digits(n: u64) -> Seq<Glyph> {
    ink(padded(decimal(n as nat), 2, '0'))
}

/// Some seconds as hours, minutes and seconds.
pub open spec fn clock(seconds: u64) -> Seq<Glyph> {
    two_digits(seconds / 3600) + ink(":"@) + two_digits((seconds / 60) % 60) + ink(":"@) + two_digits(seconds % 60)
}

fn clock_doc(seconds: u64) -> (r: Doc)
    ensures
        r@ == clock(seconds),
{
    let mut out = Doc::of(padded_decimal(seconds / 3600, 2, '0').as_str());
    out.text(":");
    out.text(padded_decimal((seconds / 60) % 60, 2, '0').as_str());
    out.text(":");
    out.text(padded_decimal(seconds % 60, 2, '0').as_str());
    out
}

/// The name of the phase that began last, or a dash.
pub open spec fn phase_name(s: StoreModel) -> Seq<char> {
    if s.phases.len() == 0 {
        "-"@
    } else {
        s.phases.last().name
    }
}

/// The name of the phase that began last, or a dash.
pub fn phase_or_dash(store: &MetricStore) -> (r: &str)
    ensures
        r@ == phase_name(store.deep_view()),
{
    match store.current_phase() {
        Some(name) => name,
        None => "-",
    }
}

/// The verdict so far as a badge, and the ceiling behind it.
pub open spec fn verdict_spans(v: VerdictsModel) -> Seq<SpanModel> {
    match v.overall {
        None => Seq::empty(),
        Some(o) => {
            let badge = match o.pass {
                Some(true) => span_of(" PASS "@, in_colors(Color::Black, Color::Green)),
                Some(false) => span_of(" FAIL "@, in_colors(Color::Black, Color::Red)),
                None => span_of(" n/a "@, in_colors(Color::Black, Color::DarkGray)),
            };
            let line = Seq::empty().push(span_of("  "@, plain_style())).push(badge);
            match v.ceiling {
                Some(c) => line.push(SpanModel { text: ink(" ceiling "@) + ink(c), style: in_color(Color::Green) }),
                None => line,
            }
        },
    }
}

/// The first line of the screen.
pub open spec fn header_spans(a: AppModel, now: u64) -> Seq<SpanModel> {
    Seq::empty().push(status_badge(a.status)).push(span_of("  "@, plain_style())).push(
        span_of(a.run_name, bold_style()),
    ).push(
        SpanModel {
            text: ink("  scenario "@) + ink(a.scenario_id) + ink("  phase "@),
            style: plain_style(),
        },
    ).push(span_of(phase_name(a.store), in_color(Color::Magenta))).push(
        SpanModel {
            text: ink("  elapsed "@) + clock(elapsed(a.started, now)) + ink("  events "@) + count_ink(a.events_seen),
            style: plain_style(),
        },
    ) + verdict_spans(app_verdicts(a))
}

fn put_verdict(line: &mut Vec<Span>, v: &Verdicts)
    ensures
        final(line).deep_view() == old(line).deep_view() + verdict_spans(v.deep_view()),
{
    let ghost before = line.deep_view();
    if let Some(o) = &v.overall {
        put(line, span("  ", Style { fg: None, bg: None, bold: false }));
        let (text, bg): (&str, Color) = match o.pass {
            Some(true) => (" PASS ", Color::Green),
            Some(false) => (" FAIL ", Color::Red),
            None => (" n/a ", Color::DarkGray),
        };
        put(line, span(text, Style { fg: Some(Color::Black), bg: Some(bg), bold: false }));
        if let Some(c) = &v.ceiling {
            let mut text = Doc::of(" ceiling ");
            text.text(c.as_str());
            put(line, Span { text, style: Style { fg: Some(Color::Green), bg: None, bold: false } });
        }
    }
    assert(line.deep_view() =~= before + verdict_spans(v.deep_view()));
}

/// The first line of the screen.
pub fn header(app: &App, now: u64) -> (r: Vec<Span>)
    ensures
        r.deep_view() == header_spans(app.deep_view(), now),
{
    let plain = Style { fg: None, bg: None, bold: false };
    let mut line: Vec<Span> = Vec::new();
    assert(line.deep_view() =~= Seq::<SpanModel>::empty());
    put(&mut line, status_span(&app.status));
    put(&mut line, span("  ", plain));
    put(&mut line, span(app.run_name.as_str(), Style { fg: None, bg: None, bold: true }));
    let mut scenario = Doc::of("  scenario ");
    scenario.text(app.scenario_id.as_str());
    scenario.text("  phase ");
    put(&mut line, Span { text: scenario, style: plain });
    put(&mut line, span(phase_or_dash(&app.store), Style { fg: Some(Color::Magenta), bg: None, bold: false }));
    let mut times = Doc::of("  elapsed ");
    times.append(&clock_doc(app.elapsed_seconds(now)));
    times.text("  events ");
    times.count(app.events_seen);
    put(&mut line, Span { text: times, style: plain });
    put_verdict(&mut line, &app.verdicts());
    line
}

/// The keys that work; a finished run cannot be stopped.
pub open spec fn help_text(status: StatusModel) -> SpanModel {
    span_of(
        if finished(status) {
            "q quit   ↑↓ metric   tab live/phases   l logs"@
        } else {
            "s stop scenario   q quit   ↑↓ metric   tab live/phases   l logs"@
        },
        in_color(Color::DarkGray),
    )
}

pub fn help(app: &App) -> (r: Span)
    ensures
        r.deep_view() == help_text(app.deep_view().status),
{
    let text: &str = if app.is_finished() {
        "q quit   ↑↓ metric   tab live/phases   l logs"
    } else {
        "s stop scenario   q quit   ↑↓ metric   tab live/phases   l logs"
    };
    span(text, Style { fg: Some(Color::DarkGray), bg: None, bold: false })
}

pub open spec fn kind_sign(kind: MetricKind) -> Seq<char> {
    match kind {
        MetricKind::Counter => "Σ"@,
        MetricKind::Gauge => "≈"@,
        MetricKind::Histogram => "⧗"@,
    }
}

/// The entry of a metric: its kind and name, and its headline.
pub open spec fn metric_entry(name: Seq<char>, m: MetricModel, chosen: bool) -> EntryModel {
    entry_of(
        ink(kind_sign(m.spec.kind)) + ink(" "@) + ink(name),
        ink("   "@) + crate::metrics::headline_ink(m),
        chosen,
    )
}

/// The metrics in the order of their declaration.
pub open spec fn metric_entries(a: AppModel) -> Seq<EntryModel> {
    Seq::new(
        a.store.order.len(),
        |i: int| metric_entry(a.store.order[i], lookup(a.store.metrics, a.store.order[i])->0, i == a.selected),
    )
}

pub fn metric_list(app: &App) -> (r: Vec<Entry>)
    requires
        coherent(app.deep_view().store),
    ensures
        r.deep_view() == metric_entries(app.deep_view()),
{
    let ghost a = app.deep_view();
    let names = app.store.names();
    let mut out: Vec<Entry> = Vec::new();
    let mut i: usize = 0;
    while i < names.len()
        invariant
            i <= names@.len(),
            a == app.deep_view(),
            coherent(a.store),
            names.deep_view() == a.store.order,
            out@.len() == i,
            forall|j: int| 0 <= j < i ==> (#[trigger] out@[j]).deep_view() == metric_entries(a)[j],
        decreases names@.len() - i,
    {
        let name = names[i].as_str();
        assert(name@ == a.store.order[i as int]);
        assert(a.store.order.contains(name@));
        let m = app.store.get(name).unwrap();
        let mut title = Doc::of(
            match m.spec.kind {
                MetricKind::Counter => "Σ",
                MetricKind::Gauge => "≈",
                MetricKind::Histogram => "⧗",
            },
        );
        title.text(" ");
        title.text(name);
        let mut detail = Doc::of("   ");
        detail.append(&m.headline());
        out.push(entry(title, detail, i == app.selected));
        i = i + 1;
    }
    assert(out.deep_view() =~= metric_entries(a));
    out
}

pub open spec fn level_color(level: LogLevel) -> Color {
    match level {
        LogLevel::Debug => Color::DarkGray,
        LogLevel::Info => Color::Gray,
        LogLevel::Warn => Color::Yellow,
        LogLevel::Error => Color::Red,
    }
}

/// A second, right-aligned to five columns.
pub open spec fn second_column(second: u64) -> Seq<char> {
    padded(decimal(second as nat), 5, ' ') + "s "@
}

/// A log line: its second and its message.
pub open spec fn log_entry(l: LogModel) -> Seq<SpanModel> {
    Seq::empty().push(span_of(second_column(l.second), in_color(Color::DarkGray))).push(
        span_of(l.message, in_color(level_color(l.level))),
    )
}

/// How many of the log lines a pane with some rows shows.
pub open spec fn shown_lines(lines: nat, height: u16) -> nat {
    let room: nat = if height > 3 {
        (height - 2) as nat
    } else {
        1
    };
    if lines < room {
        lines
    } else {
        room
    }
}

/// The last log lines, as many as the pane shows.
pub open spec fn log_entries(logs: Seq<LogModel>, height: u16) -> Seq<Seq<SpanModel>> {
    let k = shown_lines(logs.len(), height) as int;
    Seq::new(k as nat, |i: int| log_entry(logs[logs.len() - k + i]))
}

fn log_spans(l: &LogLine) -> (r: Vec<Span>)
    ensures
        r.deep_view() == log_entry(l.deep_view()),
{
    let mut second = padded_decimal(l.second, 5, ' ');
    second.append("s ");
    let color: Color = match l.level {
        LogLevel::Debug => Color::DarkGray,
        LogLevel::Info => Color::Gray,
        LogLevel::Warn => Color::Yellow,
        LogLevel::Error => Color::Red,
    };
    let mut line: Vec<Span> = Vec::new();
    assert(line.deep_view() =~= Seq::<SpanModel>::empty());
    put(&mut line, span(second.as_str(), Style { fg: Some(Color::DarkGray), bg: None, bold: false }));
    put(&mut line, span(l.message.as_str(), Style { fg: Some(color), bg: None, bold: false }));
    line
}

/// The last log lines, as many as a pane of some height shows.
pub fn log_pane(app: &App, height: u16) -> (r: Vec<Vec<Span>>)
    ensures
        r.deep_view() == log_entries(app.deep_view().logs, height),
{
    let ghost logs = app.deep_view().logs;
    let n: usize = app.logs.len();
    let room: usize = if height > 3 {
        (height - 2) as usize
    } else {
        1
    };
    let k: usize = if n < room {
        n
    } else {
        room
    };
    let mut out: Vec<Vec<Span>> = Vec::new();
    let mut i: usize = 0;
    while i < k
        invariant
            i <= k <= n,
            n == logs.len(),
            logs == app.deep_view().logs,
            k == shown_lines(logs.len(), height),
            out@.len() == i,
            forall|j: int| 0 <= j < i ==> (#[trigger] out@[j]).deep_view() == log_entries(logs, height)[j],
        decreases k - i,
    {
        let line = log_spans(&app.logs[n - k + i]);
        assert(line.deep_view() == log_entries(logs, height)[i as int]);
        out.push(line);
        i = i + 1;
    }
    assert(out.deep_view() =~= log_entries(logs, height));
    out
}

} // verus!
