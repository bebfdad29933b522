//! The chart of the selected metric, and its breakdown.

use vstd::prelude::*;
use crate::app::{App, AppModel};
use crate::doc::{count_ink, fmt_num, ink, num_ink, Doc, Glyph};
use crate::metrics::{
    or_blank, or_empty, percentiles_of, Aggregate, AggregateModel, Metric, MetricModel, Percentiles, WindowPoint,
};
use crate::number::{of_nat, zero, Number};
use crate::sorted::{lookup, SortedMap};
use crate::ui::Color;

verus! {

/// The bit pattern of the number closest to 1.1.
pub const HEADROOM: u64 = 0x3ff1_9999_9999_999a;

/// The first second that the charts show.
pub open spec fn first_second(a: AppModel) -> u64 {
    if a.store.current_second >= a.chart_window_seconds {
        (a.store.current_second - a.chart_window_seconds) as u64
    } else {
        0
    }
}

pub fn window_start(app: &App) -> (r: u64)
    ensures
        r == first_second(app.deep_view()),
{
    app.store.current_second().saturating_sub(app.chart_window_seconds)
}

/// One line on the chart: legend name, colour, and points of second and value.
#[derive(Debug)]
pub struct Series {
    pub name: String,
    pub color: Color,
    pub points: Vec<(Number, Number)>,
}

pub struct SeriesModel {
    pub name: Seq<char>,
    pub color: Color,
    pub points: Seq<(Number, Number)>,
}

impl DeepView for Series {
    type V = SeriesModel;

    open spec fn deep_view(&self) -> SeriesModel {
        SeriesModel { name: self.name@, color: self.color, points: self.points@ }
    }
}

/// The buckets of a counter from second `start` on.
pub open spec fn counter_points(per_second: Seq<Number>, start: Number) -> Seq<(Number, Number)>
    decreases per_second.len(),
{
    if per_second.len() == 0 {
        Seq::empty()
    } else {
        let rest = counter_points(per_second.drop_last(), start);
        let second = of_nat((per_second.len() - 1) as nat);
        if start.at_most(second) {
            rest.push((second, per_second.last()))
        } else {
            rest
        }
    }
}

fn points_of_counter(per_second: &Vec<Number>, start: Number) -> (r: Vec<(Number, Number)>)
    ensures
        r@ == counter_points(per_second@, start),
{
    let mut out: Vec<(Number, Number)> = Vec::new();
    let mut i: usize = 0;
    assert(per_second@.take(0) =~= Seq::<Number>::empty());
    while i < per_second.len()
        invariant
            i <= per_second@.len(),
            out@ == counter_points(per_second@.take(i as int), start),
        decreases per_second@.len() - i,
    {
        proof {
            assert(per_second@.take(i + 1).drop_last() =~= per_second@.take(i as int));
        }
        let second = Number::of(i as u128);
        if start.le(second) {
            out.push((second, per_second[i]));
        }
        i = i + 1;
    }
    assert(per_second@.take(i as int) =~= per_second@);
    out
}

/// The values of a gauge from second `start` on.
pub open spec fn gauge_points(per_second: Seq<Option<Number>>, start: Number) -> Seq<(Number, Number)>
    decreases per_second.len(),
{
    if per_second.len() == 0 {
        Seq::empty()
    } else {
        let rest = gauge_points(per_second.drop_last(), start);
        let second = of_nat((per_second.len() - 1) as nat);
        match per_second.last() {
            Some(v) => if start.at_most(second) {
                rest.push((second, v))
            } else {
                rest
            },
            None => rest,
        }
    }
}

fn points_of_gauge(per_second: &Vec<Option<Number>>, start: Number) -> (r: Vec<(Number, Number)>)
    ensures
        r@ == gauge_points(per_second@, start),
{
    let mut out: Vec<(Number, Number)> = Vec::new();
    let mut i: usize = 0;
    assert(per_second@.take(0) =~= Seq::<Option<Number>>::empty());
    while i < per_second.len()
        invariant
            i <= per_second@.len(),
            out@ == gauge_points(per_second@.take(i as int), start),
        decreases per_second@.len() - i,
    {
        proof {
            assert(per_second@.take(i + 1).drop_last() =~= per_second@.take(i as int));
        }
        let second = Number::of(i as u128);
        if start.le(second) {
            if let Some(v) = per_second[i] {
                out.push((second, v));
            }
        }
        i = i + 1;
    }
    assert(per_second@.take(i as int) =~= per_second@);
    out
}

/// The percentiles that a histogram's chart shows.
#[derive(Clone, Copy, Debug, PartialEq, Eq, Structural)]
pub enum Quantile {
    P50,
    P95,
    P99,
}

pub open spec fn quantile(w: WindowPoint, q: Quantile) -> Number {
    match q {
        Quantile::P50 => w.p50,
        Quantile::P95 => w.p95,
        Quantile::P99 => w.p99,
    }
}

/// A percentile of each second of a histogram from second `start` on.
pub open spec fn window_points(windows: Seq<WindowPoint>, start: Number, q: Quantile) -> Seq<(Number, Number)>
    decreases windows.len(),
{
    if windows.len() == 0 {
        Seq::empty()
    } else {
        let rest = window_points(windows.drop_last(), start, q);
        let second = of_nat(windows.last().second as nat);
        if start.at_most(second) {
            rest.push((second, quantile(windows.last(), q)))
        } else {
            rest
        }
    }
}

fn points_of_windows(windows: &Vec<WindowPoint>, start: Number, q: Quantile) -> (r: Vec<(Number, Number)>)
    ensures
        r@ == window_points(windows@, start, q),
{
    let mut out: Vec<(Number, Number)> = Vec::new();
    let mut i: usize = 0;
    assert(windows@.take(0) =~= Seq::<WindowPoint>::empty());
    while i < windows.len()
        invariant
            i <= windows@.len(),
            out@ == window_points(windows@.take(i as int), start, q),
        decreases windows@.len() - i,
    {
        proof {
            assert(windows@.take(i + 1).drop_last() =~= windows@.take(i as int));
        }
        let w = windows[i];
        let second = Number::of(w.second as u128);
        if start.le(second) {
            let v: Number = match q {
                Quantile::P50 => w.p50,
                Quantile::P95 => w.p95,
                Quantile::P99 => w.p99,
            };
            out.push((second, v));
        }
        i = i + 1;
    }
    assert(windows@.take(i as int) =~= windows@);
    out
}

/// The lines that an aggregate draws from second `start` on.
pub open spec fn series_of(a: AggregateModel, start: Number) -> Seq<SeriesModel> {
    match a {
        AggregateModel::Counter { per_second, .. } => Seq::empty().push(
            SeriesModel { name: "per second"@, color: Color::Green, points: counter_points(per_second, start) },
        ),
        AggregateModel::Gauge { per_second, .. } => Seq::empty().push(
            SeriesModel { name: "value"@, color: Color::Cyan, points: gauge_points(per_second, start) },
        ),
        AggregateModel::Histogram { windows, .. } => Seq::empty().push(
            SeriesModel { name: "p50"@, color: Color::Green, points: window_points(windows, start, Quantile::P50) },
        ).push(
            SeriesModel { name: "p95"@, color: Color::Yellow, points: window_points(windows, start, Quantile::P95) },
        ).push(
            SeriesModel { name: "p99"@, color: Color::Red, points: window_points(windows, start, Quantile::P99) },
        ),
    }
}

fn add_series(out: &mut Vec<Series>, name: &str, color: Color, points: Vec<(Number, Number)>)
    ensures
        final(out).deep_view() == old(out).deep_view().push(SeriesModel { name: name@, color, points: points@ }),
{
    let ghost before = out.deep_view();
    let ghost model = SeriesModel { name: name@, color, points: points@ };
    out.push(Series { name: name.to_owned(), color, points });
    assert(out.deep_view() =~= before.push(model));
}

/// The lines that an aggregate draws from second `start` on.
pub fn series(a: &Aggregate, start: Number) -> (r: Vec<Series>)
    ensures
        r.deep_view() == series_of(a.deep_view(), start),
{
    let mut out: Vec<Series> = Vec::new();
    assert(out.deep_view() =~= Seq::<SeriesModel>::empty());
    match a {
        Aggregate::Counter { per_second, .. } => {
            add_series(&mut out, "per second", Color::Green, points_of_counter(per_second, start));
        },
        Aggregate::Gauge { per_second, .. } => {
            add_series(&mut out, "value", Color::Cyan, points_of_gauge(per_second, start));
        },
        Aggregate::Histogram { windows, .. } => {
            add_series(&mut out, "p50", Color::Green, points_of_windows(windows, start, Quantile::P50));
            add_series(&mut out, "p95", Color::Yellow, points_of_windows(windows, start, Quantile::P95));
            add_series(&mut out, "p99", Color::Red, points_of_windows(windows, start, Quantile::P99));
        },
    }
    out
}

/// The greatest value of some points, if it is greater than `from`.
pub open spec fn peak_of(points: Seq<(Number, Number)>, from: Number) -> Number
    decreases points.len(),
{
    if points.len() == 0 {
        from
    } else {
        peak_of(points.drop_last(), from).greater(points.last().1)
    }
}

/// The greatest value of some lines, and zero at the least.
pub open spec fn peak(lines: Seq<SeriesModel>) -> Number
    decreases lines.len(),
{
    if lines.len() == 0 {
        zero(false)
    } else {
        peak_of(lines.last().points, peak(lines.drop_last()))
    }
}

fn highest(lines: &Vec<Series>) -> (r: Number)
    ensures
        r == peak(lines.deep_view()),
{
    let ghost models = lines.deep_view();
    let mut top = Number { bits: 0 };
    let mut i: usize = 0;
    assert(models.take(0) =~= Seq::<SeriesModel>::empty());
    while i < lines.len()
        invariant
            i <= lines@.len(),
            models == lines.deep_view(),
            top == peak(models.take(i as int)),
        decreases lines@.len() - i,
    {
        let points = &lines[i].points;
        let ghost from = top;
        let mut j: usize = 0;
        assert(points@.take(0) =~= Seq::<(Number, Number)>::empty());
        while j < points.len()
            invariant
                j <= points@.len(),
                top == peak_of(points@.take(j as int), from),
            decreases points@.len() - j,
        {
            proof {
                assert(points@.take(j + 1).drop_last() =~= points@.take(j as int));
            }
            top = top.max(points[j].1);
            j = j + 1;
        }
        proof {
            assert(points@.take(j as int) =~= points@);
            assert(models.take(i + 1).drop_last() =~= models.take(i as int));
            assert(models.take(i + 1).last() == lines@[i as int].deep_view());
        }
        i = i + 1;
    }
    assert(models.take(i as int) =~= models);
    top
}

/// The top of the value axis: a tenth above the highest value, and one where nothing is above
/// zero.
pub open spec fn axis_top(peak: Number) -> Number {
    if peak.at_most(zero(false)) {
        of_nat(1)
    } else {
        peak.times(Number { bits: HEADROOM })
    }
}

/// A chart: its lines, and its two axes with their bounds and labels.
#[derive(Debug)]
pub struct Chart {
    pub title: String,
    pub lines: Vec<Series>,
    pub from: Number,
    pub to: Number,
    pub second_labels: Vec<Doc>,
    pub top: Number,
    pub value_labels: Vec<Doc>,
}

pub struct ChartModel {
    pub title: Seq<char>,
    pub lines: Seq<SeriesModel>,
    pub from: Number,
    pub to: Number,
    pub second_labels: Seq<Seq<Glyph>>,
    pub top: Number,
    pub value_labels: Seq<Seq<Glyph>>,
}

impl DeepView for Chart {
    type V = ChartModel;

    open spec fn deep_view(&self) -> ChartModel {
        ChartModel {
            title: self.title@,
            lines: self.lines.deep_view(),
            from: self.from,
            to: self.to,
            second_labels: self.second_labels.deep_view(),
            top: self.top,
            value_labels: self.value_labels.deep_view(),
        }
    }
}

/// What the values of a metric are measured in, as the chart says it.
pub open spec fn value_unit(m: MetricModel) -> Seq<char> {
    match m.aggregate {
        AggregateModel::Counter { .. } => "/s"@,
        _ => or_empty(m.spec.unit),
    }
}

/// A second on the axis, without decimals.
pub open spec fn second_label(v: Number) -> Seq<Glyph> {
    seq![Glyph::Fixed(v, 0)] + ink("s"@)
}

/// The chart of a metric between two seconds.
pub open spec fn chart_of(m: MetricModel, start: u64, end: u64) -> ChartModel {
    let from = of_nat(start as nat);
    let to = of_nat(end as nat);
    let lines = series_of(m.aggregate, from);
    let top = axis_top(peak(lines));
    ChartModel {
        title: " "@ + m.spec.name + "  "@ + or_empty(m.spec.description) + " "@,
        lines,
        from,
        to,
        second_labels: seq![second_label(from), second_label(from.plus(to).over(of_nat(2))), second_label(to)],
        top,
        value_labels: seq![
            ink("0"@),
            num_ink(top.over(of_nat(2))),
            num_ink(top) + ink(" "@) + ink(value_unit(m)),
        ],
    }
}

fn second_doc(v: Number) -> (r: Doc)
    ensures
        r@ == second_label(v),
{
    let mut out = Doc::new();
    out.fixed(v, 0);
    out.text("s");
    assert(out@ =~= second_label(v));
    out
}

fn three(a: Doc, b: Doc, c: Doc) -> (r: Vec<Doc>)
    ensures
        r.deep_view() == seq![a@, b@, c@],
{
    let mut out: Vec<Doc> = Vec::new();
    out.push(a);
    out.push(b);
    out.push(c);
    assert(out.deep_view() =~= seq![a@, b@, c@]);
    out
}

/// The chart of a metric between two seconds.
pub fn chart_between(metric: &Metric, start: u64, end: u64) -> (r: Chart)
    ensures
        r.deep_view() == chart_of(metric.deep_view(), start, end),
{
    let from = Number::of(start as u128);
    let to = Number::of(end as u128);
    let lines = series(&metric.aggregate, from);
    let high = highest(&lines);
    let top: Number = if high.le(Number { bits: 0 }) {
        Number::of(1)
    } else {
        high.mul(Number { bits: HEADROOM })
    };
    let unit: &str = match &metric.aggregate {
        Aggregate::Counter { .. } => "/s",
        _ => or_blank(&metric.spec.unit),
    };
    let mut title = " ".to_owned();
    title.append(metric.spec.name.as_str());
    title.append("  ");
    title.append(or_blank(&metric.spec.description));
    title.append(" ");
    let two = Number::of(2);
    let mut highest_label = fmt_num(top);
    highest_label.text(" ");
    highest_label.text(unit);
    Chart {
        title,
        lines,
        from,
        to,
        second_labels: three(second_doc(from), second_doc(from.add(to).div(two)), second_doc(to)),
        top,
        value_labels: three(Doc::of("0"), fmt_num(top.div(two)), highest_label),
    }
}

/// The second at which the charts end: the current one, and one at the least.
pub open spec fn last_second(a: AppModel) -> u64 {
    if a.store.current_second > 1 {
        a.store.current_second
    } else {
        1
    }
}

/// The chart of a metric over the window of seconds that is shown.
pub fn chart(app: &App, metric: &Metric) -> (r: Chart)
    ensures
        r.deep_view() == chart_of(metric.deep_view(), first_second(app.deep_view()), last_second(app.deep_view())),
{
    let now: u64 = app.store.current_second();
    let end: u64 = if now > 1 {
        now
    } else {
        1
    };
    chart_between(metric, window_start(app), end)
}

/// A row of the breakdown.
#[derive(Debug)]
pub struct DetailRow {
    pub label: String,
    pub value: Doc,
}

pub struct DetailModel {
    pub label: Seq<char>,
    pub value: Seq<Glyph>,
}

impl DeepView for DetailRow {
    type V = DetailModel;

    open spec fn deep_view(&self) -> DetailModel {
        DetailModel { label: self.label@, value: self.value@ }
    }
}

/// One row for each label.
pub open spec fn sum_rows(by_label: Seq<(Seq<char>, Number)>) -> Seq<DetailModel> {
    Seq::new(by_label.len(), |i: int| DetailModel { label: by_label[i].0, value: num_ink(by_label[i].1) })
}

/// All percentiles in one row.
pub open spec fn overall_row(p: Percentiles, unit: Seq<char>) -> DetailModel {
    DetailModel {
        label: "overall"@,
        value: ink("n="@) + count_ink(p.count) + ink("  min "@) + num_ink(p.min) + ink("  p50 "@) + num_ink(p.p50)
            + ink("  p90 "@) + num_ink(p.p90) + ink("  p95 "@) + num_ink(p.p95) + ink("  p99 "@) + num_ink(p.p99)
            + ink("  max "@) + num_ink(p.max) + ink("  mean "@) + num_ink(p.mean) + ink(" "@) + ink(unit),
    }
}

/// The percentiles under one label.
pub open spec fn label_row(label: Seq<char>, p: Percentiles, unit: Seq<char>) -> DetailModel {
    DetailModel {
        label,
        value: ink("n="@) + count_ink(p.count) + ink("  p50 "@) + num_ink(p.p50) + ink("  p95 "@) + num_ink(p.p95)
            + ink("  p99 "@) + num_ink(p.p99) + ink(" "@) + ink(unit),
    }
}

/// The breakdown of a metric.
pub open spec fn detail_of(m: MetricModel) -> Seq<DetailModel> {
    match m.aggregate {
        AggregateModel::Counter { total, by_label, .. } => seq![
            DetailModel { label: "total"@, value: num_ink(total) },
        ] + sum_rows(by_label),
        AggregateModel::Gauge { last, by_label, .. } => seq![
            DetailModel { label: "last"@, value: num_ink(last) },
        ] + sum_rows(by_label),
        AggregateModel::Histogram { all, by_label, .. } => seq![overall_row(percentiles_of(all), or_empty(m.spec.unit))]
            + Seq::new(
            by_label.len(),
            |i: int| label_row(by_label[i].0, percentiles_of(by_label[i].1), or_empty(m.spec.unit)),
        ),
    }
}

fn sums_detail(label: &str, sum: Number, by_label: &SortedMap<Number>) -> (r: Vec<DetailRow>)
    ensures
        r.deep_view() == seq![DetailModel { label: label@, value: num_ink(sum) }] + sum_rows(by_label@),
{
    let ghost rows = sum_rows(by_label@);
    let mut out: Vec<DetailRow> = Vec::new();
    out.push(DetailRow { label: label.to_owned(), value: fmt_num(sum) });
    let mut i: usize = 0;
    while i < by_label.len()
        invariant
            i <= by_label@.len(),
            rows == sum_rows(by_label@),
            out@.len() == i + 1,
            out@[0].deep_view() == (DetailModel { label: label@, value: num_ink(sum) }),
            forall|j: int| 1 <= j <= i ==> (#[trigger] out@[j]).deep_view() == rows[j - 1],
        decreases by_label@.len() - i,
    {
        out.push(DetailRow { label: by_label.key(i).clone(), value: fmt_num(*by_label.value(i)) });
        i = i + 1;
    }
    assert(out.deep_view() =~= seq![DetailModel { label: label@, value: num_ink(sum) }] + rows);
    out
}

fn overall_detail(p: &Percentiles, unit: &str) -> (r: DetailRow)
    ensures
        r.deep_view() == overall_row(*p, unit@),
{
    let mut value = Doc::of("n=");
    value.count(p.count);
    value.text("  min ");
    value.append(&fmt_num(p.min));
    value.text("  p50 ");
    value.append(&fmt_num(p.p50));
    value.text("  p90 ");
    value.append(&fmt_num(p.p90));
    value.text("  p95 ");
    value.append(&fmt_num(p.p95));
    value.text("  p99 ");
    value.append(&fmt_num(p.p99));
    value.text("  max ");
    value.append(&fmt_num(p.max));
    value.text("  mean ");
    value.append(&fmt_num(p.mean));
    value.text(" ");
    value.text(unit);
    DetailRow { label: "overall".to_owned(), value }
}

fn label_detail(label: &str, p: &Percentiles, unit: &str) -> (r: DetailRow)
    ensures
        r.deep_view() == label_row(label@, *p, unit@),
{
    let mut value = Doc::of("n=");
    value.count(p.count);
    value.text("  p50 ");
    value.append(&fmt_num(p.p50));
    value.text("  p95 ");
    value.append(&fmt_num(p.p95));
    value.text("  p99 ");
    value.append(&fmt_num(p.p99));
    value.text(" ");
    value.text(unit);
    DetailRow { label: label.to_owned(), value }
}

/// The breakdown of a metric.
pub fn detail(metric: &Metric) -> (r: Vec<DetailRow>)
    ensures
        r.deep_view() == detail_of(metric.deep_view()),
{
    match &metric.aggregate {
        Aggregate::Counter { total, by_label, .. } => sums_detail("total", *total, by_label),
        Aggregate::Gauge { last, by_label, .. } => sums_detail("last", *last, by_label),
        Aggregate::Histogram { all, by_label, .. } => {
            let unit = or_blank(&metric.spec.unit);
            let ghost first = overall_row(percentiles_of(all@), unit@);
            let ghost rows = Seq::new(
                by_label@.len(),
                |i: int| label_row(by_label@[i].0, percentiles_of(by_label@[i].1), unit@),
            );
            let mut out: Vec<DetailRow> = Vec::new();
            out.push(overall_detail(&Percentiles::of_histogram(all), unit));
            let mut i: usize = 0;
            while i < by_label.len()
                invariant
                    i <= by_label@.len(),
                    rows == Seq::new(
                        by_label@.len(),
                        |i: int| label_row(by_label@[i].0, percentiles_of(by_label@[i].1), unit@),
                    ),
                    out@.len() == i + 1,
                    out@[0].deep_view() == first,
                    forall|j: int| 1 <= j <= i ==> (#[trigger] out@[j]).deep_view() == rows[j - 1],
                decreases by_label@.len() - i,
            {
                let p = Percentiles::of_histogram(by_label.value(i));
                out.push(label_detail(by_label.key(i).as_str(), &p, unit));
                i = i + 1;
            }
            assert(out.deep_view() =~= seq![first] + rows);
            out
        },
    }
}

/// What stands beside the list of metrics.
#[derive(Debug)]
pub enum LivePane {
    /// No metric is selected.
    Waiting,
    /// The selected metric is not known.
    Nothing,
    Metric { chart: Chart, detail: Vec<DetailRow> },
}

pub enum LiveModel {
    Waiting,
    Nothing,
    Metric { chart: ChartModel, detail: Seq<DetailModel> },
}

impl DeepView for LivePane {
    type V = LiveModel;

    open spec fn deep_view(&self) -> LiveModel {
        match self {
            LivePane::Waiting => LiveModel::Waiting,
            LivePane::Nothing => LiveModel::Nothing,
            LivePane::Metric { chart, detail } => LiveModel::Metric {
                chart: chart.deep_view(),
                detail: detail.deep_view(),
            },
        }
    }
}

pub open spec fn live_of(a: AppModel) -> LiveModel {
    if a.selected >= a.store.order.len() {
        LiveModel::Waiting
    } else {
        match lookup(a.store.metrics, a.store.order[a.selected as int]) {
            None => LiveModel::Nothing,
            Some(m) => LiveModel::Metric {
                chart: chart_of(m, first_second(a), last_second(a)),
                detail: detail_of(m),
            },
        }
    }
}

/// What stands beside the list of metrics: the chart and the breakdown of the selected one.
pub fn live(app: &App) -> (r: LivePane)
    ensures
        r.deep_view() == live_of(app.deep_view()),
{
    match app.selected_metric() {
        None => LivePane::Waiting,
        Some(name) => match app.store.get(name) {
            None => LivePane::Nothing,
            Some(metric) => LivePane::Metric { chart: chart(app, metric), detail: detail(metric) },
        },
    }
}

} // verus!
