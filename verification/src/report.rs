//! The summary of a run.

use vstd::prelude::*;
use serde_json::Value;
use crate::app::{app_verdicts, elapsed, App, AppModel, RunStatus, StatusModel};
use crate::json::{json_fields, json_text};
use crate::metrics::{metric_percentiles, Aggregate, AggregateModel, Metric, MetricModel, Percentiles, PhaseSummary, PhaseSummaryModel};
use crate::number::{of_nat, Number};
use crate::protocol::kind_name;
use crate::sorted::{lookup, store, Duplicate, SortedMap};
use crate::store::summaries;
use crate::text::{debug_text, quoted};
use crate::time::{started_text, Stamp};
use crate::verdict::{Threshold, ThresholdModel, Verdicts, VerdictsModel, PhaseVerdictModel};

verus! {

/// A breakdown entry: a sum, a number of recorded values, or JSON text taken as it is.
#[derive(Clone, Debug)]
pub enum LabelValue {
    Sum(Number),
    Count(u64),
    Raw(String),
}

pub enum LabelValueModel {
    Sum(Number),
    Count(u64),
    Raw(Seq<char>),
}

impl DeepView for LabelValue {
    type V = LabelValueModel;

    open spec fn deep_view(&self) -> LabelValueModel {
        match self {
            LabelValue::Sum(v) => LabelValueModel::Sum(*v),
            LabelValue::Count(n) => LabelValueModel::Count(*n),
            LabelValue::Raw(s) => LabelValueModel::Raw(s@),
        }
    }
}

#[derive(Debug)]
pub struct MetricSummary {
    pub kind: String,
    pub unit: Option<String>,
    pub total: Option<Number>,
    pub mean_rate_per_second: Option<Number>,
    pub last: Option<Number>,
    pub max: Option<Number>,
    pub percentiles: Option<Percentiles>,
    pub by_label: SortedMap<LabelValue>,
}

#[verifier::ext_equal]
pub struct MetricSummaryModel {
    pub kind: Seq<char>,
    pub unit: Option<Seq<char>>,
    pub total: Option<Number>,
    pub mean_rate_per_second: Option<Number>,
    pub last: Option<Number>,
    pub max: Option<Number>,
    pub percentiles: Option<Percentiles>,
    pub by_label: Seq<(Seq<char>, LabelValueModel)>,
}

impl DeepView for MetricSummary {
    type V = MetricSummaryModel;

    open spec fn deep_view(&self) -> MetricSummaryModel {
        MetricSummaryModel {
            kind: self.kind@,
            unit: self.unit.deep_view(),
            total: self.total,
            mean_rate_per_second: self.mean_rate_per_second,
            last: self.last,
            max: self.max,
            percentiles: self.percentiles,
            by_label: self.by_label@,
        }
    }
}

#[derive(Debug)]
pub struct RunSummary {
    pub run: String,
    pub scenario: String,
    pub description: Option<String>,
    pub started_at: String,
    pub duration_seconds: u64,
    pub status: String,
    pub metrics: SortedMap<MetricSummary>,
    pub phases: Vec<PhaseSummary>,
    pub thresholds: Vec<Threshold>,
    pub verdicts: Verdicts,
    pub scenario_summary: Value,
    pub unknown_metrics: SortedMap<u64>,
}

#[verifier::ext_equal]
pub struct RunSummaryModel {
    pub run: Seq<char>,
    pub scenario: Seq<char>,
    pub description: Option<Seq<char>>,
    pub started_at: Seq<char>,
    pub duration_seconds: u64,
    pub status: Seq<char>,
    pub metrics: Seq<(Seq<char>, MetricSummaryModel)>,
    pub phases: Seq<PhaseSummaryModel>,
    pub thresholds: Seq<ThresholdModel>,
    pub verdicts: VerdictsModel,
    /// The text of the scenario's own summary.
    pub scenario_summary: Seq<char>,
    pub unknown_metrics: Seq<(Seq<char>, u64)>,
}

impl DeepView for RunSummary {
    type V = RunSummaryModel;

    open spec fn deep_view(&self) -> RunSummaryModel {
        RunSummaryModel {
            run: self.run@,
            scenario: self.scenario@,
            description: self.description.deep_view(),
            started_at: self.started_at@,
            duration_seconds: self.duration_seconds,
            status: self.status@,
            metrics: self.metrics@,
            phases: self.phases.deep_view(),
            thresholds: self.thresholds.deep_view(),
            verdicts: self.verdicts.deep_view(),
            scenario_summary: json_text(self.scenario_summary),
            unknown_metrics: self.unknown_metrics@,
        }
    }
}

/// The greatest sample of a gauge, where it has one.
pub open spec fn greatest_sample(per_second: Seq<Option<Number>>) -> Option<Number>
    decreases per_second.len(),
{
    if per_second.len() == 0 {
        None
    } else {
        let rest = greatest_sample(per_second.drop_last());
        match per_second.last() {
            Some(v) => Some(
                match rest {
                    Some(a) => a.greater(v),
                    None => v,
                },
            ),
            None => rest,
        }
    }
}

fn max_sample(per_second: &Vec<Option<Number>>) -> (r: Option<Number>)
    ensures
        r == greatest_sample(per_second@),
{
    let mut max: Option<Number> = None;
    let mut i: usize = 0;
    while i < per_second.len()
        invariant
            i <= per_second@.len(),
            max == greatest_sample(per_second@.take(i as int)),
        decreases per_second@.len() - i,
    {
        assert(per_second@.take(i + 1).drop_last() =~= per_second@.take(i as int));
        if let Some(v) = per_second[i] {
            max = Some(
                match max {
                    Some(a) => a.max(v),
                    None => v,
                },
            );
        }
        i = i + 1;
    }
    assert(per_second@.take(i as int) =~= per_second@);
    max
}

/// The sums of a breakdown.
pub open spec fn sum_values(m: Seq<(Seq<char>, Number)>) -> Seq<(Seq<char>, LabelValueModel)> {
    Seq::new(m.len(), |i: int| (m[i].0, LabelValueModel::Sum(m[i].1)))
}

fn sums(m: &SortedMap<Number>) -> (r: SortedMap<LabelValue>)
    ensures
        r@ == sum_values(m@),
{
    let mut values: Vec<LabelValue> = Vec::new();
    let mut i: usize = 0;
    while i < m.len()
        invariant
            i <= m@.len(),
            values@.len() == i,
            forall|j: int| 0 <= j < i ==> (#[trigger] values@[j]).deep_view() == LabelValueModel::Sum(m@[j].1),
        decreases m@.len() - i,
    {
        values.push(LabelValue::Sum(*m.value(i)));
        i = i + 1;
    }
    let r = m.with_values(values);
    assert(r@ =~= sum_values(m@));
    r
}

/// The numbers of recorded values of a breakdown.
pub open spec fn count_values(m: Seq<(Seq<char>, vstd::multiset::Multiset<u64>)>) -> Seq<(Seq<char>, LabelValueModel)> {
    Seq::new(m.len(), |i: int| (m[i].0, LabelValueModel::Count(m[i].1.len() as u64)))
}

fn counts(m: &SortedMap<crate::hist::Hist>) -> (r: SortedMap<LabelValue>)
    ensures
        r@ == count_values(m@),
{
    let mut values: Vec<LabelValue> = Vec::new();
    let mut i: usize = 0;
    while i < m.len()
        invariant
            i <= m@.len(),
            values@.len() == i,
            forall|j: int|
                0 <= j < i ==> (#[trigger] values@[j]).deep_view() == LabelValueModel::Count(m@[j].1.len() as u64),
        decreases m@.len() - i,
    {
        values.push(LabelValue::Count(m.value(i).len()));
        i = i + 1;
    }
    let r = m.with_values(values);
    assert(r@ =~= count_values(m@));
    r
}

/// What a metric comes to over a run of so many seconds.
pub open spec fn metric_summary(m: MetricModel, seconds: u64) -> MetricSummaryModel {
    let blank = MetricSummaryModel {
        kind: kind_name(m.spec.kind),
        unit: m.spec.unit,
        total: None,
        mean_rate_per_second: None,
        last: None,
        max: None,
        percentiles: None,
        by_label: Seq::empty(),
    };
    match m.aggregate {
        AggregateModel::Counter { total, by_label, .. } => MetricSummaryModel {
            total: Some(total),
            mean_rate_per_second: Some(total.over(of_nat(seconds as nat))),
            by_label: sum_values(by_label),
            ..blank
        },
        AggregateModel::Gauge { last, per_second, by_label } => MetricSummaryModel {
            last: Some(last),
            max: greatest_sample(per_second),
            by_label: sum_values(by_label),
            ..blank
        },
        AggregateModel::Histogram { by_label, .. } => MetricSummaryModel {
            percentiles: metric_percentiles(m.aggregate),
            by_label: count_values(by_label),
            ..blank
        },
    }
}

pub fn summarise_metric(m: &Metric, seconds: u64) -> (r: MetricSummary)
    ensures
        r.deep_view() == metric_summary(m.deep_view(), seconds),
{
    let kind = m.spec.kind.name();
    let unit = m.spec.unit.duplicate();
    match &m.aggregate {
        Aggregate::Counter { total, by_label, .. } => MetricSummary {
            kind,
            unit,
            total: Some(*total),
            mean_rate_per_second: Some(total.div(Number::of(seconds as u128))),
            last: None,
            max: None,
            percentiles: None,
            by_label: sums(by_label),
        },
        Aggregate::Gauge { last, per_second, by_label } => MetricSummary {
            kind,
            unit,
            total: None,
            mean_rate_per_second: None,
            last: Some(*last),
            max: max_sample(per_second),
            percentiles: None,
            by_label: sums(by_label),
        },
        Aggregate::Histogram { by_label, .. } => MetricSummary {
            kind,
            unit,
            total: None,
            mean_rate_per_second: None,
            last: None,
            max: None,
            percentiles: m.percentiles(),
            by_label: counts(by_label),
        },
    }
}

/// The summaries of the named metrics, by name.
pub open spec fn metric_summaries(
    order: Seq<Seq<char>>,
    metrics: Seq<(Seq<char>, MetricModel)>,
    seconds: u64,
) -> Seq<(Seq<char>, MetricSummaryModel)>
    decreases order.len(),
{
    if order.len() == 0 {
        Seq::empty()
    } else {
        let rest = metric_summaries(order.drop_last(), metrics, seconds);
        match lookup(metrics, order.last()) {
            Some(m) => store(rest, order.last(), metric_summary(m, seconds)),
            None => rest,
        }
    }
}

/// A status in words, a failure with its message quoted.
pub open spec fn status_text(status: StatusModel) -> Seq<char> {
    match status {
        StatusModel::Starting => "Starting"@,
        StatusModel::Running => "Running"@,
        StatusModel::Stopping => "Stopping"@,
        StatusModel::Done => "Done"@,
        StatusModel::Failed(m) => "Failed("@ + quoted(m) + ")"@,
    }
}

pub fn describe_status(status: &RunStatus) -> (r: String)
    ensures
        r@ == status_text(status.deep_view()),
{
    match status {
        RunStatus::Starting => "Starting".to_owned(),
        RunStatus::Running => "Running".to_owned(),
        RunStatus::Stopping => "Stopping".to_owned(),
        RunStatus::Done => "Done".to_owned(),
        RunStatus::Failed(m) => {
            let mut s = "Failed(".to_owned();
            s.append(debug_text(m.as_str()).as_str());
            s.append(")");
            s
        },
    }
}

/// The verdicts of a run; a run that failed has not passed, whatever its numbers.
pub open spec fn final_verdicts(a: AppModel) -> VerdictsModel {
    let v = app_verdicts(a);
    if a.status is Failed && v.overall is Some {
        VerdictsModel { overall: Some(PhaseVerdictModel { pass: Some(false), ..v.overall->0 }), ..v }
    } else {
        v
    }
}

/// The summary of a run at a time.
pub open spec fn run_summary(a: AppModel, started_at: Seq<char>, now: u64) -> RunSummaryModel {
    let seconds = elapsed(a.started, now);
    RunSummaryModel {
        run: a.run_name,
        scenario: a.scenario_id,
        description: a.description,
        started_at,
        duration_seconds: seconds,
        status: status_text(a.status),
        metrics: metric_summaries(
            a.store.order,
            a.store.metrics,
            if seconds > 1 {
                seconds
            } else {
                1
            },
        ),
        phases: summaries(a.store.phases),
        thresholds: a.thresholds,
        verdicts: final_verdicts(a),
        scenario_summary: json_text(a.summary),
        unknown_metrics: a.store.unknown,
    }
}

/// The summary of a run that started at the written time.
pub fn summarise_from(app: &App, started_at: String, now: u64) -> (r: RunSummary)
    ensures
        r.deep_view() == run_summary(app.deep_view(), started_at@, now),
        json_fields(r.scenario_summary) == json_fields(app.summary),
{
    let seconds: u64 = app.elapsed_seconds(now);
    let divisor: u64 = if seconds > 1 {
        seconds
    } else {
        1
    };
    let mut metrics: SortedMap<MetricSummary> = SortedMap::new();
    let names = app.store.names();
    let ghost order = names.deep_view();
    let ghost all = app.deep_view().store.metrics;
    let mut i: usize = 0;
    assert(order.take(0) =~= Seq::<Seq<char>>::empty());
    while i < names.len()
        invariant
            i <= names@.len(),
            order == names.deep_view(),
            all == app.deep_view().store.metrics,
            metrics@ == metric_summaries(order.take(i as int), all, divisor),
        decreases names@.len() - i,
    {
        proof {
            assert(order.take(i + 1).drop_last() =~= order.take(i as int));
            assert(order.take(i + 1).last() == names@[i as int]@);
        }
        if let Some(m) = app.store.get(names[i].as_str()) {
            metrics.put(names[i].clone(), summarise_metric(m, divisor));
        }
        i = i + 1;
    }
    assert(order.take(i as int) =~= order);
    let mut verdicts = app.verdicts();
    if let RunStatus::Failed(_) = app.status {
        if let Some(o) = verdicts.overall {
            let mut o = o;
            o.pass = Some(false);
            verdicts.overall = Some(o);
        }
    }
    RunSummary {
        run: app.run_name.clone(),
        scenario: app.scenario_id.clone(),
        description: app.description.duplicate(),
        started_at,
        duration_seconds: seconds,
        status: describe_status(&app.status),
        metrics,
        phases: app.store.phase_summaries(),
        thresholds: app.thresholds.duplicate(),
        verdicts,
        scenario_summary: app.summary.clone(),
        unknown_metrics: app.store.unknown().duplicate(),
    }
}

/// The summary of a run that started at a moment.
pub fn summarise(app: &App, started_at: Stamp, now: u64) -> (r: RunSummary)
    ensures
        r.deep_view() == run_summary(app.deep_view(), started_text(started_at), now),
        json_fields(r.scenario_summary) == json_fields(app.summary),
{
    summarise_from(app, started_at.written(), now)
}

} // verus!
