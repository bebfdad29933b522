//! Reports: what the summary of a run says of each metric.

use vstd::prelude::*;
use crate::laws::runs::every_declared_metric_is_reported;
use crate::laws::stores::lemma_same_keys;
use crate::app::AppModel;
use crate::metrics::{percentiles_of, AggregateModel, MetricModel};
use crate::number::{of_nat, Number};
use crate::report::{count_values, greatest_sample, metric_summary, run_summary, sum_values, LabelValueModel};
use crate::sorted::{lemma_slot, lookup};
use crate::store::{coherent, overall, summaries};

verus! {

/// Some second of a gauge has this value.
pub open spec fn was_shown(per_second: Seq<Option<Number>>, v: Number) -> bool {
    exists|i: int| 0 <= i < per_second.len() && #[trigger] per_second[i] == Some(v)
}

proof fn lemma_greatest_sample(per_second: Seq<Option<Number>>)
    ensures
        match greatest_sample(per_second) {
            Some(g) => {
                &&& was_shown(per_second, g)
                &&& forall|i: int|
                    0 <= i < per_second.len() && (#[trigger] per_second[i]) is Some && !per_second[i]->0.nan()
                        ==> per_second[i]->0.at_most(g)
            },
            None => forall|i: int| 0 <= i < per_second.len() ==> (#[trigger] per_second[i]) is None,
        },
    decreases per_second.len(),
{
    if per_second.len() > 0 {
        let rest = per_second.drop_last();
        let n = per_second.len() - 1;
        lemma_greatest_sample(rest);
        assert(forall|i: int| 0 <= i < n ==> #[trigger] per_second[i] == rest[i]);
        if let Some(g) = greatest_sample(per_second) {
            if greatest_sample(rest) == Some(g) {
                let i = choose|i: int| 0 <= i < rest.len() && #[trigger] rest[i] == Some(g);
                assert(per_second[i] == Some(g));
            } else {
                assert(per_second[n] == Some(g));
            }
            assert forall|i: int|
                0 <= i < per_second.len() && (#[trigger] per_second[i]) is Some && !per_second[i]->0.nan() implies
                per_second[i]->0.at_most(g) by {
                if i < n {
                    assert(rest[i] is Some);
                    assert(rest[i]->0.at_most(greatest_sample(rest)->0));
                }
            }
        }
    }
}

/// The reported maximum of a gauge is one of the values that it showed, and no value that it showed is
/// greater; there is none exactly where it showed none. Its last value is reported too, and nothing
/// that belongs to other kinds of metrics.
pub proof fn a_gauge_is_reported_by_its_last_and_its_greatest_value(m: MetricModel, seconds: u64)
    requires
        m.aggregate is Gauge,
    ensures
        ({
            let per_second = m.aggregate->Gauge_per_second;
            let r = metric_summary(m, seconds);
            &&& r.last == Some(m.aggregate->last)
            &&& r.total is None && r.mean_rate_per_second is None && r.percentiles is None
            &&& r.max is None <==> forall|i: int| 0 <= i < per_second.len() ==> (#[trigger] per_second[i]) is None
            &&& r.max is Some ==> was_shown(per_second, r.max->0)
            &&& r.max is Some ==> forall|i: int|
                0 <= i < per_second.len() && (#[trigger] per_second[i]) is Some && !per_second[i]->0.nan()
                    ==> per_second[i]->0.at_most(r.max->0)
        }),
{
    let per_second = m.aggregate->Gauge_per_second;
    lemma_greatest_sample(per_second);
    if let Some(g) = greatest_sample(per_second) {
        let i = choose|i: int| 0 <= i < per_second.len() && #[trigger] per_second[i] == Some(g);
        assert(per_second[i] is Some);
    }
}

/// A counter is reported by its total and by its total over the seconds of the run.
pub proof fn a_counter_is_reported_by_its_total_and_rate(m: MetricModel, seconds: u64)
    requires
        m.aggregate is Counter,
    ensures
        metric_summary(m, seconds).total == Some(m.aggregate->total),
        metric_summary(m, seconds).mean_rate_per_second == Some(m.aggregate->total.over(of_nat(seconds as nat))),
        metric_summary(m, seconds).last is None,
        metric_summary(m, seconds).max is None,
        metric_summary(m, seconds).percentiles is None,
{
}

/// A histogram is reported by the percentiles of everything recorded.
pub proof fn a_histogram_is_reported_by_its_percentiles(m: MetricModel, seconds: u64)
    requires
        m.aggregate is Histogram,
    ensures
        metric_summary(m, seconds).percentiles == Some(percentiles_of(m.aggregate->all)),
        metric_summary(m, seconds).total is None,
        metric_summary(m, seconds).mean_rate_per_second is None,
        metric_summary(m, seconds).last is None,
        metric_summary(m, seconds).max is None,
{
}

/// The breakdown of a report has the rows of the metric: the sums of a counter, the last values of a
/// gauge, and how many values a histogram has in each.
pub proof fn a_breakdown_is_reported_row_by_row(m: MetricModel, seconds: u64, row: Seq<char>)
    ensures
        lookup(metric_summary(m, seconds).by_label, row) == (match m.aggregate {
            AggregateModel::Counter { by_label, .. } => match lookup(by_label, row) {
                Some(v) => Some(LabelValueModel::Sum(v)),
                None => None,
            },
            AggregateModel::Gauge { by_label, .. } => match lookup(by_label, row) {
                Some(v) => Some(LabelValueModel::Sum(v)),
                None => None,
            },
            AggregateModel::Histogram { by_label, .. } => match lookup(by_label, row) {
                Some(c) => Some(LabelValueModel::Count(c.len() as u64)),
                None => None,
            },
        }),
        metric_summary(m, seconds).unit == m.spec.unit,
{
    match m.aggregate {
        AggregateModel::Counter { by_label, .. } => {
            lemma_same_keys(by_label, sum_values(by_label), row);
            lemma_slot(by_label, row);
        },
        AggregateModel::Gauge { by_label, .. } => {
            lemma_same_keys(by_label, sum_values(by_label), row);
            lemma_slot(by_label, row);
        },
        AggregateModel::Histogram { by_label, .. } => {
            lemma_same_keys(by_label, count_values(by_label), row);
            lemma_slot(by_label, row);
        },
    }
}

/// The summary of a run has each declared metric under its name, over the seconds of the run and at
/// least one, and its phases; a second is a thousand milliseconds of the clock.
pub proof fn a_summary_covers_the_run(a: AppModel, started_at: Seq<char>, now: u64, name: Seq<char>)
    requires
        coherent(a.store),
    ensures
        ({
            let s = run_summary(a, started_at, now);
            let seconds = s.duration_seconds;
            &&& s.run == a.run_name && s.scenario == a.scenario_id && s.description == a.description
            &&& s.started_at == started_at
            &&& now >= a.started ==> 1000 * seconds <= now - a.started < 1000 * (seconds + 1)
            &&& now <= a.started ==> seconds == 0
            &&& lookup(a.store.metrics, name) is None ==> lookup(s.metrics, name) is None
            &&& lookup(a.store.metrics, name) is Some && seconds >= 1 ==> lookup(s.metrics, name) == Some(
                metric_summary(lookup(a.store.metrics, name)->0, seconds),
            )
            &&& lookup(a.store.metrics, name) is Some && seconds == 0 ==> lookup(s.metrics, name) == Some(
                metric_summary(lookup(a.store.metrics, name)->0, 1),
            )
            &&& s.phases == summaries(a.store.phases)
            &&& s.thresholds == a.thresholds
            &&& s.unknown_metrics == a.store.unknown
        }),
{
    every_declared_metric_is_reported(a, started_at, now, name);
}

/// The verdicts of a summary are those of the phases and the whole run at the current second; a failed
/// run has failed whatever they are.
pub proof fn a_summary_judges_the_run(a: AppModel, started_at: Seq<char>, now: u64)
    ensures
        ({
            let v = run_summary(a, started_at, now).verdicts;
            let w = crate::verdict::evaluated(
                a.thresholds,
                overall(a.store),
                summaries(a.store.phases),
                a.store.current_second,
            );
            &&& v.phases == w.phases && v.ceiling == w.ceiling && v.first_failure == w.first_failure
            &&& v.overall is Some <==> w.overall is Some
            &&& v.overall is Some ==> v.overall->0.checks == w.overall->0.checks
            &&& v.overall is Some && a.status is Failed ==> v.overall->0.pass == Some(false)
            &&& v.overall is Some && !(a.status is Failed) ==> v.overall->0.pass == w.overall->0.pass
        }),
{
}

} // verus!
