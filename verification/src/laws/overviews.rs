//! Overviews: what the summary of a phase, and that of the whole run, say of a metric; and which
//! operations an event stands for.

use vstd::prelude::*;
use crate::app::{applied, elapsed, AppModel, StatusModel};
use crate::laws::accounts::{
    a_metric_tells_what_was_reported, a_phase_tells_what_was_reported_during_it, added_up, hits, kind_in, of, reports,
    sum_if_any, timed, under_within, values, within_phase,
};
use crate::laws::histories::{a_store_stays_coherent, after, after_all, lemma_folded, lemma_summary_lookups, Move};
use crate::laws::stores::an_empty_store_is_coherent;
use crate::metrics::{gauge_stats, percentiles_of};
use crate::protocol::{label_key_spec, Event, LabelsModel, LogLevel, MetricKind, MetricSpecModel, ObservationModel};
use crate::sorted::{in_order, lookup};
use crate::store::{all_declared, all_observed, empty_store, overall, summaries, StoreModel};

verus! {

/// The whole run says of each metric what was reported: of a counter the sum of all values, of a
/// histogram the percentiles of all values, of a gauge the shape of all samples. It says nothing of
/// metrics that were not declared, and of each metric only what belongs to its kind.
pub proof fn the_whole_run_tells_everything_reported(moves: Seq<Move>, name: Seq<char>, labels: LabelsModel)
    requires
        forall|i: int|
            0 <= i < moves.len() && (#[trigger] moves[i]) is Observe ==> in_order(moves[i]->Observe_0.labels),
        in_order(labels),
        labels.len() > 0,
        values(reports(moves), of(name)).len() < u64::MAX,
    ensures
        ({
            let s = after_all(empty_store(), moves);
            let p = overall(s);
            let vs = values(reports(moves), of(name));
            let kind = kind_in(s, name);
            &&& lookup(p.counters, name) == (if kind == Some(MetricKind::Counter) {
                Some(added_up(vs))
            } else {
                None
            })
            &&& lookup(p.histograms, name) == (if kind == Some(MetricKind::Histogram) {
                Some(percentiles_of(hits(vs)))
            } else {
                None
            })
            &&& lookup(p.gauges, name) == (if kind == Some(MetricKind::Gauge) {
                Some(gauge_stats(timed(reports(moves), of(name))))
            } else {
                None
            })
            &&& kind == Some(MetricKind::Counter) ==> lookup(p.counter_labels, name) is Some && lookup(
                lookup(p.counter_labels, name)->0,
                label_key_spec(labels)->0,
            ) == sum_if_any(values(reports(moves), crate::laws::accounts::under(name, labels)))
        }),
{
    let s = after_all(empty_store(), moves);
    an_empty_store_is_coherent();
    a_store_stays_coherent(empty_store(), moves);
    lemma_folded(s.metrics, s.samples, name);
    if lookup(s.metrics, name) is Some {
        a_metric_tells_what_was_reported(moves, name, labels);
        crate::laws::histories::lemma_kind(s, name);
    }
}

/// The summary of a phase says of each metric what was reported during it.
pub proof fn a_phase_summary_tells_what_was_reported(moves: Seq<Move>, name: Seq<char>, labels: LabelsModel, i: int)
    requires
        forall|j: int|
            0 <= j < moves.len() && (#[trigger] moves[j]) is Observe ==> in_order(moves[j]->Observe_0.labels),
        in_order(labels),
        labels.len() > 0,
        0 <= i < after_all(empty_store(), moves).phases.len(),
        values(reports(moves), within_phase(name, i)).len() < u64::MAX,
    ensures
        ({
            let s = after_all(empty_store(), moves);
            let p = summaries(s.phases)[i];
            let vs = values(reports(moves), within_phase(name, i));
            let kind = kind_in(s, name);
            &&& p.name == s.phases[i].name && p.start_second == s.phases[i].start_second
            &&& lookup(p.counters, name) == (if kind == Some(MetricKind::Counter) && vs.len() > 0 {
                Some(added_up(vs))
            } else {
                None
            })
            &&& lookup(p.histograms, name) == (if kind == Some(MetricKind::Histogram) && vs.len() > 0 {
                Some(percentiles_of(hits(vs)))
            } else {
                None
            })
            &&& kind == Some(MetricKind::Gauge) && lookup(p.gauges, name) is Some ==> lookup(p.gauges, name) == Some(
                gauge_stats(timed(reports(moves), within_phase(name, i))),
            )
            &&& kind == Some(MetricKind::Gauge) && lookup(p.gauges, name) is None ==> timed(
                reports(moves),
                within_phase(name, i),
            ).len() == 0
            &&& (match lookup(p.counter_labels, name) {
                Some(rows) => lookup(rows, label_key_spec(labels)->0),
                None => None,
            }) == (if kind == Some(MetricKind::Counter) {
                sum_if_any(values(reports(moves), under_within(name, labels, i)))
            } else {
                None
            })
        }),
{
    let s = after_all(empty_store(), moves);
    a_phase_tells_what_was_reported_during_it(moves, name, labels, i);
    lemma_summary_lookups(s.phases[i], crate::store::phase_end(s.phases, i), name);
}

/// The operations of some declarations.
pub open spec fn declarations(specs: Seq<MetricSpecModel>) -> Seq<Move> {
    Seq::new(specs.len(), |i: int| Move::Declare(specs[i]))
}

/// The operations of some observations.
pub open spec fn observations_of(os: Seq<ObservationModel>) -> Seq<Move> {
    Seq::new(os.len(), |i: int| Move::Observe(os[i]))
}

proof fn lemma_declarations(s: StoreModel, specs: Seq<MetricSpecModel>)
    ensures
        all_declared(s, specs) == after_all(s, declarations(specs)),
    decreases specs.len(),
{
    if specs.len() > 0 {
        lemma_declarations(s, specs.drop_last());
        assert(declarations(specs).drop_last() =~= declarations(specs.drop_last()));
    }
}

proof fn lemma_observations(s: StoreModel, os: Seq<ObservationModel>)
    ensures
        all_observed(s, os) == after_all(s, observations_of(os)),
    decreases os.len(),
{
    if os.len() > 0 {
        lemma_observations(s, os.drop_last());
        assert(observations_of(os).drop_last() =~= observations_of(os.drop_last()));
    }
}

/// Every event first brings the clock up to date, in whole seconds since the start. A hello then
/// declares its metrics, a phase begins, an observation or a batch of them is recorded; other events
/// leave the store alone.
pub proof fn an_event_is_its_operations(a: AppModel, event: Event, now: u64)
    ensures
        ({
            let s = after(a.store, Move::Advance(elapsed(a.started, now)));
            let t = applied(a, event, now).store;
            match event {
                Event::Hello { metrics, .. } => t == after_all(s, declarations(metrics.deep_view())),
                Event::Phase { name } => t == after(s, Move::Begin(name@)),
                Event::Observe(o) => t == after(s, Move::Observe(o.deep_view())),
                Event::Batch { observations } => t == after_all(s, observations_of(observations.deep_view())),
                _ => t == s,
            }
        }),
{
    let s = after(a.store, Move::Advance(elapsed(a.started, now)));
    match event {
        Event::Hello { metrics, .. } => lemma_declarations(s, metrics.deep_view()),
        Event::Batch { observations } => lemma_observations(s, observations.deep_view()),
        _ => {},
    }
}

/// A second is a thousand milliseconds of the clock, and the clock of a run does not start before it.
pub proof fn seconds_are_whole_thousands(started: u64, now: u64)
    ensures
        now >= started ==> 1000 * elapsed(started, now) <= now - started < 1000 * (elapsed(started, now) + 1),
        now <= started ==> elapsed(started, now) == 0,
{
}

/// The status of a run follows its events: a hello or the first report sets it running, the scenario's
/// end finishes it and takes over its summary, an error fails it with its message. Every event counts
/// once.
pub proof fn the_status_follows_the_events(a: AppModel, event: Event, now: u64)
    ensures
        ({
            let b = applied(a, event, now);
            &&& a.events_seen < u64::MAX ==> b.events_seen == a.events_seen + 1
            &&& match event {
                Event::Hello { scenario, .. } => b.status == StatusModel::Running && b.scenario_id == scenario@
                    && b.summary == a.summary && b.logs == a.logs,
                Event::Log { level, message } => b.status == a.status && b.logs.last().level == level
                    && b.logs.last().message == message@ && b.summary == a.summary,
                Event::Done { summary } => b.status == StatusModel::Done && b.summary == summary,
                Event::Error { message } => b.status == StatusModel::Failed(message@) && b.logs.last().level
                    == LogLevel::Error && b.logs.last().message == message@ && b.summary == a.summary,
                Event::Phase { name } => b.status == (if a.status is Starting {
                    StatusModel::Running
                } else {
                    a.status
                }) && b.logs.last().message == "phase: "@ + name@ && b.summary == a.summary,
                _ => b.status == (if a.status is Starting {
                    StatusModel::Running
                } else {
                    a.status
                }) && b.logs == a.logs && b.summary == a.summary,
            }
            &&& !(event is Hello) ==> b.scenario_id == a.scenario_id
            &&& b.run_name == a.run_name && b.started == a.started && b.thresholds == a.thresholds
            &&& b.selected == a.selected && b.view == a.view && b.show_logs == a.show_logs
            &&& b.chart_window_seconds == a.chart_window_seconds && b.description == a.description
        }),
{
}

} // verus!
