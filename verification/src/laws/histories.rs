//! Whole runs of a store: what holds of it after any number of operations.

use vstd::prelude::*;
use vstd::multiset::Multiset;
use crate::laws::stores::{
    advancing_keeps_coherence, an_empty_store_is_coherent, beginning_a_phase_keeps_coherence,
    declaring_keeps_coherence, lemma_rolled_lookup, lemma_same_keys, recording_keeps_coherence,
};
use crate::metrics::{
    fresh_aggregate, gauge_stats, hist_units, percentiles_of, phase_summary, raised, recorded, rolled, samples_under,
    AggregateModel, MetricModel, PhaseModel, PhaseSummaryModel,
};
use crate::hist::hist_with;
use crate::number::{zero, Number};
use crate::protocol::{label_key_spec, MetricKind, MetricSpecModel, ObservationModel};
use crate::sorted::{in_order, lemma_slot, lookup, lookup_after_store, lookup_finds_the_entry, slot, store, store_keeps_order};
use crate::store::{
    advanced, all_declared, all_rolled, coherent, declared, empty_store, folded, lemma_folded_frame, observed, overall,
    phase_begun, rolled_through, summaries, StoreModel,
};
use crate::verdict::{judged_value, Stat, ThresholdModel};

verus! {

/// An operation on a store.
pub enum Move {
    Declare(MetricSpecModel),
    Observe(ObservationModel),
    Advance(u64),
    Begin(Seq<char>),
}

pub open spec fn after(s: StoreModel, m: Move) -> StoreModel {
    match m {
        Move::Declare(spec) => declared(s, spec),
        Move::Observe(o) => observed(s, o),
        Move::Advance(second) => advanced(s, second),
        Move::Begin(name) => phase_begun(s, name),
    }
}

/// The store after some operations, one after the other.
pub open spec fn after_all(s: StoreModel, moves: Seq<Move>) -> StoreModel
    decreases moves.len(),
{
    if moves.len() == 0 {
        s
    } else {
        after(after_all(s, moves.drop_last()), moves.last())
    }
}

/// Every operation keeps a store coherent.
pub proof fn every_operation_keeps_coherence(s: StoreModel, m: Move)
    requires
        coherent(s),
    ensures
        coherent(after(s, m)),
{
    match m {
        Move::Declare(spec) => declaring_keeps_coherence(s, spec),
        Move::Observe(o) => recording_keeps_coherence(s, o),
        Move::Advance(second) => advancing_keeps_coherence(s, second),
        Move::Begin(name) => beginning_a_phase_keeps_coherence(s, name),
    }
}

/// A store stays coherent through any operations.
pub proof fn a_store_stays_coherent(s: StoreModel, moves: Seq<Move>)
    requires
        coherent(s),
    ensures
        coherent(after_all(s, moves)),
    decreases moves.len(),
{
    if moves.len() > 0 {
        a_store_stays_coherent(s, moves.drop_last());
        every_operation_keeps_coherence(after_all(s, moves.drop_last()), moves.last());
    }
}

/// A metric with every bucket closed from second `from` up to second `to`.
pub open spec fn rolled_on(a: AggregateModel, from: u64, to: u64) -> AggregateModel
    decreases to - from,
{
    if from >= to {
        a
    } else {
        rolled_on(rolled(a, from), (from + 1) as u64, to)
    }
}

pub(crate) proof fn lemma_rolled_on(metrics: Seq<(Seq<char>, MetricModel)>, from: u64, to: u64, name: Seq<char>)
    ensures
        match lookup(metrics, name) {
            Some(m) => lookup(rolled_through(metrics, from, to), name) == Some(
                MetricModel { spec: m.spec, aggregate: rolled_on(m.aggregate, from, to) },
            ),
            None => lookup(rolled_through(metrics, from, to), name) is None,
        },
    decreases to - from,
{
    if from < to {
        lemma_rolled_lookup(metrics, from, name);
        lemma_rolled_on(all_rolled(metrics, from), (from + 1) as u64, to, name);
    }
}

/// What an operation does to a metric that is declared.
pub open spec fn touched(s: StoreModel, m: Move, name: Seq<char>, a: AggregateModel) -> AggregateModel {
    match m {
        Move::Observe(o) => if o.metric == name {
            recorded(a, o.value, o.labels)
        } else {
            a
        },
        Move::Advance(second) => rolled_on(a, s.current_second, second),
        _ => a,
    }
}

pub(crate) proof fn lemma_touched(s: StoreModel, m: Move, name: Seq<char>)
    requires
        coherent(s),
        lookup(s.metrics, name) is Some,
    ensures
        lookup(after(s, m).metrics, name) == Some(
            MetricModel {
                spec: lookup(s.metrics, name)->0.spec,
                aggregate: touched(s, m, name, lookup(s.metrics, name)->0.aggregate),
            },
        ),
{
    match m {
        Move::Declare(spec) => {
            if lookup(s.metrics, spec.name) is None {
                let v = MetricModel { spec, aggregate: fresh_aggregate(spec.kind) };
                lookup_after_store(s.metrics, spec.name, v, name);
            }
        },
        Move::Observe(o) => {
            if lookup(s.metrics, o.metric) is Some {
                let x = lookup(s.metrics, o.metric)->0;
                let v = MetricModel { spec: x.spec, aggregate: recorded(x.aggregate, o.value, o.labels) };
                lookup_after_store(s.metrics, o.metric, v, name);
            }
        },
        Move::Advance(second) => lemma_rolled_on(s.metrics, s.current_second, second, name),
        Move::Begin(_) => {},
    }
}

/// What the lookups of a store say of a metric: the spec and aggregate agree on its kind.
pub(crate) proof fn lemma_kind(s: StoreModel, name: Seq<char>)
    requires
        coherent(s),
        lookup(s.metrics, name) is Some,
    ensures
        crate::metrics::aggregate_kind(lookup(s.metrics, name)->0.aggregate) == lookup(s.metrics, name)->0.spec.kind,
        lookup(s.metrics, name)->0.spec.name == name,
{
    lemma_slot(s.metrics, name);
    let i = slot(s.metrics, name);
    assert(s.metrics[i].0 == s.metrics[i].1.spec.name);
}

// One phase from the start.

/// What a phase that has taken in everything knows of a metric.
spec fn same_account(s: StoreModel, name: Seq<char>) -> bool {
    let p = s.phases[0];
    match lookup(s.metrics, name) {
        None => {
            &&& lookup(p.counters, name) is None
            &&& lookup(p.counter_labels, name) is None
            &&& lookup(p.histograms, name) is None
            &&& lookup(p.gauges, name) is None
            &&& lookup(s.samples, name) is None
        },
        Some(m) => match m.aggregate {
            AggregateModel::Counter { total, by_label, .. } => {
                &&& match lookup(p.counters, name) {
                    Some(sum) => sum == total,
                    None => total == zero(false) && lookup(p.counter_labels, name) is None,
                }
                &&& match lookup(p.counter_labels, name) {
                    Some(rows) => rows == by_label,
                    None => by_label == Seq::<(Seq<char>, Number)>::empty(),
                }
                &&& lookup(p.histograms, name) is None
                &&& lookup(p.gauges, name) is None
                &&& lookup(s.samples, name) is None
            },
            AggregateModel::Histogram { all, .. } => {
                &&& match lookup(p.histograms, name) {
                    Some(c) => c == all,
                    None => all == Multiset::<u64>::empty(),
                }
                &&& lookup(p.counters, name) is None
                &&& lookup(p.counter_labels, name) is None
                &&& lookup(p.gauges, name) is None
                &&& lookup(s.samples, name) is None
            },
            AggregateModel::Gauge { .. } => {
                &&& lookup(p.gauges, name) == lookup(s.samples, name)
                &&& lookup(p.counters, name) is None
                &&& lookup(p.counter_labels, name) is None
                &&& lookup(p.histograms, name) is None
            },
        },
    }
}

spec fn one_phase(s: StoreModel) -> bool {
    &&& coherent(s)
    &&& s.phases.len() == 1
    &&& s.phases[0].start_second == 0
    &&& forall|name: Seq<char>| #[trigger] same_account(s, name)
}

pub(crate) proof fn lemma_rolled_on_keeps(a: AggregateModel, from: u64, to: u64)
    ensures
        match (a, rolled_on(a, from, to)) {
            (
                AggregateModel::Counter { total: t1, by_label: l1, .. },
                AggregateModel::Counter { total: t2, by_label: l2, .. },
            ) => t1 == t2 && l1 == l2,
            (AggregateModel::Gauge { .. }, AggregateModel::Gauge { .. }) => true,
            (AggregateModel::Histogram { all: a1, .. }, AggregateModel::Histogram { all: a2, .. }) => a1 == a2,
            _ => false,
        },
    decreases to - from,
{
    if from < to {
        lemma_rolled_on_keeps(rolled(a, from), (from + 1) as u64, to);
    }
}

proof fn lemma_one_phase_kept(s: StoreModel, m: Move)
    requires
        one_phase(s),
        !(m is Begin),
    ensures
        one_phase(after(s, m)),
{
    let t = after(s, m);
    every_operation_keeps_coherence(s, m);
    assert forall|name: Seq<char>| #[trigger] same_account(t, name) by {
        assert(same_account(s, name));
        match m {
            Move::Declare(spec) => {
                if lookup(s.metrics, spec.name) is None {
                    let v = MetricModel { spec, aggregate: fresh_aggregate(spec.kind) };
                    lookup_after_store(s.metrics, spec.name, v, name);
                }
            },
            Move::Advance(second) => {
                lemma_rolled_on(s.metrics, s.current_second, second, name);
                if lookup(s.metrics, name) is Some {
                    lemma_rolled_on_keeps(lookup(s.metrics, name)->0.aggregate, s.current_second, second);
                }
            },
            Move::Observe(o) => lemma_same_account_observed(s, o, name),
            Move::Begin(_) => {},
        }
    }
}

proof fn lemma_same_account_observed(s: StoreModel, o: ObservationModel, name: Seq<char>)
    requires
        one_phase(s),
    ensures
        same_account(observed(s, o), name),
{
    assert(same_account(s, name));
    if lookup(s.metrics, o.metric) is Some {
        let x = lookup(s.metrics, o.metric)->0;
        let v = MetricModel { spec: x.spec, aggregate: recorded(x.aggregate, o.value, o.labels) };
        let p = s.phases[0];
        lookup_after_store(s.metrics, o.metric, v, name);
        lemma_kind(s, o.metric);
        assert(crate::metrics::phase_in_order(p));
        assert(same_account(s, o.metric));
        match x.spec.kind {
            MetricKind::Counter => {
                let sum = (match lookup(p.counters, o.metric) {
                    Some(n) => n,
                    None => zero(false),
                }).plus(o.value);
                lookup_after_store(p.counters, o.metric, sum, name);
                if let Some(k) = label_key_spec(o.labels) {
                    let rows = raised(
                        match lookup(p.counter_labels, o.metric) {
                            Some(r) => r,
                            None => Seq::empty(),
                        },
                        k,
                        o.value,
                    );
                    lookup_after_store(p.counter_labels, o.metric, rows, name);
                }
            },
            MetricKind::Histogram => {
                let c = match lookup(p.histograms, o.metric) {
                    Some(c) => c,
                    None => Multiset::empty(),
                };
                lookup_after_store(p.histograms, o.metric, hist_with(c, hist_units(o.value)), name);
            },
            MetricKind::Gauge => {
                let at = (s.current_second, o.value);
                lookup_after_store(p.gauges, o.metric, samples_under(p.gauges, o.metric).push(at), name);
                lookup_after_store(s.samples, o.metric, samples_under(s.samples, o.metric).push(at), name);
            },
        }
    }
}

proof fn lemma_one_phase(s: StoreModel, moves: Seq<Move>)
    requires
        one_phase(s),
        forall|i: int| 0 <= i < moves.len() ==> !((#[trigger] moves[i]) is Begin),
    ensures
        one_phase(after_all(s, moves)),
    decreases moves.len(),
{
    if moves.len() > 0 {
        let rest = moves.drop_last();
        assert forall|i: int| 0 <= i < rest.len() implies !((#[trigger] rest[i]) is Begin) by {
            assert(rest[i] == moves[i]);
        }
        lemma_one_phase(s, rest);
        assert(!(moves[moves.len() - 1] is Begin));
        lemma_one_phase_kept(after_all(s, rest), moves.last());
    }
}

/// The store at the start of a run: some metrics are declared, and a phase has begun in second
/// zero before anything was recorded.
pub open spec fn begun(specs: Seq<MetricSpecModel>, phase: Seq<char>) -> StoreModel {
    phase_begun(all_declared(empty_store(), specs), phase)
}

spec fn untouched(s: StoreModel) -> bool {
    &&& coherent(s)
    &&& s.current_second == 0
    &&& s.phases.len() == 0
    &&& s.samples.len() == 0
    &&& forall|name: Seq<char>|
        (#[trigger] lookup(s.metrics, name)) is Some ==> lookup(s.metrics, name)->0.aggregate == fresh_aggregate(
            lookup(s.metrics, name)->0.spec.kind,
        )
}

proof fn lemma_untouched(specs: Seq<MetricSpecModel>)
    ensures
        untouched(all_declared(empty_store(), specs)),
    decreases specs.len(),
{
    an_empty_store_is_coherent();
    if specs.len() > 0 {
        lemma_untouched(specs.drop_last());
        let s = all_declared(empty_store(), specs.drop_last());
        let spec = specs.last();
        declaring_keeps_coherence(s, spec);
        let t = declared(s, spec);
        if lookup(s.metrics, spec.name) is None {
            assert forall|name: Seq<char>| (#[trigger] lookup(t.metrics, name)) is Some implies lookup(
                t.metrics,
                name,
            )->0.aggregate == fresh_aggregate(lookup(t.metrics, name)->0.spec.kind) by {
                let v = MetricModel { spec, aggregate: fresh_aggregate(spec.kind) };
                lookup_after_store(s.metrics, spec.name, v, name);
                assert(lookup(s.metrics, name) is Some ==> lookup(s.metrics, name)->0.aggregate == fresh_aggregate(
                    lookup(s.metrics, name)->0.spec.kind,
                ));
            }
        }
    } else {
        let s = empty_store();
        assert forall|name: Seq<char>| (#[trigger] lookup(s.metrics, name)) is None by {
            lemma_slot(s.metrics, name);
        }
    }
}

proof fn lemma_begun(specs: Seq<MetricSpecModel>, phase: Seq<char>)
    ensures
        one_phase(begun(specs, phase)),
{
    lemma_untouched(specs);
    let s = all_declared(empty_store(), specs);
    let t = begun(specs, phase);
    beginning_a_phase_keeps_coherence(s, phase);
    assert forall|name: Seq<char>| #[trigger] same_account(t, name) by {
        let p = t.phases[0];
        lemma_slot(p.counters, name);
        lemma_slot(p.counter_labels, name);
        lemma_slot(p.histograms, name);
        lemma_slot(p.gauges, name);
        lemma_slot(t.samples, name);
        assert(lookup(t.metrics, name) == lookup(s.metrics, name));
    }
}

/// Looking up a name among all entries but the last.
proof fn lemma_lookup_last<T>(s: Seq<(Seq<char>, T)>, name: Seq<char>)
    requires
        in_order(s),
        s.len() > 0,
    ensures
        in_order(s.drop_last()),
        lookup(s, name) == (if s.last().0 == name {
            Some(s.last().1)
        } else {
            lookup(s.drop_last(), name)
        }),
        s.last().0 == name ==> lookup(s.drop_last(), name) is None,
{
    let r = s.drop_last();
    let n = s.len() - 1;
    assert forall|i: int, j: int| 0 <= i < j < r.len() implies crate::text::precedes(
        #[trigger] r[i].0,
        #[trigger] r[j].0,
    ) by {
        assert(crate::text::precedes(s[i].0, s[j].0));
    }
    lookup_finds_the_entry(s, n);
    lemma_slot(r, name);
    lemma_slot(s, name);
    let i = slot(r, name);
    if lookup(r, name) is Some {
        assert(r[i] == s[i]);
        lookup_finds_the_entry(s, i);
        if s.last().0 == name {
            assert(slot(s, name) == n && slot(s, name) == i);
        }
    } else if lookup(s, name) is Some && s.last().0 != name {
        let j = slot(s, name);
        assert(j < n);
        assert(r[j] == s[j]);
        lookup_finds_the_entry(r, j);
    }
}

/// What the whole run says of a metric.
pub open spec fn overall_account(
    p: PhaseSummaryModel,
    found: Option<MetricModel>,
    samples: Seq<(Seq<char>, Seq<(u64, Number)>)>,
    name: Seq<char>,
) -> bool {
    match found {
        None => {
            &&& lookup(p.counters, name) is None
            &&& lookup(p.counter_labels, name) is None
            &&& lookup(p.histograms, name) is None
            &&& lookup(p.gauges, name) is None
        },
        Some(m) => match m.aggregate {
            AggregateModel::Counter { total, by_label, .. } => {
                &&& lookup(p.counters, name) == Some(total)
                &&& lookup(p.counter_labels, name) == Some(by_label)
                &&& lookup(p.histograms, name) is None
                &&& lookup(p.gauges, name) is None
            },
            AggregateModel::Histogram { all, .. } => {
                &&& lookup(p.histograms, name) == Some(percentiles_of(all))
                &&& lookup(p.counters, name) is None
                &&& lookup(p.counter_labels, name) is None
                &&& lookup(p.gauges, name) is None
            },
            AggregateModel::Gauge { .. } => {
                &&& lookup(p.gauges, name) == Some(gauge_stats(samples_under(samples, name)))
                &&& lookup(p.counters, name) is None
                &&& lookup(p.counter_labels, name) is None
                &&& lookup(p.histograms, name) is None
            },
        },
    }
}

pub(crate) proof fn lemma_folded(
    ms: Seq<(Seq<char>, MetricModel)>,
    samples: Seq<(Seq<char>, Seq<(u64, Number)>)>,
    name: Seq<char>,
)
    requires
        in_order(ms),
    ensures
        in_order(folded(ms, samples).counters),
        in_order(folded(ms, samples).counter_labels),
        in_order(folded(ms, samples).histograms),
        in_order(folded(ms, samples).gauges),
        overall_account(folded(ms, samples), lookup(ms, name), samples, name),
    decreases ms.len(),
{
    if ms.len() == 0 {
        let p = folded(ms, samples);
        lemma_slot(ms, name);
        lemma_slot(p.counters, name);
        lemma_slot(p.counter_labels, name);
        lemma_slot(p.histograms, name);
        lemma_slot(p.gauges, name);
    } else {
        lemma_lookup_last(ms, name);
        lemma_folded(ms.drop_last(), samples, name);
        let rest = folded(ms.drop_last(), samples);
        let last = ms.last().0;
        match ms.last().1.aggregate {
            AggregateModel::Counter { total, by_label, .. } => {
                store_keeps_order(rest.counters, last, total);
                store_keeps_order(rest.counter_labels, last, by_label);
                lookup_after_store(rest.counters, last, total, name);
                lookup_after_store(rest.counter_labels, last, by_label, name);
            },
            AggregateModel::Histogram { all, .. } => {
                store_keeps_order(rest.histograms, last, percentiles_of(all));
                lookup_after_store(rest.histograms, last, percentiles_of(all), name);
            },
            AggregateModel::Gauge { .. } => {
                let stats = gauge_stats(samples_under(samples, last));
                store_keeps_order(rest.gauges, last, stats);
                lookup_after_store(rest.gauges, last, stats, name);
            },
        }
    }
}

pub(crate) proof fn lemma_summary_lookups(p: PhaseModel, end: Option<u64>, name: Seq<char>)
    ensures
        lookup(phase_summary(p, end).histograms, name) == (match lookup(p.histograms, name) {
            Some(c) => Some(percentiles_of(c)),
            None => None,
        }),
        lookup(phase_summary(p, end).gauges, name) == (match lookup(p.gauges, name) {
            Some(points) => Some(gauge_stats(points)),
            None => None,
        }),
{
    let r = phase_summary(p, end);
    lemma_same_keys(p.histograms, r.histograms, name);
    lemma_same_keys(p.gauges, r.gauges, name);
    lemma_slot(p.histograms, name);
    lemma_slot(p.gauges, name);
}

/// The whole run is summed up as one phase: it starts in second zero, lasts at least a second, and
/// ends now.
pub proof fn the_whole_run_is_one_phase(s: StoreModel)
    ensures
        overall(s).name == "overall"@,
        overall(s).start_second == 0,
        overall(s).end_second == Some(
            if s.current_second == 0 {
                1
            } else {
                s.current_second
            },
        ),
{
    lemma_folded_frame(s.metrics, s.samples);
}

/// A counter that was reported after its declaration is known to the phase.
pub proof fn a_reported_counter_is_in_its_phase(
    specs: Seq<MetricSpecModel>,
    phase: Seq<char>,
    moves: Seq<Move>,
    i: int,
)
    requires
        forall|j: int| 0 <= j < moves.len() ==> !((#[trigger] moves[j]) is Begin),
        0 <= i < moves.len(),
        moves[i] is Observe,
        lookup(begun(specs, phase).metrics, moves[i]->Observe_0.metric) is Some,
        lookup(begun(specs, phase).metrics, moves[i]->Observe_0.metric)->0.spec.kind == MetricKind::Counter,
    ensures
        lookup(after_all(begun(specs, phase), moves).phases[0].counters, moves[i]->Observe_0.metric) is Some,
    decreases moves.len(),
{
    let s0 = begun(specs, phase);
    let name = moves[i]->Observe_0.metric;
    let rest = moves.drop_last();
    assert forall|j: int| 0 <= j < rest.len() implies !((#[trigger] rest[j]) is Begin) by {
        assert(rest[j] == moves[j]);
    }
    lemma_begun(specs, phase);
    lemma_one_phase(s0, rest);
    lemma_kept_kind(s0, rest, name);
    let s = after_all(s0, rest);
    let p = s.phases[0];
    assert(crate::metrics::phase_in_order(p));
    if i < rest.len() {
        assert(rest[i] == moves[i]);
        a_reported_counter_is_in_its_phase(specs, phase, rest, i);
    }
    if let Move::Observe(o) = moves.last() {
        let sum = (match lookup(p.counters, o.metric) {
            Some(n) => n,
            None => zero(false),
        }).plus(o.value);
        lookup_after_store(p.counters, o.metric, sum, name);
    }
    assert(!(moves[moves.len() - 1] is Begin));
}

/// A declared metric stays declared, with its kind.
proof fn lemma_kept_kind(s: StoreModel, moves: Seq<Move>, name: Seq<char>)
    requires
        coherent(s),
        lookup(s.metrics, name) is Some,
    ensures
        lookup(after_all(s, moves).metrics, name) is Some,
        lookup(after_all(s, moves).metrics, name)->0.spec == lookup(s.metrics, name)->0.spec,
    decreases moves.len(),
{
    if moves.len() > 0 {
        lemma_kept_kind(s, moves.drop_last(), name);
        a_store_stays_coherent(s, moves.drop_last());
        lemma_touched(after_all(s, moves.drop_last()), moves.last(), name);
    }
}

/// A run of one phase, begun before anything was recorded, is judged as that phase is, for every
/// statistic; but for the total and rate of a counter that was never reported, which is zero over
/// the whole run and unknown to the phase.
pub proof fn a_run_of_one_phase_is_judged_as_the_phase(
    specs: Seq<MetricSpecModel>,
    phase: Seq<char>,
    moves: Seq<Move>,
    t: ThresholdModel,
)
    requires
        forall|i: int| 0 <= i < moves.len() ==> !((#[trigger] moves[i]) is Begin),
        ({
            let s = after_all(begun(specs, phase), moves);
            (t.stat == Stat::Total || t.stat == Stat::Rate) && lookup(s.metrics, t.metric) is Some ==> lookup(
                s.phases[0].counters,
                t.metric,
            ) is Some || !(lookup(s.metrics, t.metric)->0.aggregate is Counter)
        }),
    ensures
        ({
            let s = after_all(begun(specs, phase), moves);
            &&& s.phases.len() == 1
            &&& judged_value(t, overall(s), s.current_second) == judged_value(
                t,
                summaries(s.phases)[0],
                s.current_second,
            )
        }),
{
    let s = after_all(begun(specs, phase), moves);
    lemma_begun(specs, phase);
    lemma_one_phase(begun(specs, phase), moves);
    lemma_folded(s.metrics, s.samples, t.metric);
    the_whole_run_is_one_phase(s);
    lemma_summary_lookups(s.phases[0], None, t.metric);
    assert(same_account(s, t.metric));
    let rows = Seq::<(Seq<char>, Number)>::empty();
    lemma_slot(rows, crate::rows::row_key(t.labels));
}

} // verus!
