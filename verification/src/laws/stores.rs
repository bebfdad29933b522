//! The store of metrics: what each of its operations keeps, and what it leaves alone.

use vstd::prelude::*;
use vstd::multiset::Multiset;
use crate::hist::hist_with;
use crate::metrics::{
    aggregate_in_order, aggregate_kind, hist_units, phase_in_order, phase_recorded, raised, recorded, rolled,
    samples_under, AggregateModel, MetricModel, PhaseModel,
};
use crate::number::Number;
use crate::protocol::{label_key_spec, LabelsModel, MetricKind, MetricSpecModel, ObservationModel};
use crate::render::phases_in_time;
use crate::sorted::{
    holds, in_order, lemma_slot, lemma_slot_unique, lookup, lookup_after_store, slot, store, store_keeps_order,
};
use crate::store::{
    advanced, all_declared, all_observed, all_rolled, coherent, declared, empty_store, observed, phase_begun,
    rolled_through, summaries, StoreModel,
};

verus! {

/// After setting a key, each entry is that of the key or was there before.
proof fn lemma_entries<T>(s: Seq<(Seq<char>, T)>, k: Seq<char>, v: T)
    ensures
        forall|i: int|
            0 <= i < store(s, k, v).len() ==> (#[trigger] store(s, k, v)[i]) == (k, v) || s.contains(store(s, k, v)[i]),
{
    let t = store(s, k, v);
    lemma_slot(s, k);
    assert forall|i: int| 0 <= i < t.len() implies (#[trigger] t[i]) == (k, v) || s.contains(t[i]) by {
        let n = slot(s, k);
        if holds(s, k) {
            if i != n {
                assert(t[i] == s[i]);
            }
        } else if i < n {
            assert(t[i] == s[i]);
        } else if i > n {
            assert(t[i] == s[i - 1]);
        }
    }
}

/// Maps with the same keys hold the same keys.
pub(crate) proof fn lemma_same_keys<T, U>(s: Seq<(Seq<char>, T)>, t: Seq<(Seq<char>, U)>, k: Seq<char>)
    requires
        s.len() == t.len(),
        forall|i: int| 0 <= i < s.len() ==> (#[trigger] s[i]).0 == t[i].0,
    ensures
        slot(s, k) == slot(t, k),
        holds(s, k) == holds(t, k),
{
    lemma_slot(t, k);
    let n = slot(t, k);
    assert forall|i: int| 0 <= i < n implies crate::text::precedes(#[trigger] s[i].0, k) by {
        assert(s[i].0 == t[i].0);
    }
    if n < s.len() {
        assert(s[n].0 == t[n].0);
    }
    lemma_slot_unique(s, k, n);
}

/// A store without metrics is coherent.
pub proof fn an_empty_store_is_coherent()
    ensures
        coherent(empty_store()),
{
    let s = empty_store();
    assert forall|name: Seq<char>| s.order.contains(name) <==> #[trigger] lookup(s.metrics, name) is Some by {
        lemma_slot(s.metrics, name);
    }
    assert forall|name: Seq<char>| (#[trigger] lookup(s.samples, name)) is None by {
        lemma_slot(s.samples, name);
    }
}

/// Declaring a metric keeps a store coherent.
pub proof fn declaring_keeps_coherence(s: StoreModel, spec: MetricSpecModel)
    requires
        coherent(s),
    ensures
        coherent(declared(s, spec)),
{
    if lookup(s.metrics, spec.name) is None {
        let t = declared(s, spec);
        let m = lookup(t.metrics, spec.name);
        let v = MetricModel { spec, aggregate: crate::metrics::fresh_aggregate(spec.kind) };
        store_keeps_order(s.metrics, spec.name, v);
        lemma_entries(s.metrics, spec.name, v);
        assert forall|i: int| 0 <= i < t.metrics.len() implies (#[trigger] t.metrics[i]).0 == t.metrics[i].1.spec.name
            && aggregate_kind(t.metrics[i].1.aggregate) == t.metrics[i].1.spec.kind && aggregate_in_order(
            t.metrics[i].1.aggregate,
        ) by {
            if t.metrics[i] != (spec.name, v) {
                let j = choose|j: int| 0 <= j < s.metrics.len() && s.metrics[j] == t.metrics[i];
                assert(s.metrics[j].0 == s.metrics[j].1.spec.name);
            }
        }
        assert forall|name: Seq<char>| (#[trigger] lookup(t.samples, name)) is Some implies lookup(
            t.metrics,
            name,
        ) is Some by {
            lookup_after_store(s.metrics, spec.name, v, name);
            assert(lookup(s.samples, name) is Some);
        }
        assert(!s.order.contains(spec.name));
        assert(t.order.no_duplicates());
        assert forall|name: Seq<char>| t.order.contains(name) <==> #[trigger] lookup(t.metrics, name) is Some by {
            lookup_after_store(s.metrics, spec.name, v, name);
            assert(s.order.contains(name) <==> lookup(s.metrics, name) is Some);
            assert(t.order[t.order.len() - 1] == spec.name);
            if s.order.contains(name) {
                let i = choose|i: int| 0 <= i < s.order.len() && s.order[i] == name;
                assert(t.order[i] == name);
            }
            if t.order.contains(name) && name != spec.name {
                let i = choose|i: int| 0 <= i < t.order.len() && t.order[i] == name;
                assert(s.order[i] == name);
            }
        }
    }
}

/// Declaring some metrics keeps a store coherent.
pub proof fn declaring_all_keeps_coherence(s: StoreModel, specs: Seq<MetricSpecModel>)
    requires
        coherent(s),
    ensures
        coherent(all_declared(s, specs)),
    decreases specs.len(),
{
    if specs.len() > 0 {
        declaring_all_keeps_coherence(s, specs.drop_last());
        declaring_keeps_coherence(all_declared(s, specs.drop_last()), specs.last());
    }
}

/// Metrics in key order, each under its own name and with the aggregate of its kind, known by
/// the names in `order`.
spec fn sound(metrics: Seq<(Seq<char>, MetricModel)>, order: Seq<Seq<char>>) -> bool {
    &&& in_order(metrics)
    &&& forall|i: int|
        0 <= i < metrics.len() ==> (#[trigger] metrics[i]).0 == metrics[i].1.spec.name && aggregate_kind(
            metrics[i].1.aggregate,
        ) == metrics[i].1.spec.kind && aggregate_in_order(metrics[i].1.aggregate)
    &&& forall|name: Seq<char>| order.contains(name) <==> #[trigger] lookup(metrics, name) is Some
}

proof fn lemma_rolled_sound(metrics: Seq<(Seq<char>, MetricModel)>, order: Seq<Seq<char>>, second: u64)
    requires
        sound(metrics, order),
    ensures
        sound(all_rolled(metrics, second), order),
{
    let t = all_rolled(metrics, second);
    assert forall|i: int, j: int| 0 <= i < j < t.len() implies crate::text::precedes(
        #[trigger] t[i].0,
        #[trigger] t[j].0,
    ) by {
        assert(crate::text::precedes(metrics[i].0, metrics[j].0));
    }
    assert forall|i: int| 0 <= i < t.len() implies (#[trigger] t[i]).0 == t[i].1.spec.name && aggregate_kind(
        t[i].1.aggregate,
    ) == t[i].1.spec.kind && aggregate_in_order(t[i].1.aggregate) by {
        assert(metrics[i].0 == metrics[i].1.spec.name);
    }
    assert forall|name: Seq<char>| order.contains(name) <==> #[trigger] lookup(t, name) is Some by {
        lemma_same_keys(metrics, t, name);
        assert(order.contains(name) <==> lookup(metrics, name) is Some);
    }
}

proof fn lemma_rolled_through_sound(
    metrics: Seq<(Seq<char>, MetricModel)>,
    order: Seq<Seq<char>>,
    from: u64,
    to: u64,
)
    requires
        sound(metrics, order),
    ensures
        sound(rolled_through(metrics, from, to), order),
    decreases to - from,
{
    if from < to {
        lemma_rolled_sound(metrics, order, from);
        lemma_rolled_through_sound(all_rolled(metrics, from), order, (from + 1) as u64, to);
    }
}

/// Advancing keeps a store coherent.
pub proof fn advancing_keeps_coherence(s: StoreModel, second: u64)
    requires
        coherent(s),
    ensures
        coherent(advanced(s, second)),
{
    assert(sound(s.metrics, s.order));
    lemma_rolled_through_sound(s.metrics, s.order, s.current_second, second);
    let t = advanced(s, second);
    assert(sound(t.metrics, t.order));
    assert forall|name: Seq<char>| (#[trigger] lookup(t.samples, name)) is Some implies lookup(
        t.metrics,
        name,
    ) is Some by {
        assert(lookup(s.samples, name) is Some);
        assert(lookup(s.metrics, name) is Some);
    }
    assert forall|i: int| 0 <= i < t.phases.len() implies (#[trigger] t.phases[i]).start_second
        <= t.current_second by {
        assert(s.phases[i].start_second <= s.current_second);
    }
}

proof fn lemma_recorded_in_order(a: AggregateModel, v: Number, labels: LabelsModel)
    requires
        aggregate_in_order(a),
    ensures
        aggregate_in_order(recorded(a, v, labels)),
{
    if let Some(k) = label_key_spec(labels) {
        match a {
            AggregateModel::Counter { by_label, .. } => lemma_raised_in_order(by_label, k, v),
            AggregateModel::Gauge { by_label, .. } => store_keeps_order(by_label, k, v),
            AggregateModel::Histogram { by_label, .. } => {
                let c = match lookup(by_label, k) {
                    Some(x) => x,
                    None => Multiset::empty(),
                };
                store_keeps_order(by_label, k, hist_with(c, hist_units(v)));
            },
        }
    }
}

proof fn lemma_raised_in_order(m: Seq<(Seq<char>, Number)>, k: Seq<char>, v: Number)
    requires
        in_order(m),
    ensures
        in_order(raised(m, k, v)),
{
    let sum = (match lookup(m, k) {
        Some(x) => x,
        None => crate::number::zero(false),
    }).plus(v);
    store_keeps_order(m, k, sum);
}

proof fn lemma_phase_recorded_in_order(p: PhaseModel, kind: MetricKind, o: ObservationModel, second: u64)
    requires
        phase_in_order(p),
    ensures
        phase_in_order(phase_recorded(p, kind, o, second)),
{
    match kind {
        MetricKind::Counter => {
            lemma_raised_in_order(p.counters, o.metric, o.value);
            if let Some(k) = label_key_spec(o.labels) {
                let before = match lookup(p.counter_labels, o.metric) {
                    Some(m) => m,
                    None => Seq::empty(),
                };
                lemma_slot(p.counter_labels, o.metric);
                if lookup(p.counter_labels, o.metric) is Some {
                    assert(in_order(p.counter_labels[slot(p.counter_labels, o.metric)].1));
                }
                lemma_raised_in_order(before, k, o.value);
                let after = raised(before, k, o.value);
                store_keeps_order(p.counter_labels, o.metric, after);
                lemma_entries(p.counter_labels, o.metric, after);
                let t = store(p.counter_labels, o.metric, after);
                assert forall|i: int| 0 <= i < t.len() implies in_order((#[trigger] t[i]).1) by {
                    if t[i] != (o.metric, after) {
                        let j = choose|j: int| 0 <= j < p.counter_labels.len() && p.counter_labels[j] == t[i];
                        assert(in_order(p.counter_labels[j].1));
                    }
                }
            }
        },
        MetricKind::Histogram => {
            let c = match lookup(p.histograms, o.metric) {
                Some(x) => x,
                None => Multiset::empty(),
            };
            store_keeps_order(p.histograms, o.metric, hist_with(c, hist_units(o.value)));
        },
        MetricKind::Gauge => {
            let points = samples_under(p.gauges, o.metric);
            store_keeps_order(p.gauges, o.metric, points.push((second, o.value)));
        },
    }
}

/// Recording keeps a store coherent.
pub proof fn recording_keeps_coherence(s: StoreModel, o: ObservationModel)
    requires
        coherent(s),
    ensures
        coherent(observed(s, o)),
{
    let t = observed(s, o);
    match lookup(s.metrics, o.metric) {
        None => {
            let count = match lookup(s.unknown, o.metric) {
                Some(n) => if n < u64::MAX {
                    (n + 1) as u64
                } else {
                    n
                },
                None => 1,
            };
            store_keeps_order(s.unknown, o.metric, count);
        },
        Some(m) => {
            let v = MetricModel { spec: m.spec, aggregate: recorded(m.aggregate, o.value, o.labels) };
            store_keeps_order(s.metrics, o.metric, v);
            store_keeps_order(
                s.samples,
                o.metric,
                samples_under(s.samples, o.metric).push((s.current_second, o.value)),
            );
            lemma_entries(s.metrics, o.metric, v);
            lemma_slot(s.metrics, o.metric);
            let at = slot(s.metrics, o.metric);
            assert(s.metrics[at].0 == s.metrics[at].1.spec.name);
            lemma_recorded_in_order(m.aggregate, o.value, o.labels);
            assert forall|i: int| 0 <= i < t.metrics.len() implies (#[trigger] t.metrics[i]).0
                == t.metrics[i].1.spec.name && aggregate_kind(t.metrics[i].1.aggregate)
                == t.metrics[i].1.spec.kind && aggregate_in_order(t.metrics[i].1.aggregate) by {
                if t.metrics[i] != (o.metric, v) {
                    let j = choose|j: int| 0 <= j < s.metrics.len() && s.metrics[j] == t.metrics[i];
                    assert(s.metrics[j].0 == s.metrics[j].1.spec.name);
                }
            }
            assert forall|name: Seq<char>| t.order.contains(name) <==> #[trigger] lookup(t.metrics, name) is Some by {
                lookup_after_store(s.metrics, o.metric, v, name);
                assert(s.order.contains(name) <==> lookup(s.metrics, name) is Some);
            }
            assert forall|name: Seq<char>| (#[trigger] lookup(t.samples, name)) is Some implies lookup(
                t.metrics,
                name,
            ) is Some by {
                lookup_after_store(s.metrics, o.metric, v, name);
                lookup_after_store(
                    s.samples,
                    o.metric,
                    samples_under(s.samples, o.metric).push((s.current_second, o.value)),
                    name,
                );
                assert(lookup(s.samples, name) is Some ==> lookup(s.metrics, name) is Some);
            }
            assert forall|i: int| 0 <= i < t.phases.len() implies (#[trigger] t.phases[i]).start_second
                == s.phases[i].start_second by {}
            if s.phases.len() > 0 {
                assert(phase_in_order(s.phases[s.phases.len() - 1]));
                lemma_phase_recorded_in_order(s.phases.last(), m.spec.kind, o, s.current_second);
            }
            assert forall|i: int| 0 <= i < t.phases.len() implies phase_in_order(#[trigger] t.phases[i]) by {
                assert(phase_in_order(s.phases[i]));
            }
            assert forall|i: int, j: int| 0 <= i <= j < t.phases.len() implies (#[trigger] t.phases[i]).start_second
                <= (#[trigger] t.phases[j]).start_second by {
                assert(s.phases[i].start_second <= s.phases[j].start_second);
            }
        },
    }
}

/// Recording some observations keeps a store coherent.
pub proof fn recording_all_keeps_coherence(s: StoreModel, os: Seq<ObservationModel>)
    requires
        coherent(s),
    ensures
        coherent(all_observed(s, os)),
    decreases os.len(),
{
    if os.len() > 0 {
        recording_all_keeps_coherence(s, os.drop_last());
        recording_keeps_coherence(all_observed(s, os.drop_last()), os.last());
    }
}

/// Beginning a phase keeps a store coherent.
pub proof fn beginning_a_phase_keeps_coherence(s: StoreModel, name: Seq<char>)
    requires
        coherent(s),
    ensures
        coherent(phase_begun(s, name)),
{
    let t = phase_begun(s, name);
    assert forall|other: Seq<char>| (#[trigger] lookup(t.samples, other)) is Some implies lookup(
        t.metrics,
        other,
    ) is Some by {
        assert(lookup(s.samples, other) is Some);
    }
    assert forall|i: int| 0 <= i < t.phases.len() implies phase_in_order(#[trigger] t.phases[i]) by {
        if i < s.phases.len() {
            assert(t.phases[i] == s.phases[i]);
        }
    }
    assert forall|i: int| 0 <= i < t.phases.len() implies (#[trigger] t.phases[i]).start_second <= t.current_second by {
        if i < s.phases.len() {
            assert(t.phases[i] == s.phases[i]);
        }
    }
    assert forall|i: int, j: int| 0 <= i <= j < t.phases.len() implies (#[trigger] t.phases[i]).start_second
        <= (#[trigger] t.phases[j]).start_second by {
        if j < s.phases.len() {
            assert(s.phases[i].start_second <= s.phases[j].start_second);
        } else {
            assert(t.phases[i].start_second <= t.current_second);
        }
    }
}

/// A declared metric is known, and every metric known before is as it was.
pub proof fn a_declared_metric_is_known(s: StoreModel, spec: MetricSpecModel, other: Seq<char>)
    requires
        coherent(s),
    ensures
        lookup(declared(s, spec).metrics, spec.name) is Some,
        lookup(s.metrics, other) is Some ==> lookup(declared(s, spec).metrics, other) == lookup(s.metrics, other),
{
    if lookup(s.metrics, spec.name) is None {
        let v = MetricModel { spec, aggregate: crate::metrics::fresh_aggregate(spec.kind) };
        lookup_after_store(s.metrics, spec.name, v, other);
    }
}

/// Metrics known before some are declared are as they were.
pub proof fn declaring_leaves_known_metrics(s: StoreModel, specs: Seq<MetricSpecModel>, name: Seq<char>)
    requires
        coherent(s),
        lookup(s.metrics, name) is Some,
    ensures
        lookup(all_declared(s, specs).metrics, name) == lookup(s.metrics, name),
    decreases specs.len(),
{
    if specs.len() > 0 {
        declaring_leaves_known_metrics(s, specs.drop_last(), name);
        declaring_all_keeps_coherence(s, specs.drop_last());
        a_declared_metric_is_known(all_declared(s, specs.drop_last()), specs.last(), name);
    }
}

/// Each of the metrics that were declared is known.
pub proof fn all_declared_metrics_are_known(s: StoreModel, specs: Seq<MetricSpecModel>, i: int)
    requires
        coherent(s),
        0 <= i < specs.len(),
    ensures
        lookup(all_declared(s, specs).metrics, specs[i].name) is Some,
    decreases specs.len(),
{
    let before = all_declared(s, specs.drop_last());
    declaring_all_keeps_coherence(s, specs.drop_last());
    if i == specs.len() - 1 {
        a_declared_metric_is_known(before, specs.last(), specs.last().name);
    } else {
        assert(specs.drop_last()[i] == specs[i]);
        all_declared_metrics_are_known(s, specs.drop_last(), i);
        a_declared_metric_is_known(before, specs.last(), specs[i].name);
    }
}

/// Declaring metrics that are known changes nothing.
pub proof fn declaring_known_metrics_changes_nothing(s: StoreModel, specs: Seq<MetricSpecModel>)
    requires
        forall|i: int| 0 <= i < specs.len() ==> lookup(s.metrics, (#[trigger] specs[i]).name) is Some,
    ensures
        all_declared(s, specs) == s,
    decreases specs.len(),
{
    if specs.len() > 0 {
        let rest = specs.drop_last();
        assert forall|i: int| 0 <= i < rest.len() implies lookup(s.metrics, (#[trigger] rest[i]).name) is Some by {
            assert(rest[i] == specs[i]);
        }
        declaring_known_metrics_changes_nothing(s, rest);
        assert(lookup(s.metrics, specs[specs.len() - 1].name) is Some);
    }
}

/// Declaring the same metrics a second time changes nothing.
pub proof fn declaring_twice_is_declaring_once(s: StoreModel, specs: Seq<MetricSpecModel>)
    requires
        coherent(s),
    ensures
        all_declared(all_declared(s, specs), specs) == all_declared(s, specs),
{
    let t = all_declared(s, specs);
    assert forall|i: int| 0 <= i < specs.len() implies lookup(t.metrics, (#[trigger] specs[i]).name) is Some by {
        all_declared_metrics_are_known(s, specs, i);
    }
    declaring_known_metrics_changes_nothing(t, specs);
}

/// A metric that was never declared is counted, once for each report and as far as it can be
/// counted, and changes nothing else.
pub proof fn an_undeclared_metric_is_counted_and_otherwise_ignored(
    s: StoreModel,
    o: ObservationModel,
    other: Seq<char>,
)
    requires
        coherent(s),
        lookup(s.metrics, o.metric) is None,
    ensures
        observed(s, o) == (StoreModel { unknown: observed(s, o).unknown, ..s }),
        lookup(observed(s, o).unknown, o.metric) == Some(
            match lookup(s.unknown, o.metric) {
                None => 1u64,
                Some(n) => if n == u64::MAX {
                    n
                } else {
                    (n + 1) as u64
                },
            },
        ),
        other != o.metric ==> lookup(observed(s, o).unknown, other) == lookup(s.unknown, other),
{
    let count = match lookup(s.unknown, o.metric) {
        Some(n) => if n < u64::MAX {
            (n + 1) as u64
        } else {
            n
        },
        None => 1,
    };
    lookup_after_store(s.unknown, o.metric, count, other);
}

/// An observation of a declared metric goes to that metric and to the phase that began last; the
/// other metrics, the earlier phases, the clock and the counts of undeclared metrics stay.
pub proof fn an_observation_stays_where_it_belongs(s: StoreModel, o: ObservationModel, other: Seq<char>, i: int)
    requires
        coherent(s),
        lookup(s.metrics, o.metric) is Some,
    ensures
        lookup(observed(s, o).metrics, o.metric) == Some(
            MetricModel {
                spec: lookup(s.metrics, o.metric)->0.spec,
                aggregate: recorded(lookup(s.metrics, o.metric)->0.aggregate, o.value, o.labels),
            },
        ),
        other != o.metric ==> lookup(observed(s, o).metrics, other) == lookup(s.metrics, other),
        observed(s, o).phases.len() == s.phases.len(),
        0 <= i < s.phases.len() - 1 ==> observed(s, o).phases[i] == s.phases[i],
        observed(s, o).order == s.order,
        observed(s, o).current_second == s.current_second,
        observed(s, o).unknown == s.unknown,
{
    let m = lookup(s.metrics, o.metric)->0;
    let v = MetricModel { spec: m.spec, aggregate: recorded(m.aggregate, o.value, o.labels) };
    lookup_after_store(s.metrics, o.metric, v, other);
}

/// An observation of a counter or gauge touches the open bucket alone: the closed ones stay.
pub proof fn closed_buckets_stay(a: AggregateModel, v: Number, labels: LabelsModel)
    ensures
        match (a, recorded(a, v, labels)) {
            (
                AggregateModel::Counter { per_second: before, .. },
                AggregateModel::Counter { per_second: after, .. },
            ) => after.len() == before.len() && forall|i: int|
                0 <= i < before.len() - 1 ==> #[trigger] after[i] == before[i],
            (
                AggregateModel::Gauge { per_second: before, .. },
                AggregateModel::Gauge { per_second: after, .. },
            ) => after.len() == before.len() && forall|i: int|
                0 <= i < before.len() - 1 ==> #[trigger] after[i] == before[i],
            (
                AggregateModel::Histogram { windows: before, .. },
                AggregateModel::Histogram { windows: after, .. },
            ) => after == before,
            _ => false,
        },
{
}

pub(crate) proof fn lemma_rolled_lookup(metrics: Seq<(Seq<char>, MetricModel)>, second: u64, name: Seq<char>)
    ensures
        match lookup(metrics, name) {
            Some(m) => lookup(all_rolled(metrics, second), name) == Some(
                MetricModel { spec: m.spec, aggregate: rolled(m.aggregate, second) },
            ),
            None => lookup(all_rolled(metrics, second), name) is None,
        },
{
    lemma_same_keys(metrics, all_rolled(metrics, second), name);
    lemma_slot(metrics, name);
}

/// Buckets closed in two goes are closed as in one.
proof fn lemma_rolled_in_two(metrics: Seq<(Seq<char>, MetricModel)>, from: u64, mid: u64, to: u64)
    requires
        from <= mid <= to,
    ensures
        rolled_through(rolled_through(metrics, from, mid), mid, to) == rolled_through(metrics, from, to),
    decreases mid - from,
{
    if from < mid {
        lemma_rolled_in_two(all_rolled(metrics, from), (from + 1) as u64, mid, to);
    }
}

/// Advancing to one second and then to another is advancing to the later of the two; the clock
/// never goes back.
pub proof fn advancing_twice_is_advancing_to_the_later(s: StoreModel, a: u64, b: u64)
    ensures
        advanced(advanced(s, a), b) == advanced(
            s,
            if a < b {
                b
            } else {
                a
            },
        ),
        advanced(s, a).current_second >= s.current_second,
{
    let mid = if a > s.current_second {
        a
    } else {
        s.current_second
    };
    if a > s.current_second {
        if b > a {
            lemma_rolled_in_two(s.metrics, s.current_second, a, b);
        }
    }
    assert(advanced(advanced(s, a), b) =~= advanced(
        s,
        if a < b {
            b
        } else {
            a
        },
    ));
}

/// Advancing a counter opens one empty bucket for each second and leaves its sums alone.
pub proof fn advancing_opens_empty_counter_buckets(s: StoreModel, second: u64, name: Seq<char>)
    requires
        lookup(s.metrics, name) is Some,
        lookup(s.metrics, name)->0.aggregate is Counter,
        s.current_second <= second,
    ensures
        lookup(advanced(s, second).metrics, name) is Some,
        lookup(advanced(s, second).metrics, name)->0.aggregate == (AggregateModel::Counter {
            total: lookup(s.metrics, name)->0.aggregate->Counter_total,
            per_second: lookup(s.metrics, name)->0.aggregate->Counter_per_second + Seq::new(
                (second - s.current_second) as nat,
                |i: int| crate::number::zero(false),
            ),
            by_label: lookup(s.metrics, name)->0.aggregate->Counter_by_label,
        }),
    decreases second - s.current_second,
{
    let m = lookup(s.metrics, name)->0;
    if s.current_second < second {
        let next = StoreModel {
            metrics: all_rolled(s.metrics, s.current_second),
            current_second: (s.current_second + 1) as u64,
            ..s
        };
        lemma_rolled_lookup(s.metrics, s.current_second, name);
        advancing_opens_empty_counter_buckets(next, second, name);
        assert(advanced(next, second).metrics == advanced(s, second).metrics);
        assert(m.aggregate->Counter_per_second.push(crate::number::zero(false)) + Seq::new(
            (second - next.current_second) as nat,
            |i: int| crate::number::zero(false),
        ) =~= m.aggregate->Counter_per_second + Seq::new(
            (second - s.current_second) as nat,
            |i: int| crate::number::zero(false),
        ));
    } else {
        assert(m.aggregate->Counter_per_second + Seq::new(0, |i: int| crate::number::zero(false))
            =~= m.aggregate->Counter_per_second);
    }
}

/// Advancing a gauge opens one bucket for each second, which holds its last value if it has one.
pub proof fn advancing_holds_the_last_gauge_value(s: StoreModel, second: u64, name: Seq<char>)
    requires
        lookup(s.metrics, name) is Some,
        lookup(s.metrics, name)->0.aggregate is Gauge,
        s.current_second <= second,
    ensures
        lookup(advanced(s, second).metrics, name) is Some,
        lookup(advanced(s, second).metrics, name)->0.aggregate == (AggregateModel::Gauge {
            last: lookup(s.metrics, name)->0.aggregate->last,
            per_second: lookup(s.metrics, name)->0.aggregate->Gauge_per_second + Seq::new(
                (second - s.current_second) as nat,
                |i: int|
                    if lookup(s.metrics, name)->0.aggregate->last.nan() {
                        None
                    } else {
                        Some(lookup(s.metrics, name)->0.aggregate->last)
                    },
            ),
            by_label: lookup(s.metrics, name)->0.aggregate->Gauge_by_label,
        }),
    decreases second - s.current_second,
{
    let m = lookup(s.metrics, name)->0;
    let held = if m.aggregate->last.nan() {
        None
    } else {
        Some(m.aggregate->last)
    };
    if s.current_second < second {
        let next = StoreModel {
            metrics: all_rolled(s.metrics, s.current_second),
            current_second: (s.current_second + 1) as u64,
            ..s
        };
        lemma_rolled_lookup(s.metrics, s.current_second, name);
        advancing_holds_the_last_gauge_value(next, second, name);
        assert(advanced(next, second).metrics == advanced(s, second).metrics);
        assert(m.aggregate->Gauge_per_second.push(held) + Seq::new(
            (second - next.current_second) as nat,
            |i: int| held,
        ) =~= m.aggregate->Gauge_per_second + Seq::new((second - s.current_second) as nat, |i: int| held));
        let after = lookup(advanced(s, second).metrics, name)->0.aggregate;
        assert(after->Gauge_per_second =~= m.aggregate->Gauge_per_second + Seq::new(
            (second - s.current_second) as nat,
            |i: int|
                if lookup(s.metrics, name)->0.aggregate->last.nan() {
                    None
                } else {
                    Some(lookup(s.metrics, name)->0.aggregate->last)
                },
        ));
    } else {
        assert(m.aggregate->Gauge_per_second =~= m.aggregate->Gauge_per_second + Seq::new(
            (second - s.current_second) as nat,
            |i: int|
                if lookup(s.metrics, name)->0.aggregate->last.nan() {
                    None
                } else {
                    Some(lookup(s.metrics, name)->0.aggregate->last)
                },
        ));
    }
}

/// Advancing a histogram puts one point on its chart for the second that was open, if anything
/// was recorded in it, and leaves its percentiles over the whole run alone.
pub proof fn advancing_closes_one_window(s: StoreModel, second: u64, name: Seq<char>)
    requires
        lookup(s.metrics, name) is Some,
        lookup(s.metrics, name)->0.aggregate is Histogram,
        s.current_second < second,
    ensures
        lookup(advanced(s, second).metrics, name) is Some,
        lookup(advanced(s, second).metrics, name)->0.aggregate == rolled(
            lookup(s.metrics, name)->0.aggregate,
            s.current_second,
        ),
    decreases second - s.current_second,
{
    let next = StoreModel {
        metrics: all_rolled(s.metrics, s.current_second),
        current_second: (s.current_second + 1) as u64,
        ..s
    };
    lemma_rolled_lookup(s.metrics, s.current_second, name);
    if next.current_second < second {
        advancing_closes_one_window(next, second, name);
    }
    assert(advanced(next, second).metrics == advanced(s, second).metrics);
}

/// Phases follow one another without a gap: each ends in the second in which the next begins,
/// and the last one goes on.
pub proof fn phases_follow_one_another(s: StoreModel, i: int)
    requires
        0 <= i < s.phases.len(),
    ensures
        summaries(s.phases).len() == s.phases.len(),
        summaries(s.phases)[i].name == s.phases[i].name,
        summaries(s.phases)[i].start_second == s.phases[i].start_second,
        summaries(s.phases)[i].end_second == (if i + 1 < s.phases.len() {
            Some(summaries(s.phases)[i + 1].start_second)
        } else {
            None
        }),
{
}

/// No phase of a coherent store ends before it starts.
pub proof fn phases_of_a_store_are_in_time(s: StoreModel)
    requires
        coherent(s),
    ensures
        phases_in_time(summaries(s.phases)),
{
    let ps = summaries(s.phases);
    assert forall|i: int| 0 <= i < ps.len() && (#[trigger] ps[i]).end_second is Some implies ps[i].start_second
        <= ps[i].end_second->0 by {
        assert(s.phases[i].start_second <= s.phases[i + 1].start_second);
    }
}

} // verus!
