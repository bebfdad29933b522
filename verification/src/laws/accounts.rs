//! Accounts: what a store says of a metric is what was reported of it, in all, in each second, in each
//! phase and under each label set.

use vstd::prelude::*;
use vstd::multiset::Multiset;
use crate::hist::{bucket_low, hist_with};
use crate::laws::histories::{
    a_store_stays_coherent, after_all, every_operation_keeps_coherence, lemma_kind, lemma_rolled_on, rolled_on, Move,
};
use crate::laws::labels::distinct_label_sets_have_distinct_keys;
use crate::laws::stores::an_empty_store_is_coherent;
use crate::metrics::{
    aggregate_in_order, fresh_aggregate, hist_units, percentiles_of, phase_in_order, phase_recorded, raised, recorded,
    rolled, samples_under, AggregateModel, MetricModel, PhaseModel,
};
use crate::number::{not_a_number, zero, Number};
use crate::protocol::{label_key_spec, LabelsModel, MetricKind, ObservationModel};
use crate::sorted::{in_order, lemma_slot, lookup, lookup_after_store, slot};
use crate::store::{coherent, empty_store, StoreModel};

verus! {

/// An observation of a declared metric, with the second and the phase in which it came; the phase is
/// -1 before the first.
pub struct Report {
    pub metric: Seq<char>,
    pub value: Number,
    pub labels: LabelsModel,
    pub second: u64,
    pub phase: int,
}

/// The observations of declared metrics among some operations, in their order.
pub open spec fn reports(moves: Seq<Move>) -> Seq<Report>
    decreases moves.len(),
{
    if moves.len() == 0 {
        Seq::empty()
    } else {
        let s = after_all(empty_store(), moves.drop_last());
        let rest = reports(moves.drop_last());
        match moves.last() {
            Move::Observe(o) => if lookup(s.metrics, o.metric) is Some {
                rest.push(
                    Report {
                        metric: o.metric,
                        value: o.value,
                        labels: o.labels,
                        second: s.current_second,
                        phase: s.phases.len() - 1,
                    },
                )
            } else {
                rest
            },
            _ => rest,
        }
    }
}

/// The values of those reports that are of some kind.
pub open spec fn values(rs: Seq<Report>, kind: spec_fn(Report) -> bool) -> Seq<Number>
    decreases rs.len(),
{
    if rs.len() == 0 {
        Seq::empty()
    } else if kind(rs.last()) {
        values(rs.drop_last(), kind).push(rs.last().value)
    } else {
        values(rs.drop_last(), kind)
    }
}

/// The values of those reports that are of some kind, with their seconds.
pub open spec fn timed(rs: Seq<Report>, kind: spec_fn(Report) -> bool) -> Seq<(u64, Number)>
    decreases rs.len(),
{
    if rs.len() == 0 {
        Seq::empty()
    } else if kind(rs.last()) {
        timed(rs.drop_last(), kind).push((rs.last().second, rs.last().value))
    } else {
        timed(rs.drop_last(), kind)
    }
}

/// Reports of a metric.
pub open spec fn of(name: Seq<char>) -> spec_fn(Report) -> bool {
    |r: Report| r.metric == name
}

/// Reports of a metric under some labels.
pub open spec fn under(name: Seq<char>, labels: LabelsModel) -> spec_fn(Report) -> bool {
    |r: Report| r.metric == name && r.labels == labels
}

/// Reports of a metric in a second.
pub open spec fn during(name: Seq<char>, second: int) -> spec_fn(Report) -> bool {
    |r: Report| r.metric == name && r.second == second
}

/// Reports of a metric in a phase.
pub open spec fn within_phase(name: Seq<char>, i: int) -> spec_fn(Report) -> bool {
    |r: Report| r.metric == name && r.phase == i
}

/// Reports of a metric in a phase, under some labels.
pub open spec fn under_within(name: Seq<char>, labels: LabelsModel, i: int) -> spec_fn(Report) -> bool {
    |r: Report| r.metric == name && r.labels == labels && r.phase == i
}

/// The sum of some values, added one after the other.
pub open spec fn added_up(vs: Seq<Number>) -> Number
    decreases vs.len(),
{
    if vs.len() == 0 {
        zero(false)
    } else {
        added_up(vs.drop_last()).plus(vs.last())
    }
}

pub open spec fn sum_if_any(vs: Seq<Number>) -> Option<Number> {
    if vs.len() == 0 {
        None
    } else {
        Some(added_up(vs))
    }
}

/// The buckets that some values hit, once for each.
pub open spec fn hits(vs: Seq<Number>) -> Multiset<u64>
    decreases vs.len(),
{
    if vs.len() == 0 {
        Multiset::empty()
    } else {
        hits(vs.drop_last()).insert(bucket_low(hist_units(vs.last())))
    }
}

pub open spec fn hits_if_any(vs: Seq<Number>) -> Option<Multiset<u64>> {
    if vs.len() == 0 {
        None
    } else {
        Some(hits(vs))
    }
}

pub open spec fn last_if_any(vs: Seq<Number>) -> Option<Number> {
    if vs.len() == 0 {
        None
    } else {
        Some(vs.last())
    }
}

/// A histogram holds each value once.
pub proof fn hits_are_as_many_as_the_values(vs: Seq<Number>)
    ensures
        hits(vs).len() == vs.len(),
    decreases vs.len(),
{
    if vs.len() > 0 {
        hits_are_as_many_as_the_values(vs.drop_last());
    }
}

/// What a metric says of the reports.
pub open spec fn tells(
    a: AggregateModel,
    now: u64,
    rs: Seq<Report>,
    name: Seq<char>,
    labels: LabelsModel,
) -> bool {
    let row = label_key_spec(labels)->0;
    match a {
        AggregateModel::Counter { total, per_second, by_label } => {
            &&& total == added_up(values(rs, of(name)))
            &&& lookup(by_label, row) == sum_if_any(values(rs, under(name, labels)))
            &&& forall|j: int|
                0 <= j < per_second.len() ==> #[trigger] per_second[j] == added_up(
                    values(rs, during(name, now + 1 - per_second.len() + j)),
                )
        },
        AggregateModel::Gauge { last, by_label, .. } => {
            &&& last == (match last_if_any(values(rs, of(name))) {
                Some(v) => v,
                None => not_a_number(),
            })
            &&& lookup(by_label, row) == last_if_any(values(rs, under(name, labels)))
        },
        AggregateModel::Histogram { all, current_window, windows, by_label } => values(rs, of(name)).len() < u64::MAX
            ==> {
            &&& all == hits(values(rs, of(name)))
            &&& current_window == hits(values(rs, during(name, now as int)))
            &&& lookup(by_label, row) == hits_if_any(values(rs, under(name, labels)))
            &&& forall|w: int|
                0 <= w < windows.len() ==> {
                    let h = hits(values(rs, during(name, windows[w].second as int)));
                    &&& (#[trigger] windows[w]).second < now
                    &&& windows[w].count == h.len()
                    &&& windows[w].p50 == percentiles_of(h).p50
                    &&& windows[w].p95 == percentiles_of(h).p95
                    &&& windows[w].p99 == percentiles_of(h).p99
                }
        },
    }
}

/// What a phase says of the reports that came during it.
pub open spec fn phase_tells(
    p: PhaseModel,
    i: int,
    kind: Option<MetricKind>,
    rs: Seq<Report>,
    name: Seq<char>,
    labels: LabelsModel,
) -> bool {
    let row = label_key_spec(labels)->0;
    let vs = values(rs, within_phase(name, i));
    &&& lookup(p.counters, name) == (if kind == Some(MetricKind::Counter) {
        sum_if_any(vs)
    } else {
        None
    })
    &&& (match lookup(p.counter_labels, name) {
        Some(rows) => lookup(rows, row),
        None => None,
    }) == (if kind == Some(MetricKind::Counter) {
        sum_if_any(values(rs, under_within(name, labels, i)))
    } else {
        None
    })
    &&& kind == Some(MetricKind::Histogram) && vs.len() < u64::MAX ==> lookup(p.histograms, name) == hits_if_any(vs)
    &&& kind != Some(MetricKind::Histogram) ==> lookup(p.histograms, name) is None
    &&& samples_under(p.gauges, name) == (if kind == Some(MetricKind::Gauge) {
        timed(rs, within_phase(name, i))
    } else {
        Seq::empty()
    })
}

pub open spec fn kind_in(s: StoreModel, name: Seq<char>) -> Option<MetricKind> {
    match lookup(s.metrics, name) {
        Some(m) => Some(m.spec.kind),
        None => None,
    }
}

/// Every report came no later than now, and in a phase that has begun.
spec fn in_time(s: StoreModel, rs: Seq<Report>) -> bool {
    forall|i: int|
        0 <= i < rs.len() ==> (#[trigger] rs[i]).second <= s.current_second && -1 <= rs[i].phase < s.phases.len()
}

proof fn lemma_push(rs: Seq<Report>, r: Report, f: spec_fn(Report) -> bool)
    ensures
        values(rs.push(r), f) == (if f(r) {
            values(rs, f).push(r.value)
        } else {
            values(rs, f)
        }),
        timed(rs.push(r), f) == (if f(r) {
            timed(rs, f).push((r.second, r.value))
        } else {
            timed(rs, f)
        }),
{
    assert(rs.push(r).drop_last() =~= rs);
}

proof fn lemma_none(rs: Seq<Report>, f: spec_fn(Report) -> bool)
    requires
        forall|i: int| 0 <= i < rs.len() ==> !f(#[trigger] rs[i]),
    ensures
        values(rs, f) == Seq::<Number>::empty(),
        timed(rs, f) == Seq::<(u64, Number)>::empty(),
    decreases rs.len(),
{
    if rs.len() > 0 {
        let rest = rs.drop_last();
        assert forall|i: int| 0 <= i < rest.len() implies !f(#[trigger] rest[i]) by {
            assert(rest[i] == rs[i]);
        }
        lemma_none(rest, f);
        assert(!f(rs[rs.len() - 1]));
    }
}

/// The fewer are asked for, the fewer there are.
proof fn lemma_fewer(rs: Seq<Report>, f: spec_fn(Report) -> bool, g: spec_fn(Report) -> bool)
    requires
        forall|r: Report| #[trigger] f(r) ==> g(r),
    ensures
        values(rs, f).len() <= values(rs, g).len(),
    decreases rs.len(),
{
    if rs.len() > 0 {
        lemma_fewer(rs.drop_last(), f, g);
    }
}

proof fn lemma_added(vs: Seq<Number>, v: Number)
    ensures
        added_up(vs.push(v)) == added_up(vs).plus(v),
        hits(vs.push(v)) == hits(vs).insert(bucket_low(hist_units(v))),
        hits(vs).len() == vs.len(),
{
    assert(vs.push(v).drop_last() =~= vs);
    hits_are_as_many_as_the_values(vs);
}

/// Two label sets have one row only if they are one.
proof fn lemma_rows(a: LabelsModel, b: LabelsModel)
    requires
        in_order(a),
        in_order(b),
        b.len() > 0,
    ensures
        a == b ==> label_key_spec(a) == label_key_spec(b) && label_key_spec(a) is Some,
        a != b && label_key_spec(a) is Some ==> label_key_spec(a)->0 != label_key_spec(b)->0,
{
    distinct_label_sets_have_distinct_keys(a, b);
}

proof fn lemma_recorded_tells(
    a: AggregateModel,
    now: u64,
    rs: Seq<Report>,
    name: Seq<char>,
    labels: LabelsModel,
    r: Report,
)
    requires
        tells(a, now, rs, name, labels),
        aggregate_in_order(a),
        r.metric == name,
        r.second == now,
        in_order(r.labels),
        in_order(labels),
        labels.len() > 0,
        (match a {
            AggregateModel::Counter { per_second, .. } => per_second.len() > 0,
            _ => true,
        }),
    ensures
        tells(recorded(a, r.value, r.labels), now, rs.push(r), name, labels),
{
    let v = r.value;
    let all = values(rs, of(name));
    let some = values(rs, under(name, labels));
    lemma_push(rs, r, of(name));
    lemma_push(rs, r, under(name, labels));
    lemma_added(all, v);
    lemma_added(some, v);
    lemma_rows(r.labels, labels);
    let row = label_key_spec(labels)->0;
    match a {
        AggregateModel::Counter { total, per_second, by_label } => {
            if let Some(k) = label_key_spec(r.labels) {
                let sum = (match lookup(by_label, k) {
                    Some(x) => x,
                    None => zero(false),
                }).plus(v);
                lookup_after_store(by_label, k, sum, row);
                if k == row {
                    assert(values(rs.push(r), under(name, labels)) == some.push(v));
                }
            }
            let after = recorded(a, v, r.labels)->Counter_per_second;
            assert forall|j: int| 0 <= j < after.len() implies #[trigger] after[j] == added_up(
                values(rs.push(r), during(name, now + 1 - after.len() + j)),
            ) by {
                let f = during(name, now + 1 - after.len() + j);
                lemma_push(rs, r, f);
                lemma_added(values(rs, f), v);
                assert(per_second[j] == added_up(values(rs, f)));
            }
        },
        AggregateModel::Gauge { by_label, .. } => {
            if let Some(k) = label_key_spec(r.labels) {
                lookup_after_store(by_label, k, v, row);
            }
        },
        AggregateModel::Histogram { all: c, current_window, windows, by_label } => {
            if values(rs.push(r), of(name)).len() < u64::MAX {
                let x = hist_units(v);
                let here = values(rs, during(name, now as int));
                lemma_push(rs, r, during(name, now as int));
                lemma_added(here, v);
                lemma_fewer(rs, during(name, now as int), of(name));
                lemma_fewer(rs, under(name, labels), of(name));
                if let Some(k) = label_key_spec(r.labels) {
                    let before = match lookup(by_label, k) {
                        Some(h) => h,
                        None => Multiset::empty(),
                    };
                    lookup_after_store(by_label, k, hist_with(before, x), row);
                    if k == row {
                        assert(before =~= hits(some));
                    }
                }
                assert forall|w: int| 0 <= w < windows.len() implies {
                    let h = hits(values(rs.push(r), during(name, windows[w].second as int)));
                    &&& (#[trigger] windows[w]).second < now
                    &&& windows[w].count == h.len()
                    &&& windows[w].p50 == percentiles_of(h).p50
                    &&& windows[w].p95 == percentiles_of(h).p95
                    &&& windows[w].p99 == percentiles_of(h).p99
                } by {
                    lemma_push(rs, r, during(name, windows[w].second as int));
                }
            }
        },
    }
}

proof fn lemma_rolled_tells(
    a: AggregateModel,
    now: u64,
    rs: Seq<Report>,
    name: Seq<char>,
    labels: LabelsModel,
)
    requires
        tells(a, now, rs, name, labels),
        now < u64::MAX,
        forall|i: int| 0 <= i < rs.len() ==> (#[trigger] rs[i]).second <= now,
    ensures
        tells(rolled(a, now), (now + 1) as u64, rs, name, labels),
{
    let next = now + 1;
    let f = during(name, next);
    lemma_none(rs, f);
    match a {
        AggregateModel::Counter { per_second, .. } => {
            let after = rolled(a, now)->Counter_per_second;
            assert forall|j: int| 0 <= j < after.len() implies #[trigger] after[j] == added_up(
                values(rs, during(name, next + 1 - after.len() + j)),
            ) by {
                if j < per_second.len() {
                    assert(after[j] == per_second[j]);
                    assert(next + 1 - after.len() + j == now + 1 - per_second.len() + j);
                } else {
                    assert(next + 1 - after.len() + j == next);
                }
            }
        },
        AggregateModel::Gauge { .. } => {},
        AggregateModel::Histogram { current_window, windows, .. } => {
            if values(rs, of(name)).len() < u64::MAX {
                let after = rolled(a, now)->windows;
                let here = values(rs, during(name, now as int));
                hits_are_as_many_as_the_values(here);
                lemma_fewer(rs, during(name, now as int), of(name));
                assert forall|w: int| 0 <= w < after.len() implies {
                    let h = hits(values(rs, during(name, after[w].second as int)));
                    &&& (#[trigger] after[w]).second < next
                    &&& after[w].count == h.len()
                    &&& after[w].p50 == percentiles_of(h).p50
                    &&& after[w].p95 == percentiles_of(h).p95
                    &&& after[w].p99 == percentiles_of(h).p99
                } by {
                    if w < windows.len() {
                        assert(after[w] == windows[w]);
                    }
                }
            }
        },
    }
}

proof fn lemma_rolled_on_tells(
    a: AggregateModel,
    now: u64,
    to: u64,
    rs: Seq<Report>,
    name: Seq<char>,
    labels: LabelsModel,
)
    requires
        tells(a, now, rs, name, labels),
        forall|i: int| 0 <= i < rs.len() ==> (#[trigger] rs[i]).second <= now,
    ensures
        tells(
            rolled_on(a, now, to),
            if to > now {
                to
            } else {
                now
            },
            rs,
            name,
            labels,
        ),
    decreases to - now,
{
    if now < to {
        lemma_rolled_tells(a, now, rs, name, labels);
        lemma_rolled_on_tells(rolled(a, now), (now + 1) as u64, to, rs, name, labels);
    }
}

proof fn lemma_phase_tells(
    p: PhaseModel,
    i: int,
    kind: MetricKind,
    rs: Seq<Report>,
    name: Seq<char>,
    labels: LabelsModel,
    o: ObservationModel,
    r: Report,
    mine: Option<MetricKind>,
)
    requires
        phase_tells(p, i, mine, rs, name, labels),
        phase_in_order(p),
        r == (Report { metric: o.metric, value: o.value, labels: o.labels, second: r.second, phase: i }),
        o.metric == name ==> mine == Some(kind),
        in_order(o.labels),
        in_order(labels),
        labels.len() > 0,
    ensures
        phase_tells(phase_recorded(p, kind, o, r.second), i, mine, rs.push(r), name, labels),
{
    let v = o.value;
    let f = within_phase(name, i);
    let g = under_within(name, labels, i);
    lemma_push(rs, r, f);
    lemma_push(rs, r, g);
    lemma_added(values(rs, f), v);
    lemma_added(values(rs, g), v);
    lemma_rows(o.labels, labels);
    let row = label_key_spec(labels)->0;
    match kind {
        MetricKind::Counter => {
            let sum = (match lookup(p.counters, o.metric) {
                Some(n) => n,
                None => zero(false),
            }).plus(v);
            lookup_after_store(p.counters, o.metric, sum, name);
            if let Some(k) = label_key_spec(o.labels) {
                let before = match lookup(p.counter_labels, o.metric) {
                    Some(m) => m,
                    None => Seq::empty(),
                };
                lemma_slot(p.counter_labels, o.metric);
                if lookup(p.counter_labels, o.metric) is Some {
                    assert(in_order(p.counter_labels[slot(p.counter_labels, o.metric)].1));
                }
                lemma_slot(Seq::<(Seq<char>, Number)>::empty(), row);
                let raised_row = (match lookup(before, k) {
                    Some(n) => n,
                    None => zero(false),
                }).plus(v);
                lookup_after_store(before, k, raised_row, row);
                lookup_after_store(p.counter_labels, o.metric, raised(before, k, v), name);
            }
        },
        MetricKind::Histogram => {
            let c = match lookup(p.histograms, o.metric) {
                Some(x) => x,
                None => Multiset::empty(),
            };
            lookup_after_store(p.histograms, o.metric, hist_with(c, hist_units(v)), name);
            if o.metric == name && values(rs.push(r), f).len() < u64::MAX {
                assert(c =~= hits(values(rs, f)));
            }
        },
        MetricKind::Gauge => {
            let points = samples_under(p.gauges, o.metric).push((r.second, v));
            lookup_after_store(p.gauges, o.metric, points, name);
        },
    }
}

/// What holds of a store after some operations.
spec fn accounted(moves: Seq<Move>, name: Seq<char>, labels: LabelsModel) -> bool {
    let s = after_all(empty_store(), moves);
    let rs = reports(moves);
    &&& in_time(s, rs)
    &&& lookup(s.metrics, name) is None ==> (forall|i: int| 0 <= i < rs.len() ==> (#[trigger] rs[i]).metric != name)
    &&& lookup(s.metrics, name) is Some ==> tells(
        lookup(s.metrics, name)->0.aggregate,
        s.current_second,
        rs,
        name,
        labels,
    ) && opened(lookup(s.metrics, name)->0.aggregate)
    &&& forall|i: int|
        0 <= i < s.phases.len() ==> phase_tells(#[trigger] s.phases[i], i, kind_in(s, name), rs, name, labels)
    &&& samples_under(s.samples, name) == (if kind_in(s, name) == Some(MetricKind::Gauge) {
        timed(rs, of(name))
    } else {
        Seq::empty()
    })
}

/// A counter has an open bucket.
spec fn opened(a: AggregateModel) -> bool {
    match a {
        AggregateModel::Counter { per_second, .. } => per_second.len() > 0,
        _ => true,
    }
}

proof fn lemma_rolled_on_opened(a: AggregateModel, from: u64, to: u64)
    requires
        opened(a),
    ensures
        opened(rolled_on(a, from, to)),
    decreases to - from,
{
    if from < to {
        lemma_rolled_on_opened(rolled(a, from), (from + 1) as u64, to);
    }
}

spec fn orderly(moves: Seq<Move>) -> bool {
    forall|i: int| 0 <= i < moves.len() && (#[trigger] moves[i]) is Observe ==> in_order(moves[i]->Observe_0.labels)
}

#[verifier::spinoff_prover]
#[verifier::rlimit(60)]
proof fn lemma_accounted(moves: Seq<Move>, name: Seq<char>, labels: LabelsModel)
    requires
        orderly(moves),
        in_order(labels),
        labels.len() > 0,
    ensures
        accounted(moves, name, labels),
    decreases moves.len(),
{
    an_empty_store_is_coherent();
    if moves.len() == 0 {
        let s = empty_store();
        lemma_slot(s.metrics, name);
        lemma_slot(s.samples, name);
    } else {
        let rest = moves.drop_last();
        let m = moves.last();
        assert forall|i: int| 0 <= i < rest.len() && (#[trigger] rest[i]) is Observe implies in_order(
            rest[i]->Observe_0.labels,
        ) by {
            assert(rest[i] == moves[i]);
        }
        lemma_accounted(rest, name, labels);
        a_store_stays_coherent(empty_store(), rest);
        let s = after_all(empty_store(), rest);
        let rs = reports(rest);
        every_operation_keeps_coherence(s, m);
        assert(m == moves[moves.len() - 1]);
        match m {
            Move::Declare(spec) => lemma_accounted_declare(moves, name, labels, spec),
            Move::Begin(phase) => lemma_accounted_begin(moves, name, labels, phase),
            Move::Advance(second) => lemma_accounted_advance(moves, name, labels, second),
            Move::Observe(o) => lemma_accounted_observe(moves, name, labels, o),
        }
    }
}

proof fn lemma_accounted_declare(
    moves: Seq<Move>,
    name: Seq<char>,
    labels: LabelsModel,
    spec: crate::protocol::MetricSpecModel,
)
    requires
        moves.len() > 0,
        moves.last() == Move::Declare(spec),
        accounted(moves.drop_last(), name, labels),
        coherent(after_all(empty_store(), moves.drop_last())),
        labels.len() > 0,
    ensures
        accounted(moves, name, labels),
{
    let s = after_all(empty_store(), moves.drop_last());
    let t = after_all(empty_store(), moves);
    let rs = reports(moves);
    assert(rs == reports(moves.drop_last()));
    if lookup(s.metrics, spec.name) is None {
        let v = MetricModel { spec, aggregate: fresh_aggregate(spec.kind) };
        lookup_after_store(s.metrics, spec.name, v, name);
        if name == spec.name {
            lemma_fresh(rs, name, labels, s.current_second, spec.kind);
            assert forall|i: int| 0 <= i < t.phases.len() implies phase_tells(
                #[trigger] t.phases[i],
                i,
                kind_in(t, name),
                rs,
                name,
                labels,
            ) by {
                assert(phase_tells(s.phases[i], i, None, rs, name, labels));
                lemma_none(rs, within_phase(name, i));
                lemma_none(rs, under_within(name, labels, i));
                assert(timed(rs, within_phase(name, i)) == Seq::<(u64, Number)>::empty());
            }
            lemma_none(rs, of(name));
        } else {
            assert forall|i: int| 0 <= i < t.phases.len() implies phase_tells(
                #[trigger] t.phases[i],
                i,
                kind_in(t, name),
                rs,
                name,
                labels,
            ) by {
                assert(phase_tells(s.phases[i], i, kind_in(s, name), rs, name, labels));
            }
        }
    }
}

proof fn lemma_fresh(rs: Seq<Report>, name: Seq<char>, labels: LabelsModel, now: u64, kind: MetricKind)
    requires
        forall|i: int| 0 <= i < rs.len() ==> (#[trigger] rs[i]).metric != name,
    ensures
        tells(fresh_aggregate(kind), now, rs, name, labels),
        opened(fresh_aggregate(kind)),
{
    let row = label_key_spec(labels)->0;
    lemma_none(rs, of(name));
    lemma_none(rs, under(name, labels));
    lemma_none(rs, during(name, now as int));
    match fresh_aggregate(kind) {
        AggregateModel::Counter { per_second, by_label, .. } => {
            lemma_slot(by_label, row);
            assert forall|j: int| 0 <= j < per_second.len() implies #[trigger] per_second[j] == added_up(
                values(rs, during(name, now + 1 - per_second.len() + j)),
            ) by {
                lemma_none(rs, during(name, now + 1 - per_second.len() + j));
            }
        },
        AggregateModel::Gauge { by_label, .. } => lemma_slot(by_label, row),
        AggregateModel::Histogram { by_label, .. } => lemma_slot(by_label, row),
    }
}

proof fn lemma_accounted_begin(moves: Seq<Move>, name: Seq<char>, labels: LabelsModel, phase: Seq<char>)
    requires
        moves.len() > 0,
        moves.last() == Move::Begin(phase),
        accounted(moves.drop_last(), name, labels),
    ensures
        accounted(moves, name, labels),
{
    let s = after_all(empty_store(), moves.drop_last());
    let t = after_all(empty_store(), moves);
    let rs = reports(moves);
    assert(rs == reports(moves.drop_last()));
    assert(kind_in(t, name) == kind_in(s, name));
    assert forall|i: int| 0 <= i < t.phases.len() implies phase_tells(
        #[trigger] t.phases[i],
        i,
        kind_in(t, name),
        rs,
        name,
        labels,
    ) by {
        if i < s.phases.len() {
            assert(t.phases[i] == s.phases[i]);
        } else {
            let p = t.phases[i];
            lemma_none(rs, within_phase(name, i));
            lemma_none(rs, under_within(name, labels, i));
            lemma_slot(p.counters, name);
            lemma_slot(p.counter_labels, name);
            lemma_slot(p.histograms, name);
            lemma_slot(p.gauges, name);
        }
    }
}

proof fn lemma_accounted_advance(moves: Seq<Move>, name: Seq<char>, labels: LabelsModel, second: u64)
    requires
        moves.len() > 0,
        moves.last() == Move::Advance(second),
        accounted(moves.drop_last(), name, labels),
    ensures
        accounted(moves, name, labels),
{
    let s = after_all(empty_store(), moves.drop_last());
    let t = after_all(empty_store(), moves);
    let rs = reports(moves);
    assert(rs == reports(moves.drop_last()));
    lemma_rolled_on(s.metrics, s.current_second, second, name);
    if lookup(s.metrics, name) is Some {
        let a = lookup(s.metrics, name)->0.aggregate;
        lemma_rolled_on_tells(a, s.current_second, second, rs, name, labels);
        lemma_rolled_on_opened(a, s.current_second, second);
    }
    assert forall|i: int| 0 <= i < t.phases.len() implies phase_tells(
        #[trigger] t.phases[i],
        i,
        kind_in(t, name),
        rs,
        name,
        labels,
    ) by {
        assert(t.phases[i] == s.phases[i]);
    }
}

proof fn lemma_accounted_observe(moves: Seq<Move>, name: Seq<char>, labels: LabelsModel, o: ObservationModel)
    requires
        moves.len() > 0,
        moves.last() == Move::Observe(o),
        accounted(moves.drop_last(), name, labels),
        coherent(after_all(empty_store(), moves.drop_last())),
        in_order(o.labels),
        in_order(labels),
        labels.len() > 0,
    ensures
        accounted(moves, name, labels),
{
    let rest = moves.drop_last();
    let s = after_all(empty_store(), rest);
    let t = after_all(empty_store(), moves);
    let before = reports(rest);
    let rs = reports(moves);
    if lookup(s.metrics, o.metric) is None {
        assert(rs == before);
        assert(kind_in(t, name) == kind_in(s, name));
        assert forall|i: int| 0 <= i < t.phases.len() implies phase_tells(
            #[trigger] t.phases[i],
            i,
            kind_in(t, name),
            rs,
            name,
            labels,
        ) by {
            assert(t.phases[i] == s.phases[i]);
        }
    } else {
        let r = Report {
            metric: o.metric,
            value: o.value,
            labels: o.labels,
            second: s.current_second,
            phase: s.phases.len() - 1,
        };
        assert(rs == before.push(r));
        let x = lookup(s.metrics, o.metric)->0;
        let v = MetricModel { spec: x.spec, aggregate: recorded(x.aggregate, o.value, o.labels) };
        lookup_after_store(s.metrics, o.metric, v, name);
        lemma_kind(s, o.metric);
        lemma_slot(s.metrics, o.metric);
        assert(aggregate_in_order(s.metrics[slot(s.metrics, o.metric)].1.aggregate));
        assert(in_time(t, rs)) by {
            assert forall|i: int| 0 <= i < rs.len() implies (#[trigger] rs[i]).second <= t.current_second && -1
                <= rs[i].phase < t.phases.len() by {
                if i < before.len() {
                    assert(rs[i] == before[i]);
                }
            }
        }
        assert(kind_in(t, name) == kind_in(s, name));
        if o.metric == name {
            lemma_recorded_tells(x.aggregate, s.current_second, before, name, labels, r);
            lemma_push(before, r, of(name));
            lookup_after_store(
                s.samples,
                name,
                samples_under(s.samples, name).push((s.current_second, o.value)),
                name,
            );
        } else {
            lemma_other(before, r, name, labels, s.current_second);
            lookup_after_store(
                s.samples,
                o.metric,
                samples_under(s.samples, o.metric).push((s.current_second, o.value)),
                name,
            );
            lemma_push(before, r, of(name));
            if lookup(s.metrics, name) is Some {
                lemma_other_tells(lookup(s.metrics, name)->0.aggregate, before, r, name, labels, s.current_second);
            } else {
                assert forall|i: int| 0 <= i < rs.len() implies (#[trigger] rs[i]).metric != name by {
                    if i < before.len() {
                        assert(rs[i] == before[i]);
                    }
                }
            }
        }
        assert forall|i: int| 0 <= i < t.phases.len() implies phase_tells(
            #[trigger] t.phases[i],
            i,
            kind_in(t, name),
            rs,
            name,
            labels,
        ) by {
            assert(phase_tells(s.phases[i], i, kind_in(s, name), before, name, labels));
            assert(phase_in_order(s.phases[i]));
            if i == s.phases.len() - 1 {
                lemma_phase_tells(
                    s.phases[i],
                    i,
                    x.spec.kind,
                    before,
                    name,
                    labels,
                    o,
                    r,
                    kind_in(s, name),
                );
            } else {
                assert(t.phases[i] == s.phases[i]);
                lemma_push(before, r, within_phase(name, i));
                lemma_push(before, r, under_within(name, labels, i));
            }
        }
    }
}

/// A report of another metric changes nothing.
proof fn lemma_other(rs: Seq<Report>, r: Report, name: Seq<char>, labels: LabelsModel, now: u64)
    requires
        r.metric != name,
    ensures
        values(rs.push(r), of(name)) == values(rs, of(name)),
        values(rs.push(r), under(name, labels)) == values(rs, under(name, labels)),
        values(rs.push(r), during(name, now as int)) == values(rs, during(name, now as int)),
{
    lemma_push(rs, r, of(name));
    lemma_push(rs, r, under(name, labels));
    lemma_push(rs, r, during(name, now as int));
}

proof fn lemma_other_tells(
    a: AggregateModel,
    rs: Seq<Report>,
    r: Report,
    name: Seq<char>,
    labels: LabelsModel,
    now: u64,
)
    requires
        r.metric != name,
        tells(a, now, rs, name, labels),
    ensures
        tells(a, now, rs.push(r), name, labels),
{
    lemma_other(rs, r, name, labels, now);
    match a {
        AggregateModel::Counter { per_second, .. } => {
            assert forall|j: int| 0 <= j < per_second.len() implies #[trigger] per_second[j] == added_up(
                values(rs.push(r), during(name, now + 1 - per_second.len() + j)),
            ) by {
                lemma_push(rs, r, during(name, now + 1 - per_second.len() + j));
            }
        },
        AggregateModel::Gauge { .. } => {},
        AggregateModel::Histogram { windows, .. } => {
            if values(rs.push(r), of(name)).len() < u64::MAX {
                assert forall|w: int| 0 <= w < windows.len() implies {
                    let h = hits(values(rs.push(r), during(name, windows[w].second as int)));
                    &&& (#[trigger] windows[w]).second < now
                    &&& windows[w].count == h.len()
                    &&& windows[w].p50 == percentiles_of(h).p50
                    &&& windows[w].p95 == percentiles_of(h).p95
                    &&& windows[w].p99 == percentiles_of(h).p99
                } by {
                    lemma_push(rs, r, during(name, windows[w].second as int));
                }
            }
        },
    }
}

/// Whatever is done with a store, each of its metrics says what was reported of it. A counter has the
/// sum of all values, of those in each second, and of those under each label set; a gauge the last
/// value, and the last under each label set; a histogram holds every value once, as do those of the
/// current second and of each label set, and each point of its chart has the percentiles of the values
/// of its second. No row has anything that was reported under other labels.
pub proof fn a_metric_tells_what_was_reported(moves: Seq<Move>, name: Seq<char>, labels: LabelsModel)
    requires
        forall|i: int|
            0 <= i < moves.len() && (#[trigger] moves[i]) is Observe ==> in_order(moves[i]->Observe_0.labels),
        in_order(labels),
        labels.len() > 0,
        lookup(after_all(empty_store(), moves).metrics, name) is Some,
    ensures
        tells(
            lookup(after_all(empty_store(), moves).metrics, name)->0.aggregate,
            after_all(empty_store(), moves).current_second,
            reports(moves),
            name,
            labels,
        ),
        kind_in(after_all(empty_store(), moves), name) == Some(MetricKind::Gauge) ==> samples_under(
            after_all(empty_store(), moves).samples,
            name,
        ) == timed(reports(moves), of(name)),
{
    lemma_accounted(moves, name, labels);
}

/// Whatever is done with a store, each phase says what was reported during it: of a counter the sum, in
/// all and under each label set; of a histogram every value once; of a gauge every sample with its
/// second. A phase knows nothing of a metric that was not reported during it.
pub proof fn a_phase_tells_what_was_reported_during_it(moves: Seq<Move>, name: Seq<char>, labels: LabelsModel, i: int)
    requires
        forall|j: int|
            0 <= j < moves.len() && (#[trigger] moves[j]) is Observe ==> in_order(moves[j]->Observe_0.labels),
        in_order(labels),
        labels.len() > 0,
        0 <= i < after_all(empty_store(), moves).phases.len(),
    ensures
        phase_tells(
            after_all(empty_store(), moves).phases[i],
            i,
            kind_in(after_all(empty_store(), moves), name),
            reports(moves),
            name,
            labels,
        ),
{
    lemma_accounted(moves, name, labels);
    let s = after_all(empty_store(), moves);
    assert(phase_tells(s.phases[i], i, kind_in(s, name), reports(moves), name, labels));
}

} // verus!
