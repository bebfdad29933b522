//! The seconds of a metric: one bucket for each, whatever is done with the store.

use vstd::prelude::*;
use vstd::multiset::Multiset;
use crate::hist::hist_with;
use crate::laws::histories::{after, after_all, lemma_rolled_on_keeps, lemma_touched, rolled_on, Move};
use crate::laws::stores::declaring_keeps_coherence;
use crate::metrics::{fresh_aggregate, hist_units, recorded, rolled, samples_under, AggregateModel, MetricModel, WindowPoint};
use crate::number::{not_a_number, Number};
use crate::protocol::MetricSpecModel;
use crate::sorted::{lookup, lookup_after_store};
use crate::store::{coherent, declared, StoreModel};

verus! {

/// The metric under a name.
pub open spec fn aggregate_of(s: StoreModel, name: Seq<char>) -> AggregateModel {
    lookup(s.metrics, name)->0.aggregate
}

/// How often some operations report a metric.
pub open spec fn seen(moves: Seq<Move>, name: Seq<char>) -> nat
    decreases moves.len(),
{
    if moves.len() == 0 {
        0
    } else {
        seen(moves.drop_last(), name) + if moves.last() is Observe && moves.last()->Observe_0.metric == name {
            1nat
        } else {
            0
        }
    }
}

/// How often they report it before the second in which they end.
pub open spec fn seen_before_now(s: StoreModel, moves: Seq<Move>, name: Seq<char>) -> nat
    decreases moves.len(),
{
    if moves.len() == 0 {
        0
    } else if moves.last() is Advance && moves.last()->Advance_0 > after_all(s, moves.drop_last()).current_second {
        seen(moves.drop_last(), name)
    } else {
        seen_before_now(s, moves.drop_last(), name)
    }
}

/// The number of values on a chart.
pub open spec fn charted(windows: Seq<WindowPoint>) -> nat
    decreases windows.len(),
{
    if windows.len() == 0 {
        0
    } else {
        charted(windows.drop_last()) + windows.last().count as nat
    }
}

/// One point for each second in which anything was recorded, in the order of the seconds, none
/// before the metric was declared and none for the current second.
pub open spec fn chart_in_time(windows: Seq<WindowPoint>, since: u64, now: u64) -> bool {
    &&& forall|i: int|
        0 <= i < windows.len() ==> since <= (#[trigger] windows[i]).second < now && windows[i].count > 0
    &&& forall|i: int, j: int|
        0 <= i < j < windows.len() ==> (#[trigger] windows[i]).second < (#[trigger] windows[j]).second
}

/// What a gauge shows in a second without a sample: what it showed in the second before.
pub open spec fn carried(before: Option<Number>) -> Option<Number> {
    match before {
        Some(v) => if v.nan() {
            None
        } else {
            Some(v)
        },
        None => None,
    }
}

/// Each second of a gauge shows the last sample of that second; a second without one shows what the
/// second before did, and nothing before the first sample.
pub open spec fn shows_samples(per_second: Seq<Option<Number>>, points: Seq<(u64, Number)>, since: u64) -> bool {
    forall|i: int|
        0 <= i < per_second.len() ==> {
            &&& forall|j: int|
                0 <= j < points.len() && (#[trigger] points[j]).0 == since + i && (j + 1 == points.len() || points[j
                    + 1].0 != since + i) ==> per_second[i] == Some(points[j].1)
            &&& (forall|j: int| 0 <= j < points.len() ==> (#[trigger] points[j]).0 != since + i) ==> #[trigger]
                per_second[i] == if i == 0 {
                None
            } else {
                carried(per_second[i - 1])
            }
        }
}

/// The samples of a gauge lie in the order of their seconds, none before it was declared and none
/// after now.
pub open spec fn samples_in_time(points: Seq<(u64, Number)>, since: u64, now: u64) -> bool {
    &&& forall|j: int| 0 <= j < points.len() ==> since <= (#[trigger] points[j]).0 <= now
    &&& forall|j: int, k: int| 0 <= j <= k < points.len() ==> (#[trigger] points[j]).0 <= (#[trigger] points[k]).0
}

/// What holds of the buckets of a metric that was declared in second `since`.
#[verifier::opaque]
spec fn well_kept(a: AggregateModel, points: Seq<(u64, Number)>, since: u64, now: u64) -> bool {
    &&& since <= now
    &&& match a {
        AggregateModel::Counter { per_second, .. } => per_second.len() == now - since + 1,
        AggregateModel::Gauge { last, per_second, .. } => {
            &&& per_second.len() == now - since + 1
            &&& samples_in_time(points, since, now)
            &&& shows_samples(per_second, points, since)
            &&& carried(per_second.last()) == (if last.nan() {
                None
            } else {
                Some(last)
            })
        },
        AggregateModel::Histogram { current_window, windows, .. } => {
            &&& current_window.len() <= u64::MAX
            &&& chart_in_time(windows, since, now)
        },
    }
}

proof fn lemma_rolled_well_kept(a: AggregateModel, points: Seq<(u64, Number)>, since: u64, now: u64)
    requires
        well_kept(a, points, since, now),
        now < u64::MAX,
    ensures
        well_kept(rolled(a, now), points, since, (now + 1) as u64),
{
    reveal(well_kept);
    let next = (now + 1) as u64;
    match a {
        AggregateModel::Counter { .. } => {},
        AggregateModel::Gauge { last, per_second, .. } => {
            let after = rolled(a, now)->Gauge_per_second;
            assert forall|i: int| 0 <= i < after.len() implies {
                &&& forall|j: int|
                    0 <= j < points.len() && (#[trigger] points[j]).0 == since + i && (j + 1 == points.len()
                        || points[j + 1].0 != since + i) ==> after[i] == Some(points[j].1)
                &&& (forall|j: int| 0 <= j < points.len() ==> (#[trigger] points[j]).0 != since + i)
                    ==> #[trigger] after[i] == if i == 0 {
                    None
                } else {
                    carried(after[i - 1])
                }
            } by {
                if i < per_second.len() {
                    assert(after[i] == per_second[i]);
                    if i > 0 {
                        assert(after[i - 1] == per_second[i - 1]);
                    }
                } else {
                    assert(after[i - 1] == per_second.last());
                    assert(since + i == next);
                }
            }
        },
        AggregateModel::Histogram { current_window, windows, .. } => {
            let after = rolled(a, now)->windows;
            if current_window.len() > 0 {
                assert(after.drop_last() =~= windows);
                assert forall|i: int| 0 <= i < after.len() implies since <= (#[trigger] after[i]).second < next
                    && after[i].count > 0 by {
                    if i < windows.len() {
                        assert(after[i] == windows[i]);
                    }
                }
                assert forall|i: int, j: int| 0 <= i < j < after.len() implies (#[trigger] after[i]).second
                    < (#[trigger] after[j]).second by {
                    assert(after[i] == windows[i]);
                    if j < windows.len() {
                        assert(after[j] == windows[j]);
                    }
                }
            }
        },
    }
}

proof fn lemma_rolled_on_well_kept(
    a: AggregateModel,
    points: Seq<(u64, Number)>,
    since: u64,
    now: u64,
    to: u64,
)
    requires
        well_kept(a, points, since, now),
    ensures
        well_kept(
            rolled_on(a, now, to),
            points,
            since,
            if to > now {
                to
            } else {
                now
            },
        ),
    decreases to - now,
{
    if now < to {
        lemma_rolled_well_kept(a, points, since, now);
        lemma_rolled_on_well_kept(rolled(a, now), points, since, (now + 1) as u64, to);
    }
}

proof fn lemma_recorded_well_kept(
    a: AggregateModel,
    points: Seq<(u64, Number)>,
    since: u64,
    now: u64,
    v: Number,
    labels: crate::protocol::LabelsModel,
)
    requires
        well_kept(a, points, since, now),
    ensures
        well_kept(
            recorded(a, v, labels),
            if a is Gauge {
                points.push((now, v))
            } else {
                points
            },
            since,
            now,
        ),
{
    reveal(well_kept);
    match a {
        AggregateModel::Counter { .. } => {},
        AggregateModel::Gauge { per_second, .. } => {
            let after = recorded(a, v, labels)->Gauge_per_second;
            let more = points.push((now, v));
            let n = per_second.len() - 1;
            assert forall|j: int, k: int| 0 <= j <= k < more.len() implies (#[trigger] more[j]).0 <= (#[trigger] more[k]).0 by {
                if j < points.len() {
                    assert(more[j] == points[j]);
                }
                if k < points.len() {
                    assert(more[k] == points[k]);
                }
            }
            assert forall|i: int| 0 <= i < after.len() implies {
                &&& forall|j: int|
                    0 <= j < more.len() && (#[trigger] more[j]).0 == since + i && (j + 1 == more.len() || more[j
                        + 1].0 != since + i) ==> after[i] == Some(more[j].1)
                &&& (forall|j: int| 0 <= j < more.len() ==> (#[trigger] more[j]).0 != since + i)
                    ==> #[trigger] after[i] == if i == 0 {
                    None
                } else {
                    carried(after[i - 1])
                }
            } by {
                assert(since + n == now);
                assert(more[points.len() as int] == (now, v));
                if i < n {
                    assert(after[i] == per_second[i]);
                    if i > 0 {
                        assert(after[i - 1] == per_second[i - 1]);
                    }
                    assert forall|j: int|
                        0 <= j < more.len() && (#[trigger] more[j]).0 == since + i && (j + 1 == more.len() || more[j
                            + 1].0 != since + i) implies after[i] == Some(more[j].1) by {
                        assert(j < points.len());
                        assert(more[j] == points[j]);
                        if j + 1 < points.len() {
                            assert(more[j + 1] == points[j + 1]);
                        }
                    }
                    if forall|j: int| 0 <= j < more.len() ==> (#[trigger] more[j]).0 != since + i {
                        assert forall|j: int| 0 <= j < points.len() implies (#[trigger] points[j]).0 != since + i by {
                            assert(more[j] == points[j]);
                        }
                    }
                } else {
                    assert(after[i] == Some(v));
                    assert forall|j: int|
                        0 <= j < more.len() && (#[trigger] more[j]).0 == since + i && (j + 1 == more.len() || more[j
                            + 1].0 != since + i) implies after[i] == Some(more[j].1) by {
                        if j < points.len() {
                            assert(more[j] == points[j]);
                            if j + 1 < points.len() {
                                assert(more[j + 1] == points[j + 1]);
                                assert(points[j].0 <= points[j + 1].0);
                            }
                        }
                    }
                }
            }
        },
        AggregateModel::Histogram { current_window, .. } => {
            lemma_hist_with_len(current_window, hist_units(v));
        },
    }
}

proof fn lemma_hist_with_len(c: Multiset<u64>, v: u64)
    ensures
        hist_with(c, v).len() == (if c.len() < u64::MAX {
            c.len() + 1
        } else {
            c.len()
        }),
{
}

proof fn lemma_samples(s: StoreModel, m: Move, name: Seq<char>)
    requires
        coherent(s),
        lookup(s.metrics, name) is Some,
    ensures
        samples_under(after(s, m).samples, name) == (if m is Observe && m->Observe_0.metric == name && aggregate_of(
            s,
            name,
        ) is Gauge {
            samples_under(s.samples, name).push((s.current_second, m->Observe_0.value))
        } else {
            samples_under(s.samples, name)
        }),
{
    if let Move::Observe(o) = m {
        if lookup(s.metrics, o.metric) is Some {
            crate::laws::histories::lemma_kind(s, o.metric);
            lookup_after_store(
                s.samples,
                o.metric,
                samples_under(s.samples, o.metric).push((s.current_second, o.value)),
                name,
            );
        }
    }
}

/// What is true of a metric after some operations.
spec fn kept_through(s: StoreModel, moves: Seq<Move>, name: Seq<char>, since: u64) -> bool {
    let t = after_all(s, moves);
    &&& coherent(t)
    &&& lookup(t.metrics, name) is Some
    &&& well_kept(aggregate_of(t, name), samples_under(t.samples, name), since, t.current_second)
    &&& match aggregate_of(t, name) {
        AggregateModel::Histogram { windows, current_window, .. } => seen(moves, name) < u64::MAX ==> {
            &&& charted(windows) == seen_before_now(s, moves, name)
            &&& charted(windows) + current_window.len() == seen(moves, name)
        },
        _ => true,
    }
}

proof fn lemma_kept_through(s: StoreModel, moves: Seq<Move>, name: Seq<char>, since: u64)
    requires
        kept_through(s, Seq::empty(), name, since),
    ensures
        kept_through(s, moves, name, since),
    decreases moves.len(),
{
    if moves.len() == 0 {
        assert(moves =~= Seq::empty());
    } else {
        let rest = moves.drop_last();
        lemma_kept_through(s, rest, name, since);
        let t = after_all(s, rest);
        let m = moves.last();
        let a = aggregate_of(t, name);
        let points = samples_under(t.samples, name);
        crate::laws::histories::every_operation_keeps_coherence(t, m);
        lemma_touched(t, m, name);
        lemma_samples(t, m, name);
        match m {
            Move::Observe(o) => {
                if o.metric == name {
                    lemma_recorded_well_kept(a, points, since, t.current_second, o.value, o.labels);
                    if let AggregateModel::Histogram { current_window, .. } = a {
                        lemma_hist_with_len(current_window, hist_units(o.value));
                    }
                }
            },
            Move::Advance(second) => {
                lemma_rolled_on_well_kept(a, points, since, t.current_second, second);
                lemma_rolled_on_keeps(a, t.current_second, second);
                if let AggregateModel::Histogram { .. } = a {
                    reveal(well_kept);
                    lemma_rolled_on_windows(a, t.current_second, second);
                }
            },
            _ => {},
        }
    }
}

/// Advancing closes the open window of a histogram.
proof fn lemma_rolled_on_windows(a: AggregateModel, from: u64, to: u64)
    requires
        a is Histogram,
        a->current_window.len() <= u64::MAX,
    ensures
        rolled_on(a, from, to) is Histogram,
        from >= to ==> rolled_on(a, from, to) == a,
        from < to ==> charted(rolled_on(a, from, to)->windows) == charted(a->windows) + a->current_window.len(),
        from < to ==> rolled_on(a, from, to)->current_window.len() == 0,
    decreases to - from,
{
    if from < to {
        let b = rolled(a, from);
        if a->current_window.len() > 0 {
            assert(b->windows.drop_last() =~= a->windows);
        }
        lemma_rolled_on_windows(b, (from + 1) as u64, to);
    }
}

/// Whatever is done with a store after a metric was declared in second `since`:
///
/// a counter or gauge has one bucket for each second from then on, the current one included;
///
/// a gauge shows in each second the last sample of that second, and in a second without one what
/// it showed in the second before;
///
/// a histogram has on its chart one point for each second before the current one in which
/// something was recorded, in the order of the seconds, and the counts of these points come to the
/// number of values that were recorded before the current second.
pub proof fn every_second_has_its_bucket(s: StoreModel, spec: MetricSpecModel, moves: Seq<Move>)
    requires
        coherent(s),
        lookup(s.metrics, spec.name) is None,
    ensures
        ({
            let t = after_all(declared(s, spec), moves);
            let since = s.current_second;
            &&& since <= t.current_second
            &&& lookup(t.metrics, spec.name) is Some
            &&& match aggregate_of(t, spec.name) {
                AggregateModel::Counter { per_second, .. } => per_second.len() == t.current_second - since + 1,
                AggregateModel::Gauge { per_second, .. } => {
                    &&& per_second.len() == t.current_second - since + 1
                    &&& samples_in_time(samples_under(t.samples, spec.name), since, t.current_second)
                    &&& shows_samples(per_second, samples_under(t.samples, spec.name), since)
                },
                AggregateModel::Histogram { windows, .. } => {
                    &&& chart_in_time(windows, since, t.current_second)
                    &&& seen(moves, spec.name) < u64::MAX ==> charted(windows) == seen_before_now(
                        declared(s, spec),
                        moves,
                        spec.name,
                    )
                },
            }
        }),
{
    let d = declared(s, spec);
    let v = MetricModel { spec, aggregate: fresh_aggregate(spec.kind) };
    declaring_keeps_coherence(s, spec);
    lookup_after_store(s.metrics, spec.name, v, spec.name);
    assert(lookup(s.samples, spec.name) is None);
    assert(samples_under(d.samples, spec.name) =~= Seq::empty());
    assert(not_a_number().nan());
    reveal(well_kept);
    assert(kept_through(d, Seq::empty(), spec.name, s.current_second));
    lemma_kept_through(d, moves, spec.name, s.current_second);
}

} // verus!
