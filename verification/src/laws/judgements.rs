//! Judgements: which number of a phase a threshold looks at, when it holds, and what the verdicts of a
//! run say of its phases.

use vstd::prelude::*;
use crate::laws::arithmetic::a_quotient_is_nearly_exact;
use crate::laws::numbers::{distance, order_is_that_of_the_values, whole_numbers_are_exact};
use crate::laws::verdicts::{
    a_phase_passes_when_every_applicable_threshold_holds, applies, the_ceiling_is_the_last_passing_phase,
    the_first_failure_is_the_first_failing_phase,
};
use crate::metrics::{GaugeStats, Percentiles, PhaseSummaryModel};
use crate::number::{of_nat, one_unit, zero, Number};
use crate::protocol::label_key_spec;
use crate::rounding::{TWO52, TWO53};
use crate::sorted::lookup;
use crate::verdict::{
    ceiling_of, checked, evaluated, first_failure_of, in_range, judged_value, phase_verdict, phase_verdicts, skipped, Stat,
    ThresholdModel,
};

verus! {

/// The rate of a counter in a phase that has ended is its count over the seconds from the beginning to
/// the end, whenever it is judged; in an open phase over those from the beginning to now; and never
/// over less than one.
pub proof fn a_rate_is_the_count_over_the_seconds_of_its_phase(
    t: ThresholdModel,
    p: PhaseSummaryModel,
    now: u64,
    later: u64,
)
    requires
        t.stat == Stat::Rate,
    ensures
        lookup(p.counters, t.metric) is None ==> judged_value(t, p, now) is None,
        lookup(p.counters, t.metric) is Some ==> ({
            let c = lookup(p.counters, t.metric)->0;
            match p.end_second {
                Some(e) => {
                    &&& judged_value(t, p, now) == judged_value(t, p, later)
                    &&& e > p.start_second ==> judged_value(t, p, now) == Some(c.over(of_nat((e - p.start_second) as nat)))
                    &&& e <= p.start_second ==> judged_value(t, p, now) == Some(c.over(of_nat(1)))
                },
                None => {
                    &&& now > p.start_second ==> judged_value(t, p, now) == Some(
                        c.over(of_nat((now - p.start_second) as nat)),
                    )
                    &&& now <= p.start_second ==> judged_value(t, p, now) == Some(c.over(of_nat(1)))
                },
            }
        }),
{
}

/// The rate of a phase, times its seconds, is its count, up to one part in 2^53.
pub proof fn a_rate_times_the_seconds_is_the_count(t: ThresholdModel, p: PhaseSummaryModel, now: u64, count: nat)
    requires
        t.stat == Stat::Rate,
        lookup(p.counters, t.metric) == Some(of_nat(count)),
        count <= TWO53,
        p.end_second is Some,
        p.start_second < p.end_second->0,
        p.end_second->0 - p.start_second <= TWO53,
    ensures
        judged_value(t, p, now) is Some,
        judged_value(t, p, now)->0.finite(),
        distance(
            judged_value(t, p, now)->0.units() * (p.end_second->0 - p.start_second),
            count * one_unit(),
        ) * TWO53 <= count * one_unit() + (p.end_second->0 - p.start_second) * TWO52,
{
    let u = one_unit();
    let n = p.end_second->0 - p.start_second;
    vstd::arithmetic::power2::lemma_pow2_pos(1074);
    whole_numbers_are_exact(count);
    whole_numbers_are_exact(n as nat);
    let d = n * u;
    let a = count * u;
    assert(d > 0 && a >= 0 && a <= d * TWO53) by (nonlinear_arith)
        requires
            d == n * u,
            a == count * u,
            1 <= n,
            0 <= count <= TWO53,
            u > 0,
    ;
    a_quotient_is_nearly_exact(of_nat(count), of_nat(n as nat));
    let r = of_nat(count).over(of_nat(n as nat)).units();
    let off = distance(r * n, a);
    assert(distance(r * d, a * u) == off * u) by (nonlinear_arith)
        requires
            off == distance(r * n, a),
            d == n * u,
            u > 0,
    ;
    assert(off * TWO53 <= a + n * TWO52) by (nonlinear_arith)
        requires
            (off * u) * TWO53 <= a * u + d * TWO52,
            d == n * u,
            u > 0,
    ;
}

/// The total of a counter is its count in the phase, whenever it is judged.
pub proof fn a_total_is_the_count_of_its_phase(t: ThresholdModel, p: PhaseSummaryModel, now: u64)
    requires
        t.stat == Stat::Total,
    ensures
        judged_value(t, p, now) == lookup(p.counters, t.metric),
{
}

/// A share is what was counted under the labels over what was counted in all; a counter that has
/// nothing has no share.
pub proof fn a_share_is_the_labelled_part_of_the_count(t: ThresholdModel, p: PhaseSummaryModel, now: u64)
    requires
        t.stat == Stat::Share,
        t.labels.len() > 0,
    ensures
        lookup(p.counters, t.metric) is None ==> judged_value(t, p, now) is None,
        lookup(p.counters, t.metric) is Some ==> ({
            let all = lookup(p.counters, t.metric)->0;
            let rows = lookup(p.counter_labels, t.metric);
            let key = label_key_spec(t.labels)->0;
            if all.at_most(zero(false)) {
                judged_value(t, p, now) is None
            } else if rows is Some && lookup(rows->0, key) is Some {
                judged_value(t, p, now) == Some(lookup(rows->0, key)->0.over(all))
            } else {
                judged_value(t, p, now) == Some(zero(false).over(all))
            }
        }),
{
}

/// A threshold on a histogram looks at the number that its statistic names, where anything was
/// recorded.
pub proof fn a_threshold_looks_at_its_own_percentile(t: ThresholdModel, p: PhaseSummaryModel, h: Percentiles, now: u64)
    requires
        lookup(p.histograms, t.metric) == Some(h),
    ensures
        h.count > 0 && t.stat == Stat::P50 ==> judged_value(t, p, now) == Some(h.p50),
        h.count > 0 && t.stat == Stat::P90 ==> judged_value(t, p, now) == Some(h.p90),
        h.count > 0 && t.stat == Stat::P95 ==> judged_value(t, p, now) == Some(h.p95),
        h.count > 0 && t.stat == Stat::P99 ==> judged_value(t, p, now) == Some(h.p99),
        h.count > 0 && t.stat == Stat::Max ==> judged_value(t, p, now) == Some(h.max),
        h.count > 0 && t.stat == Stat::Mean ==> judged_value(t, p, now) == Some(h.mean),
        h.count > 0 && t.stat == Stat::Count ==> judged_value(t, p, now) == Some(of_nat(h.count as nat)),
        h.count == 0 && (t.stat == Stat::P50 || t.stat == Stat::P90 || t.stat == Stat::P95 || t.stat == Stat::P99
            || t.stat == Stat::Max || t.stat == Stat::Mean || t.stat == Stat::Count) ==> judged_value(t, p, now) is None,
{
}

/// A threshold on a gauge looks at the number that its statistic names, where the gauge was sampled.
pub proof fn a_threshold_looks_at_its_own_gauge_number(t: ThresholdModel, p: PhaseSummaryModel, g: GaugeStats, now: u64)
    requires
        lookup(p.gauges, t.metric) == Some(g),
        lookup(p.histograms, t.metric) is None,
    ensures
        g.samples > 0 && t.stat == Stat::Last ==> judged_value(t, p, now) == Some(g.last),
        g.samples > 0 && t.stat == Stat::Slope ==> judged_value(t, p, now) == Some(g.slope),
        g.samples > 0 && t.stat == Stat::Max ==> judged_value(t, p, now) == Some(g.max),
        g.samples > 0 && t.stat == Stat::Mean ==> judged_value(t, p, now) == Some(g.mean),
        g.samples > 0 && t.stat == Stat::Count ==> judged_value(t, p, now) == Some(of_nat(g.samples as nat)),
        t.stat == Stat::P50 || t.stat == Stat::P90 || t.stat == Stat::P95 || t.stat == Stat::P99 ==> judged_value(
            t,
            p,
            now,
        ) is None,
        g.samples == 0 && (t.stat == Stat::Last || t.stat == Stat::Slope || t.stat == Stat::Max || t.stat == Stat::Mean
            || t.stat == Stat::Count) ==> judged_value(t, p, now) is None,
{
}

/// A threshold on a metric that the phase knows nothing of judges nothing.
pub proof fn a_phase_without_data_is_not_judged(t: ThresholdModel, p: PhaseSummaryModel, now: u64)
    requires
        lookup(p.counters, t.metric) is None,
        lookup(p.histograms, t.metric) is None,
        lookup(p.gauges, t.metric) is None,
    ensures
        judged_value(t, p, now) is None,
        match checked(t, p, now) {
            Some(c) => c.value is None && c.pass,
            None => true,
        },
{
}

/// The value lies within the bounds of the threshold, the bounds included.
pub open spec fn within(t: ThresholdModel, v: Number) -> bool {
    &&& t.min is Some ==> t.min->0.at.at_most(v)
    &&& t.max is Some ==> v.at_most(t.max->0.at)
}

/// The phase's name begins with one of the prefixes that the threshold skips.
pub open spec fn skips(t: ThresholdModel, name: Seq<char>) -> bool {
    exists|i: int|
        0 <= i < t.skip_phases.len() && (#[trigger] t.skip_phases[i]).len() <= name.len() && name.take(
            t.skip_phases[i].len() as int,
        ) == t.skip_phases[i]
}

proof fn lemma_skips(t: ThresholdModel, name: Seq<char>)
    ensures
        skipped(t, name) == skips(t, name),
{
    if skips(t, name) {
        let i = choose|i: int|
            0 <= i < t.skip_phases.len() && (#[trigger] t.skip_phases[i]).len() <= name.len() && name.take(
                t.skip_phases[i].len() as int,
            ) == t.skip_phases[i];
        assert(crate::text::begins(name, t.skip_phases[i]));
    }
    if skipped(t, name) {
        let i = choose|i: int| 0 <= i < t.skip_phases.len() && crate::text::begins(name, #[trigger] t.skip_phases[i]);
        assert(t.skip_phases[i].len() <= name.len());
    }
}

/// A check says what was judged, and passes exactly where that lies within the bounds or there is
/// nothing to judge. A skipped phase has no check.
pub proof fn a_check_passes_exactly_within_the_bounds(t: ThresholdModel, p: PhaseSummaryModel, now: u64)
    ensures
        checked(t, p, now) is None <==> skips(t, p.name),
        checked(t, p, now) is Some ==> checked(t, p, now)->0.value == judged_value(t, p, now),
        checked(t, p, now) is Some && judged_value(t, p, now) is None ==> checked(t, p, now)->0.pass,
        checked(t, p, now) is Some && judged_value(t, p, now) is Some ==> checked(t, p, now)->0.pass == within(
            t,
            judged_value(t, p, now)->0,
        ),
{
    lemma_skips(t, p.name);
}

/// Bounds and values that are finite are compared by what they are worth.
pub proof fn bounds_are_compared_by_value(t: ThresholdModel, v: Number)
    requires
        v.finite(),
        t.min is Some ==> t.min->0.at.finite(),
        t.max is Some ==> t.max->0.at.finite(),
    ensures
        in_range(t, v) <==> (t.min is Some ==> t.min->0.at.units() <= v.units()) && (t.max is Some ==> v.units()
            <= t.max->0.at.units()),
{
    if t.min is Some {
        order_is_that_of_the_values(t.min->0.at, v);
    }
    if t.max is Some {
        order_is_that_of_the_values(v, t.max->0.at);
    }
}

/// Some threshold looks at the phase, and its value is out of bounds.
pub open spec fn breaks(ts: Seq<ThresholdModel>, p: PhaseSummaryModel, now: u64) -> bool {
    exists|i: int|
        0 <= i < ts.len() && !skips(#[trigger] ts[i], p.name) && judged_value(ts[i], p, now) is Some && !within(
            ts[i],
            judged_value(ts[i], p, now)->0,
        )
}

/// Some threshold looks at the phase, and none that does finds its value out of bounds.
pub open spec fn keeps(ts: Seq<ThresholdModel>, p: PhaseSummaryModel, now: u64) -> bool {
    &&& !breaks(ts, p, now)
    &&& exists|i: int|
        0 <= i < ts.len() && !skips(#[trigger] ts[i], p.name) && judged_value(ts[i], p, now) is Some
}

proof fn lemma_phase(ts: Seq<ThresholdModel>, p: PhaseSummaryModel, now: u64)
    ensures
        phase_verdict(ts, p, now).pass == Some(true) <==> keeps(ts, p, now),
        phase_verdict(ts, p, now).pass == Some(false) <==> breaks(ts, p, now),
        phase_verdict(ts, p, now).phase == p.name,
{
    a_phase_passes_when_every_applicable_threshold_holds(ts, p, now);
    assert forall|i: int| 0 <= i < ts.len() implies skipped(#[trigger] ts[i], p.name) == skips(ts[i], p.name) by {
        lemma_skips(ts[i], p.name);
    }
    let v = phase_verdict(ts, p, now);
    if v.pass is Some {
        let i = choose|i: int| 0 <= i < ts.len() && applies(#[trigger] ts[i], p, now);
        assert(!skips(ts[i], p.name));
    }
    if v.pass == Some(false) {
        let i = choose|i: int|
            0 <= i < ts.len() && applies(#[trigger] ts[i], p, now) && !in_range(ts[i], judged_value(ts[i], p, now)->0);
        assert(!skips(ts[i], p.name) && !within(ts[i], judged_value(ts[i], p, now)->0));
    }
    if breaks(ts, p, now) {
        let i = choose|i: int|
            0 <= i < ts.len() && !skips(#[trigger] ts[i], p.name) && judged_value(ts[i], p, now) is Some && !within(
                ts[i],
                judged_value(ts[i], p, now)->0,
            );
        assert(applies(ts[i], p, now) && !in_range(ts[i], judged_value(ts[i], p, now)->0));
    }
    if keeps(ts, p, now) {
        let i = choose|i: int|
            0 <= i < ts.len() && !skips(#[trigger] ts[i], p.name) && judged_value(ts[i], p, now) is Some;
        assert(applies(ts[i], p, now));
    }
}

/// The verdicts of a run: each phase, and the run as a whole, passes where some threshold looks at it
/// and none finds its value out of bounds, and fails where one does. The ceiling is the last phase
/// that passes, the first failure the first that fails.
pub proof fn verdicts_say_which_phases_hold(
    ts: Seq<ThresholdModel>,
    overall: PhaseSummaryModel,
    ps: Seq<PhaseSummaryModel>,
    now: u64,
)
    requires
        ts.len() > 0,
    ensures
        evaluated(ts, overall, ps, now).overall is Some,
        evaluated(ts, overall, ps, now).overall->0.pass == Some(true) <==> keeps(ts, overall, now),
        evaluated(ts, overall, ps, now).overall->0.pass == Some(false) <==> breaks(ts, overall, now),
        evaluated(ts, overall, ps, now).phases.len() == ps.len(),
        forall|i: int|
            0 <= i < ps.len() ==> {
                let v = #[trigger] evaluated(ts, overall, ps, now).phases[i];
                &&& v.phase == ps[i].name
                &&& v.pass == Some(true) <==> keeps(ts, ps[i], now)
                &&& v.pass == Some(false) <==> breaks(ts, ps[i], now)
            },
        match evaluated(ts, overall, ps, now).ceiling {
            Some(name) => exists|i: int|
                0 <= i < ps.len() && (#[trigger] ps[i]).name == name && keeps(ts, ps[i], now) && forall|j: int|
                    i < j < ps.len() ==> !keeps(ts, #[trigger] ps[j], now),
            None => forall|j: int| 0 <= j < ps.len() ==> !keeps(ts, #[trigger] ps[j], now),
        },
        match evaluated(ts, overall, ps, now).first_failure {
            Some(name) => exists|i: int|
                0 <= i < ps.len() && (#[trigger] ps[i]).name == name && breaks(ts, ps[i], now) && forall|j: int|
                    0 <= j < i ==> !breaks(ts, #[trigger] ps[j], now),
            None => forall|j: int| 0 <= j < ps.len() ==> !breaks(ts, #[trigger] ps[j], now),
        },
{
    lemma_phase(ts, overall, now);
    let vs = phase_verdicts(ts, ps, now);
    assert forall|i: int| 0 <= i < ps.len() implies (#[trigger] vs[i]).phase == ps[i].name && (vs[i].pass == Some(true)
        <==> keeps(ts, ps[i], now)) && (vs[i].pass == Some(false) <==> breaks(ts, ps[i], now)) by {
        lemma_phase(ts, ps[i], now);
    }
    the_ceiling_is_the_last_passing_phase(vs);
    the_first_failure_is_the_first_failing_phase(vs);
    match ceiling_of(vs) {
        Some(name) => {
            let i = choose|i: int|
                0 <= i < vs.len() && (#[trigger] vs[i]).phase == name && vs[i].pass == Some(true) && forall|j: int|
                    i < j < vs.len() ==> (#[trigger] vs[j]).pass != Some(true);
            assert(ps[i].name == name);
            assert forall|j: int| i < j < ps.len() implies !keeps(ts, #[trigger] ps[j], now) by {
                assert(vs[j].pass != Some(true));
            }
        },
        None => {
            assert forall|j: int| 0 <= j < ps.len() implies !keeps(ts, #[trigger] ps[j], now) by {
                assert(vs[j].pass != Some(true));
            }
        },
    }
    match first_failure_of(vs) {
        Some(name) => {
            let i = choose|i: int|
                0 <= i < vs.len() && (#[trigger] vs[i]).phase == name && vs[i].pass == Some(false) && forall|j: int|
                    0 <= j < i ==> (#[trigger] vs[j]).pass != Some(false);
            assert(ps[i].name == name);
            assert forall|j: int| 0 <= j < i implies !breaks(ts, #[trigger] ps[j], now) by {
                assert(vs[j].pass != Some(false));
            }
        },
        None => {
            assert forall|j: int| 0 <= j < ps.len() implies !breaks(ts, #[trigger] ps[j], now) by {
                assert(vs[j].pass != Some(false));
            }
        },
    }
}

} // verus!
