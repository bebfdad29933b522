//! Charts: which points the lines of a metric hold, how the axes stand to them, and which rate stands
//! beside them.

use vstd::prelude::*;
use vstd::arithmetic::power2::{lemma2_to64, lemma_pow2_adds, lemma_pow2_pos, pow2};
use crate::app::AppModel;
use crate::laws::arithmetic::{a_product_is_nearly_exact, a_quotient_is_nearly_exact, abs, lemma_size};
use crate::laws::gauges::{lemma_mean, sum};
use crate::laws::numbers::{
    distance, order_is_that_of_the_values, rounding_a_value_gives_it_back, rounding_depends_on_the_ratio,
    rounding_keeps_order, whole_numbers_are_exact, whole_sums_are_exact,
};
use crate::metrics::{recent_buckets, recent_rate, AggregateModel, MetricModel, WindowPoint};
use crate::number::{of_nat, one_unit, zero, Number};
use crate::rounding::{units_of, TWO52, TWO53};
use crate::sorted::lookup;
use crate::ui::chart::{
    chart_of, counter_points, first_second, gauge_points, last_second, live_of, peak, peak_of, quantile, window_points,
    LiveModel, Quantile, SeriesModel, HEADROOM,
};

verus! {

proof fn lemma_seconds(a: nat, b: nat)
    requires
        a <= TWO53,
        b <= TWO53,
    ensures
        of_nat(a).at_most(of_nat(b)) <==> a <= b,
        of_nat(a).below(of_nat(b)) <==> a < b,
{
    whole_numbers_are_exact(a);
    whole_numbers_are_exact(b);
    order_is_that_of_the_values(of_nat(a), of_nat(b));
    lemma_pow2_pos(1074);
    let u = one_unit();
    assert(a * u <= b * u <==> a <= b) by (nonlinear_arith)
        requires
            u > 0,
    ;
    assert(a * u < b * u <==> a < b) by (nonlinear_arith)
        requires
            u > 0,
    ;
}

/// The seconds of a counter from `start` on, each with what was added in it.
pub open spec fn each_second(per_second: Seq<Number>, start: int) -> Seq<(Number, Number)> {
    Seq::new(
        (if per_second.len() > start {
            per_second.len() - start
        } else {
            0
        }) as nat,
        |i: int| (of_nat((start + i) as nat), per_second[start + i]),
    )
}

proof fn lemma_counter_points(per_second: Seq<Number>, start: nat)
    requires
        per_second.len() <= TWO53,
        start <= TWO53,
    ensures
        counter_points(per_second, of_nat(start)) == each_second(per_second, start as int),
    decreases per_second.len(),
{
    if per_second.len() > 0 {
        let rest = per_second.drop_last();
        lemma_counter_points(rest, start);
        let i = (per_second.len() - 1) as nat;
        lemma_seconds(start, i);
        if start <= i {
            assert(each_second(per_second, start as int) =~= each_second(rest, start as int).push(
                (of_nat(i), per_second.last()),
            ));
        } else {
            assert(each_second(per_second, start as int) =~= each_second(rest, start as int));
        }
    } else {
        assert(each_second(per_second, start as int) =~= Seq::empty());
    }
}

/// The points hold the seconds from `start` on that have a value, each once and in order.
pub open spec fn holds_seconds(
    points: Seq<(Number, Number)>,
    per_second: Seq<Option<Number>>,
    start: int,
) -> bool {
    &&& forall|i: int|
        0 <= i && start <= i < per_second.len() && (#[trigger] per_second[i]) is Some ==> points.contains(
            (of_nat(i as nat), per_second[i]->0),
        )
    &&& forall|j: int|
        0 <= j < points.len() ==> exists|i: int|
            0 <= i && start <= i < per_second.len() && per_second[i] == Some((#[trigger] points[j]).1) && points[j].0
                == #[trigger] of_nat(i as nat)
    &&& forall|j: int, k: int| 0 <= j < k < points.len() ==> (#[trigger] points[j]).0.below((#[trigger] points[k]).0)
}

proof fn lemma_gauge_points(per_second: Seq<Option<Number>>, start: nat)
    requires
        per_second.len() <= TWO53,
        start <= TWO53,
    ensures
        holds_seconds(gauge_points(per_second, of_nat(start)), per_second, start as int),
    decreases per_second.len(),
{
    let points = gauge_points(per_second, of_nat(start));
    if per_second.len() > 0 {
        let rest = per_second.drop_last();
        lemma_gauge_points(rest, start);
        let earlier = gauge_points(rest, of_nat(start));
        let last = (per_second.len() - 1) as nat;
        lemma_seconds(start, last);
        assert forall|i: int| 0 <= i && start <= i < per_second.len() && (#[trigger] per_second[i]) is Some implies
            points.contains((of_nat(i as nat), per_second[i]->0)) by {
            if i < last {
                assert(rest[i] == per_second[i]);
                let j = choose|j: int|
                    0 <= j < earlier.len() && earlier[j] == (of_nat(i as nat), per_second[i]->0);
                assert(points[j] == earlier[j]);
            } else {
                assert(points[points.len() - 1] == (of_nat(last), per_second[i]->0));
            }
        }
        assert forall|j: int| 0 <= j < points.len() implies exists|i: int|
            0 <= i && start <= i < per_second.len() && per_second[i] == Some((#[trigger] points[j]).1) && points[j].0
                == #[trigger] of_nat(i as nat) by {
            if j < earlier.len() {
                assert(points[j] == earlier[j]);
                let i = choose|i: int|
                    0 <= i && start <= i < rest.len() && rest[i] == Some(earlier[j].1) && earlier[j].0
                        == #[trigger] of_nat(i as nat);
                assert(per_second[i] == rest[i]);
                assert(points[j].0 == of_nat(i as nat));
            } else {
                assert(points[j].0 == of_nat(last as int as nat));
                assert(per_second[last as int] == Some(points[j].1));
            }
        }
        assert forall|j: int, k: int| 0 <= j < k < points.len() implies (#[trigger] points[j]).0.below(
            (#[trigger] points[k]).0,
        ) by {
            assert(points[j] == earlier[j]);
            if k < earlier.len() {
                assert(points[k] == earlier[k]);
            } else {
                let i = choose|i: int|
                    0 <= i && start <= i < rest.len() && rest[i] == Some(earlier[j].1) && earlier[j].0
                        == #[trigger] of_nat(i as nat);
                lemma_seconds(i as nat, last);
            }
        }
    }
}

/// The windows follow one another in time.
pub open spec fn in_time(windows: Seq<WindowPoint>) -> bool {
    forall|i: int, j: int|
        0 <= i < j < windows.len() ==> (#[trigger] windows[i]).second < (#[trigger] windows[j]).second
}

/// The point is that of some window from `start` on.
pub open spec fn stands_for_a_window(
    point: (Number, Number),
    windows: Seq<WindowPoint>,
    start: int,
    number: spec_fn(WindowPoint) -> Number,
) -> bool {
    exists|i: int|
        0 <= i < windows.len() && (#[trigger] windows[i]).second >= start && point == (
            of_nat(windows[i].second as nat),
            number(windows[i]),
        )
}

/// The points hold the windows from `start` on, each once and in order, by one of their numbers.
pub open spec fn holds_windows(
    points: Seq<(Number, Number)>,
    windows: Seq<WindowPoint>,
    start: int,
    number: spec_fn(WindowPoint) -> Number,
) -> bool {
    &&& forall|i: int|
        0 <= i < windows.len() && (#[trigger] windows[i]).second >= start ==> points.contains(
            (of_nat(windows[i].second as nat), number(windows[i])),
        )
    &&& forall|j: int|
        0 <= j < points.len() ==> #[trigger] stands_for_a_window(points[j], windows, start, number)
    &&& forall|j: int, k: int| 0 <= j < k < points.len() ==> (#[trigger] points[j]).0.below((#[trigger] points[k]).0)
}

proof fn lemma_window_points(
    windows: Seq<WindowPoint>,
    start: nat,
    q: Quantile,
    number: spec_fn(WindowPoint) -> Number,
)
    requires
        in_time(windows),
        forall|i: int| 0 <= i < windows.len() ==> (#[trigger] windows[i]).second <= TWO53,
        start <= TWO53,
        forall|w: WindowPoint| #[trigger] number(w) == quantile(w, q),
    ensures
        holds_windows(window_points(windows, of_nat(start), q), windows, start as int, number),
    decreases windows.len(),
{
    let points = window_points(windows, of_nat(start), q);
    if windows.len() > 0 {
        let rest = windows.drop_last();
        assert(forall|i: int| 0 <= i < rest.len() ==> #[trigger] rest[i] == windows[i]);
        lemma_window_points(rest, start, q, number);
        let earlier = window_points(rest, of_nat(start), q);
        let w = windows.last();
        assert(w == windows[windows.len() - 1]);
        let last = w.second as nat;
        lemma_seconds(start, last);
        assert forall|i: int| 0 <= i < windows.len() && (#[trigger] windows[i]).second >= start implies points.contains(
            (of_nat(windows[i].second as nat), number(windows[i])),
        ) by {
            if i < rest.len() {
                assert(rest[i] == windows[i]);
                let j = choose|j: int|
                    0 <= j < earlier.len() && earlier[j] == (of_nat(rest[i].second as nat), number(rest[i]));
                assert(points[j] == earlier[j]);
            } else {
                assert(points[points.len() - 1] == (of_nat(last), number(w)));
            }
        }
        assert forall|j: int| 0 <= j < points.len() implies #[trigger] stands_for_a_window(
            points[j],
            windows,
            start as int,
            number,
        ) by {
            if j < earlier.len() {
                assert(points[j] == earlier[j]);
                assert(stands_for_a_window(earlier[j], rest, start as int, number));
                let i = choose|i: int|
                    0 <= i < rest.len() && (#[trigger] rest[i]).second >= start && earlier[j] == (
                        of_nat(rest[i].second as nat),
                        number(rest[i]),
                    );
                assert(windows[i] == rest[i]);
            } else {
                assert(points[j] == (of_nat(last), number(windows[windows.len() - 1])));
            }
        }
        assert forall|j: int, k: int| 0 <= j < k < points.len() implies (#[trigger] points[j]).0.below(
            (#[trigger] points[k]).0,
        ) by {
            assert(points[j] == earlier[j]);
            if k < earlier.len() {
                assert(points[k] == earlier[k]);
            } else {
                assert(stands_for_a_window(earlier[j], rest, start as int, number));
                let i = choose|i: int|
                    0 <= i < rest.len() && (#[trigger] rest[i]).second >= start && earlier[j] == (
                        of_nat(rest[i].second as nat),
                        number(rest[i]),
                    );
                assert(windows[i].second < windows[windows.len() - 1].second);
                lemma_seconds(rest[i].second as nat, last);
            }
        }
    }
}

/// A metric is drawn from the first second of the window on: a counter by what each second added, a
/// gauge by its value in each second that has one, a histogram by its percentiles of each second, each
/// line under the name of its own.
pub proof fn a_chart_draws_its_metric(m: MetricModel, start: u64, end: u64)
    requires
        start <= TWO53,
    ensures
        ({
            let lines = chart_of(m, start, end).lines;
            match m.aggregate {
                AggregateModel::Counter { per_second, .. } => per_second.len() <= TWO53 ==> lines.len() == 1
                    && lines[0].name == "per second"@ && lines[0].points == each_second(per_second, start as int),
                AggregateModel::Gauge { per_second, .. } => per_second.len() <= TWO53 ==> lines.len() == 1
                    && lines[0].name == "value"@ && holds_seconds(lines[0].points, per_second, start as int),
                AggregateModel::Histogram { windows, .. } => in_time(windows) && (forall|i: int|
                    0 <= i < windows.len() ==> (#[trigger] windows[i]).second <= TWO53) ==> {
                    &&& lines.len() == 3
                    &&& lines[0].name == "p50"@ && lines[1].name == "p95"@ && lines[2].name == "p99"@
                    &&& holds_windows(lines[0].points, windows, start as int, |w: WindowPoint| w.p50)
                    &&& holds_windows(lines[1].points, windows, start as int, |w: WindowPoint| w.p95)
                    &&& holds_windows(lines[2].points, windows, start as int, |w: WindowPoint| w.p99)
                },
            }
        }),
{
    match m.aggregate {
        AggregateModel::Counter { per_second, .. } => {
            if per_second.len() <= TWO53 {
                lemma_counter_points(per_second, start as nat);
            }
        },
        AggregateModel::Gauge { per_second, .. } => {
            if per_second.len() <= TWO53 {
                lemma_gauge_points(per_second, start as nat);
            }
        },
        AggregateModel::Histogram { windows, .. } => {
            if in_time(windows) && (forall|i: int|
                0 <= i < windows.len() ==> (#[trigger] windows[i]).second <= TWO53) {
                lemma_window_points(windows, start as nat, Quantile::P50, |w: WindowPoint| w.p50);
                lemma_window_points(windows, start as nat, Quantile::P95, |w: WindowPoint| w.p95);
                lemma_window_points(windows, start as nat, Quantile::P99, |w: WindowPoint| w.p99);
            }
        },
    }
}

/// A value stands on the chart.
pub open spec fn is_drawn(lines: Seq<SeriesModel>, v: Number) -> bool {
    exists|i: int, j: int|
        0 <= i < lines.len() && 0 <= j < (#[trigger] lines[i]).points.len() && (#[trigger] lines[i].points[j]).1 == v
}

proof fn lemma_peak_of(points: Seq<(Number, Number)>, from: Number)
    requires
        !from.nan(),
    ensures
        !peak_of(points, from).nan(),
        from.at_most(peak_of(points, from)),
        forall|j: int| 0 <= j < points.len() && !(#[trigger] points[j]).1.nan() ==> points[j].1.at_most(peak_of(points, from)),
        peak_of(points, from) == from || exists|j: int| 0 <= j < points.len() && (#[trigger] points[j]).1 == peak_of(points, from),
    decreases points.len(),
{
    if points.len() > 0 {
        let rest = points.drop_last();
        lemma_peak_of(rest, from);
        assert forall|j: int| 0 <= j < points.len() && !(#[trigger] points[j]).1.nan() implies points[j].1.at_most(
            peak_of(points, from),
        ) by {
            if j < rest.len() {
                assert(rest[j] == points[j]);
            }
        }
        if peak_of(points, from) == peak_of(rest, from) {
            if peak_of(rest, from) != from {
                let j = choose|j: int| 0 <= j < rest.len() && (#[trigger] rest[j]).1 == peak_of(rest, from);
                assert(points[j] == rest[j]);
            }
        } else {
            assert(points[points.len() - 1].1 == peak_of(points, from));
        }
    }
}

proof fn lemma_peak(lines: Seq<SeriesModel>)
    ensures
        !peak(lines).nan(),
        zero(false).at_most(peak(lines)),
        forall|v: Number| #[trigger] is_drawn(lines, v) && !v.nan() ==> v.at_most(peak(lines)),
        peak(lines) == zero(false) || is_drawn(lines, peak(lines)),
    decreases lines.len(),
{
    if lines.len() > 0 {
        let rest = lines.drop_last();
        lemma_peak(rest);
        let last = lines.last();
        lemma_peak_of(last.points, peak(rest));
        assert forall|v: Number| #[trigger] is_drawn(lines, v) && !v.nan() implies v.at_most(peak(lines)) by {
            let (i, j) = choose|i: int, j: int|
                0 <= i < lines.len() && 0 <= j < (#[trigger] lines[i]).points.len() && (#[trigger] lines[i].points[j]).1
                    == v;
            if i < rest.len() {
                assert(rest[i] == lines[i]);
                assert(rest[i].points[j].1 == v);
                assert(is_drawn(rest, v));
            } else {
                assert(last.points[j].1 == v);
            }
        }
        if peak(lines) == peak(rest) {
            if peak(rest) != zero(false) {
                let (i, j) = choose|i: int, j: int|
                    0 <= i < rest.len() && 0 <= j < (#[trigger] rest[i]).points.len() && (#[trigger] rest[i].points[j]).1
                        == peak(rest);
                assert(lines[i] == rest[i]);
                assert(lines[i].points[j].1 == peak(lines));
            }
        } else {
            let j = choose|j: int| 0 <= j < last.points.len() && (#[trigger] last.points[j]).1 == peak(lines);
            assert(lines[lines.len() - 1].points[j].1 == peak(lines));
        }
    } else {
        assert forall|v: Number| #[trigger] is_drawn(lines, v) implies false by {}
    }
}

proof fn lemma_headroom()
    ensures
        (Number { bits: HEADROOM }).finite(),
        (Number { bits: HEADROOM }).units() * TWO52 == 0x11_9999_9999_999aint * one_unit(),
        (Number { bits: HEADROOM }).units() > one_unit(),
{
    lemma2_to64();
    lemma_pow2_pos(1022);
    lemma_pow2_adds(52, 1022);
    let m = HEADROOM as int;
    assert(m / TWO52 as int == 0x3ff && m % TWO52 as int == 0x1_9999_9999_999a) by (nonlinear_arith)
        requires
            m == 0x3ff1_9999_9999_999a,
            TWO52 == 0x10_0000_0000_0000,
    ;
    let p = pow2(1022) as int;
    let u = one_unit();
    let h = units_of(m);
    assert(h == 0x11_9999_9999_999aint * p);
    crate::rounding::lemma_two53();
    assert(pow2(52) == TWO52);
    assert(u == TWO52 * p);
    assert(h * TWO52 == 0x11_9999_9999_999aint * u) by (nonlinear_arith)
        requires
            h == 0x11_9999_9999_999aint * p,
            u == TWO52 * p,
    ;
    assert(h > u) by (nonlinear_arith)
        requires
            h == 0x11_9999_9999_999aint * p,
            u == TWO52 * p,
            TWO52 == 0x10_0000_0000_0000,
            p > 0,
    ;
}

/// What is multiplied by more than one does not become less.
proof fn lemma_raised(a: Number, b: Number)
    requires
        !a.nan(),
        a.bits < crate::number::SIGN,
        a.magnitude() > 0,
        b.finite(),
        b.units() > one_unit(),
    ensures
        a.at_most(a.times(b)),
{
    lemma_pow2_pos(1074);
    lemma_size(b);
    let u = one_unit();
    if a.finite() {
        let m = a.magnitude();
        lemma_size(a);
        let x = a.size();
        let y = b.size();
        assert(x * y >= x * u) by (nonlinear_arith)
            requires
                x >= 0,
                y >= u,
        ;
        assert(x * u >= 0) by (nonlinear_arith)
            requires
                x >= 0,
                u > 0,
        ;
        rounding_a_value_gives_it_back(m, u);
        rounding_keeps_order(x * u, x * y, u);
        crate::laws::histograms::lemma_nearest_range(x * y, u);
    }
}

/// The value axis starts at zero and leaves no value out: every value drawn is at most its top. The
/// top is a tenth above the greatest value, and one where no value is above zero.
pub proof fn the_axis_holds_every_value(m: MetricModel, start: u64, end: u64, v: Number)
    requires
        is_drawn(chart_of(m, start, end).lines, v),
        !v.nan(),
    ensures
        v.at_most(chart_of(m, start, end).top),
{
    let lines = chart_of(m, start, end).lines;
    lemma_peak(lines);
    let high = peak(lines);
    if high.at_most(zero(false)) {
        lemma_seconds(0, 1);
        whole_numbers_are_exact(0);
        whole_numbers_are_exact(1);
        whole_sums_are_exact(0, 0);
    } else {
        lemma_headroom();
        lemma_raised(high, Number { bits: HEADROOM });
    }
}

/// The top of the value axis is a tenth above the greatest value that is drawn.
pub proof fn the_axis_leaves_a_tenth_free(m: MetricModel, start: u64, end: u64, high: Number)
    requires
        is_drawn(chart_of(m, start, end).lines, high),
        zero(false).below(high),
        high.finite(),
        high.units() <= TWO52 * one_unit(),
        forall|v: Number| #[trigger]
            is_drawn(chart_of(m, start, end).lines, v) && !v.nan() ==> v.at_most(high),
    ensures
        ({
            let top = chart_of(m, start, end).top;
            &&& top.finite()
            &&& distance(10 * top.units(), 11 * high.units()) * TWO52 <= 16 * (high.units() + TWO52)
        }),
{
    let lines = chart_of(m, start, end).lines;
    lemma_peak(lines);
    lemma_headroom();
    assert(is_drawn(lines, peak(lines)));
    assert(peak(lines) == high);
    lemma_pow2_pos(1074);
    lemma_size(high);
    let factor = Number { bits: HEADROOM };
    lemma_size(factor);
    let u = one_unit();
    let p = high.units();
    let h = factor.units();
    let top = chart_of(m, start, end).top;
    let t = top.units();
    let sig = 0x11_9999_9999_999aint;
    assert(h <= 2 * u) by (nonlinear_arith)
        requires
            h * TWO52 == sig * u,
            sig <= 2 * TWO52,
            TWO52 == 0x10_0000_0000_0000,
            u > 0,
    ;
    assert(0 <= p * h <= u * (TWO53 * u)) by (nonlinear_arith)
        requires
            0 <= p <= TWO52 * u,
            0 <= h <= 2 * u,
            TWO53 == 2 * TWO52,
            u > 0,
            TWO52 > 0,
    ;
    a_product_is_nearly_exact(high, factor);
    let e = distance(t * u, p * h);
    assert(e * TWO53 <= p * h + u * TWO52);
    // Everything times 2^52, over one unit.
    let d = distance(t * TWO52, p * sig);
    assert(e * TWO52 == d * u) by {
        let a = t * u - p * h;
        let b = t * TWO52 - p * sig;
        assert(a * TWO52 == b * u) by (nonlinear_arith)
            requires
                a == t * u - p * h,
                b == t * TWO52 - p * sig,
                h * TWO52 == sig * u,
        ;
        assert((-a) * TWO52 == (-b) * u) by (nonlinear_arith)
            requires
                a * TWO52 == b * u,
        ;
        assert(a >= 0 <==> b >= 0) by (nonlinear_arith)
            requires
                a * TWO52 == b * u,
                u > 0,
                TWO52 > 0,
        ;
    }
    assert(d * TWO53 <= p * sig + TWO52 * TWO52) by (nonlinear_arith)
        requires
            e * TWO53 <= p * h + u * TWO52,
            e * TWO52 == d * u,
            h * TWO52 == sig * u,
            u > 0,
            TWO52 > 0,
    ;
    lemma_tenth(t, p, d);
}

proof fn lemma_tenth(t: int, p: int, d: int)
    requires
        p >= 0,
        d == distance(t * 0x10_0000_0000_0000, p * 0x11_9999_9999_999a),
        d * 0x20_0000_0000_0000 <= p * 0x11_9999_9999_999a + 0x10_0000_0000_0000 * 0x10_0000_0000_0000,
    ensures
        distance(10 * t, 11 * p) * 0x10_0000_0000_0000 <= 16 * (p + 0x10_0000_0000_0000),
{
}

/// The seconds on the axis: where the chart starts, its middle, and where it ends.
pub proof fn the_axis_shows_its_seconds(m: MetricModel, start: u64, end: u64)
    requires
        start + end <= TWO53,
    ensures
        ({
            let c = chart_of(m, start, end);
            &&& c.from.units() == start * one_unit()
            &&& c.to.units() == end * one_unit()
            &&& c.second_labels.len() == 3
            &&& c.second_labels[0][0] == crate::doc::Glyph::Fixed(c.from, 0)
            &&& c.second_labels[2][0] == crate::doc::Glyph::Fixed(c.to, 0)
            &&& c.second_labels[1][0] is Fixed
            &&& distance(2 * c.second_labels[1][0]->Fixed_0.units(), (start + end) * one_unit()) * TWO53 <= (start
                + end) * one_unit() + 2 * TWO52
        }),
{
    whole_numbers_are_exact(start as nat);
    whole_numbers_are_exact(end as nat);
    whole_numbers_are_exact(2);
    whole_numbers_are_exact((start + end) as nat);
    whole_sums_are_exact(start as nat, end as nat);
    lemma_pow2_pos(1074);
    let u = one_unit();
    let n = (start + end) as int;
    let total = of_nat((start + end) as nat);
    assert(of_nat(start as nat).plus(of_nat(end as nat)) == total);
    assert(n * u <= (2 * u) * TWO53) by (nonlinear_arith)
        requires
            0 <= n <= TWO53,
            u > 0,
    ;
    assert(n * u >= 0) by (nonlinear_arith)
        requires
            0 <= n,
            u > 0,
    ;
    a_quotient_is_nearly_exact(total, of_nat(2));
    let mid = total.over(of_nat(2)).units();
    let e = distance(mid * (2 * u), (n * u) * u);
    let d = distance(2 * mid, n * u);
    assert(e == d * u) by {
        let b = 2 * mid - n * u;
        assert(mid * (2 * u) - (n * u) * u == b * u) by (nonlinear_arith)
            requires
                b == 2 * mid - n * u,
        ;
        assert((-b) * u == -(b * u)) by (nonlinear_arith);
        assert(b >= 0 <==> b * u >= 0) by (nonlinear_arith)
            requires
                u > 0,
        ;
    }
    let bound = n * u + 2 * TWO52;
    assert((n * u) * u + (2 * u) * TWO52 == bound * u) by (nonlinear_arith)
        requires
            bound == n * u + 2 * TWO52,
    ;
    assert(d * TWO53 <= bound) by (nonlinear_arith)
        requires
            (d * u) * TWO53 <= bound * u,
            u > 0,
    ;
    let labels = chart_of(m, start, end).second_labels;
    assert(labels[1] == crate::ui::chart::second_label(total.over(of_nat(2))));
}

/// The pane beside the list shows the selected metric, over the seconds of the window that end now.
pub proof fn the_selected_metric_is_shown(a: AppModel)
    requires
        a.selected < a.store.order.len(),
        lookup(a.store.metrics, a.store.order[a.selected as int]) is Some,
    ensures
        ({
            let m = lookup(a.store.metrics, a.store.order[a.selected as int])->0;
            let now = a.store.current_second;
            &&& last_second(a) >= 1 && (now >= 1 ==> last_second(a) == now)
            &&& now >= a.chart_window_seconds ==> first_second(a) + a.chart_window_seconds == now
            &&& now < a.chart_window_seconds ==> first_second(a) == 0
            &&& match live_of(a) {
                LiveModel::Metric { chart, .. } => chart == chart_of(m, first_second(a), last_second(a)),
                _ => false,
            }
        }),
{
}

/// The rate that a counter shows is the mean of the last seconds that have ended, five at the most: as
/// often as there are seconds, it is what was added in them.
pub proof fn the_rate_shown_is_that_of_the_last_seconds(per_second: Seq<Number>, values: Seq<int>, w: int)
    requires
        per_second.len() >= 2,
        values.len() == (if per_second.len() <= 5 {
            per_second.len() - 1
        } else {
            5
        }),
        forall|i: int|
            0 <= i < values.len() ==> {
                &&& per_second[per_second.len() - 2 - i].finite()
                &&& per_second[per_second.len() - 2 - i].units() == (#[trigger] values[i]) * one_unit()
                &&& abs(values[i]) <= w
            },
        w >= 1,
        5 * w <= TWO53,
    ensures
        recent_rate(per_second).finite(),
        distance(values.len() * recent_rate(per_second).units(), sum(values) * one_unit()) * TWO52 <= values.len() * w
            * one_unit(),
{
    let recent = recent_buckets(per_second);
    assert(recent.len() == values.len());
    assert forall|i: int| 0 <= i < recent.len() implies (#[trigger] recent[i]).finite() && recent[i].units() == values[i]
        * one_unit() by {
        assert(abs(values[i]) <= w);
    }
    assert(recent.len() * w <= 5 * w) by (nonlinear_arith)
        requires
            recent.len() <= 5,
            w >= 1,
    ;
    lemma_mean(recent, values, w);
}

/// Before a second has ended, the rate shown is zero.
pub proof fn before_a_second_has_ended_there_is_no_rate(per_second: Seq<Number>)
    requires
        per_second.len() < 2,
    ensures
        recent_rate(per_second).finite(),
        recent_rate(per_second).units() == 0,
{
    whole_numbers_are_exact(1);
    lemma_pow2_pos(1074);
    let none = zero(true);
    lemma_size(none);
    assert(recent_buckets(per_second) =~= Seq::empty());
    a_quotient_is_nearly_exact(none, of_nat(1));
    let r = recent_rate(per_second);
    let u = one_unit();
    crate::laws::numbers::whole_sums_are_exact(0, 0);
    rounding_depends_on_the_ratio(0, 1, 1 * u);
    assert(0 * (1 * u) == 0 && 1 * (1 * u) == u) by (nonlinear_arith);
    assert(none.size() * u == 0) by (nonlinear_arith)
        requires
            none.size() == 0,
    ;
    assert(0 * u == 0);
    whole_numbers_are_exact(0);
}

} // verus!
