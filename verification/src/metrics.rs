//! Aggregation of raw observations into what the dashboard and report need:
//! per-second series for charts, histograms for percentiles, label breakdowns, and
//! per-phase snapshots. Pure: time is passed in.

use vstd::prelude::*;
use vstd::multiset::Multiset;
use crate::doc::{count_ink, fmt_num, ink, num_ink, Doc, Glyph};
use crate::hist::{bucket_high, greatest, hist_with, least, mean_of, percentile_of, Hist, HIST_MAX, HIST_MIN};
use crate::laws::histograms::{a_value_lies_in_its_bucket, buckets_keep_order, ranked, reported_percentiles_rise, rising, shared_out};
use crate::laws::percentiles::{each_percentile_stands_at_its_percentage, is_highest_of, is_lowest_of, stands_at};
use crate::number::{not_a_number, of_nat, zero, Number, QUIET, SIGN};
use crate::protocol::{label_key, label_key_spec, Labels, LabelsModel, MetricKind, MetricSpec, MetricSpecModel, Observation, ObservationModel};
use crate::sorted::{holds, in_order, lookup, store, Duplicate, SortedMap};

verus! {

/// Histogram values are stored as micro-units so sub-millisecond latencies keep precision.
pub const HIST_SCALE: u64 = 1000;

/// A value in micro-units, within the bounds of a histogram.
pub open spec fn hist_units(v: Number) -> u64 {
    let units = v.times(of_nat(HIST_SCALE as nat)).rounded();
    if units < HIST_MIN {
        HIST_MIN
    } else if units > HIST_MAX {
        HIST_MAX
    } else {
        units
    }
}

pub fn to_hist_units(v: Number) -> (r: u64)
    ensures
        r == hist_units(v),
        HIST_MIN <= r <= HIST_MAX,
{
    let units: u64 = v.mul(Number::of(HIST_SCALE as u128)).round();
    if units < HIST_MIN {
        HIST_MIN
    } else if units > HIST_MAX {
        HIST_MAX
    } else {
        units
    }
}

/// The number that some micro-units stand for.
pub open spec fn unit_value(v: u64) -> Number {
    of_nat(v as nat).over(of_nat(HIST_SCALE as nat))
}

pub fn from_hist_units(v: u64) -> (r: Number)
    ensures
        r == unit_value(v),
{
    Number::of(v as u128).div(Number::of(HIST_SCALE as u128))
}

#[derive(Clone, Copy, Debug, PartialEq, Eq, Structural)]
pub struct Percentiles {
    pub count: u64,
    pub min: Number,
    pub p50: Number,
    pub p90: Number,
    pub p95: Number,
    pub p99: Number,
    pub max: Number,
    pub mean: Number,
}

impl DeepView for Percentiles {
    type V = Percentiles;

    open spec fn deep_view(&self) -> Percentiles {
        *self
    }
}

impl Duplicate for Percentiles {
    fn duplicate(&self) -> (r: Self) {
        *self
    }
}

/// The percentiles of what a histogram holds; all zero where it holds nothing.
pub open spec fn percentiles_of(c: Multiset<u64>) -> Percentiles {
    if c.len() == 0 {
        Percentiles {
            count: 0,
            min: zero(false),
            p50: zero(false),
            p90: zero(false),
            p95: zero(false),
            p99: zero(false),
            max: zero(false),
            mean: zero(false),
        }
    } else {
        Percentiles {
            count: c.len() as u64,
            min: unit_value(least(c)),
            p50: unit_value(percentile_of(c, 50)),
            p90: unit_value(percentile_of(c, 90)),
            p95: unit_value(percentile_of(c, 95)),
            p99: unit_value(percentile_of(c, 99)),
            max: unit_value(bucket_high(greatest(c))),
            mean: (Number { bits: mean_of(c) }).over(of_nat(HIST_SCALE as nat)),
        }
    }
}

impl Percentiles {
    pub fn of_histogram(h: &Hist) -> (r: Percentiles)
        ensures
            r == percentiles_of(h@),
            r.count == h@.len(),
            h@.len() > 0 ==> ranked(h@) && shared_out(h@),
            rising(r),
            0 < h@.len() <= 0x100_0000_0000 ==> {
                &&& is_lowest_of(r.min, h@)
                &&& stands_at(r.p50, h@, 50)
                &&& stands_at(r.p90, h@, 90)
                &&& stands_at(r.p95, h@, 95)
                &&& stands_at(r.p99, h@, 99)
                &&& is_highest_of(r.max, h@)
            },
    {
        if h.is_empty() {
            let none = Number { bits: 0 };
            proof {
                reported_percentiles_rise(h@);
            }
            return Percentiles { count: 0, min: none, p50: none, p90: none, p95: none, p99: none, max: none, mean: none };
        }
        let min: u64 = h.min();
        let p50: u64 = h.percentile(50);
        let p90: u64 = h.percentile(90);
        let p95: u64 = h.percentile(95);
        let p99: u64 = h.percentile(99);
        let max: u64 = h.max();
        proof {
            let low = choose|x: u64| #[trigger] h@.contains(x) && p50 == bucket_high(x);
            a_value_lies_in_its_bucket(low);
            let high = choose|x: u64| #[trigger] h@.contains(x) && p99 == bucket_high(x);
            buckets_keep_order(high, greatest(h@));
            reported_percentiles_rise(h@);
            if h@.len() <= 0x100_0000_0000 {
                each_percentile_stands_at_its_percentage(h@);
            }
        }
        Percentiles {
            count: h.len(),
            min: from_hist_units(min),
            p50: from_hist_units(p50),
            p90: from_hist_units(p90),
            p95: from_hist_units(p95),
            p99: from_hist_units(p99),
            max: from_hist_units(max),
            mean: Number::from_bits(h.mean_bits()).div(Number::of(HIST_SCALE as u128)),
        }
    }
}

/// One second of a histogram metric, for the chart.
#[derive(Clone, Copy, Debug, PartialEq, Eq, Structural)]
pub struct WindowPoint {
    pub second: u64,
    pub count: u64,
    pub p50: Number,
    pub p95: Number,
    pub p99: Number,
}

impl DeepView for WindowPoint {
    type V = WindowPoint;

    open spec fn deep_view(&self) -> WindowPoint {
        *self
    }
}

#[allow(inconsistent_fields)]
#[derive(Debug)]
pub enum Aggregate {
    Counter { total: Number, per_second: Vec<Number>, by_label: SortedMap<Number> },
    Gauge { last: Number, per_second: Vec<Option<Number>>, by_label: SortedMap<Number> },
    Histogram { all: Hist, current_window: Hist, windows: Vec<WindowPoint>, by_label: SortedMap<Hist> },
}

#[allow(inconsistent_fields)]
pub enum AggregateModel {
    Counter { total: Number, per_second: Seq<Number>, by_label: Seq<(Seq<char>, Number)> },
    Gauge { last: Number, per_second: Seq<Option<Number>>, by_label: Seq<(Seq<char>, Number)> },
    Histogram {
        all: Multiset<u64>,
        current_window: Multiset<u64>,
        windows: Seq<WindowPoint>,
        by_label: Seq<(Seq<char>, Multiset<u64>)>,
    },
}

impl DeepView for Aggregate {
    type V = AggregateModel;

    open spec fn deep_view(&self) -> AggregateModel {
        match self {
            Aggregate::Counter { total, per_second, by_label } => AggregateModel::Counter {
                total: *total,
                per_second: per_second@,
                by_label: by_label@,
            },
            Aggregate::Gauge { last, per_second, by_label } => AggregateModel::Gauge {
                last: *last,
                per_second: per_second@,
                by_label: by_label@,
            },
            Aggregate::Histogram { all, current_window, windows, by_label } => AggregateModel::Histogram {
                all: all@,
                current_window: current_window@,
                windows: windows@,
                by_label: by_label@,
            },
        }
    }
}

/// The kind of metric that an aggregate is for.
pub open spec fn aggregate_kind(a: AggregateModel) -> MetricKind {
    match a {
        AggregateModel::Counter { .. } => MetricKind::Counter,
        AggregateModel::Gauge { .. } => MetricKind::Gauge,
        AggregateModel::Histogram { .. } => MetricKind::Histogram,
    }
}

/// The breakdown of an aggregate is in key order.
pub open spec fn aggregate_in_order(a: AggregateModel) -> bool {
    match a {
        AggregateModel::Counter { by_label, .. } => in_order(by_label),
        AggregateModel::Gauge { by_label, .. } => in_order(by_label),
        AggregateModel::Histogram { by_label, .. } => in_order(by_label),
    }
}

/// The aggregate before anything is recorded: one open bucket.
pub open spec fn fresh_aggregate(kind: MetricKind) -> AggregateModel {
    match kind {
        MetricKind::Counter => AggregateModel::Counter {
            total: zero(false),
            per_second: seq![zero(false)],
            by_label: Seq::empty(),
        },
        MetricKind::Gauge => AggregateModel::Gauge {
            last: not_a_number(),
            per_second: seq![None],
            by_label: Seq::empty(),
        },
        MetricKind::Histogram => AggregateModel::Histogram {
            all: Multiset::empty(),
            current_window: Multiset::empty(),
            windows: Seq::empty(),
            by_label: Seq::empty(),
        },
    }
}

/// The sum under a key, raised by `v`; a key without a sum starts from zero.
pub open spec fn raised(m: Seq<(Seq<char>, Number)>, k: Seq<char>, v: Number) -> Seq<(Seq<char>, Number)> {
    store(
        m,
        k,
        (match lookup(m, k) {
            Some(x) => x,
            None => zero(false),
        }).plus(v),
    )
}

fn raise(m: &mut SortedMap<Number>, k: String, v: Number)
    ensures
        final(m)@ == raised(old(m)@, k@, v),
{
    let sum: Number = match m.get(k.as_str()) {
        Some(x) => x.add(v),
        None => (Number { bits: 0 }).add(v),
    };
    m.put(k, sum);
}

/// The histogram under a key with one more value; a key without a histogram starts empty.
pub open spec fn hit(m: Seq<(Seq<char>, Multiset<u64>)>, k: Seq<char>, v: u64) -> Seq<(Seq<char>, Multiset<u64>)> {
    store(
        m,
        k,
        hist_with(
            match lookup(m, k) {
                Some(x) => x,
                None => Multiset::empty(),
            },
            v,
        ),
    )
}

fn hit_key(m: &mut SortedMap<Hist>, k: String, v: u64)
    requires
        HIST_MIN <= v <= HIST_MAX,
    ensures
        final(m)@ == hit(old(m)@, k@, v),
{
    let (i, there): (usize, bool) = m.place(k.as_str());
    if there {
        let h = m.value_mut(i);
        h.record(v);
    } else {
        let mut h = Hist::new();
        h.record(v);
        m.put(k, h);
    }
}

/// The samples under a key; a key without samples has none.
pub open spec fn samples_under(m: Seq<(Seq<char>, Seq<(u64, Number)>)>, k: Seq<char>) -> Seq<(u64, Number)> {
    match lookup(m, k) {
        Some(points) => points,
        None => Seq::empty(),
    }
}

/// The samples under a key with one more.
pub open spec fn sampled(m: Seq<(Seq<char>, Seq<(u64, Number)>)>, k: Seq<char>, second: u64, v: Number) -> Seq<
    (Seq<char>, Seq<(u64, Number)>),
> {
    store(m, k, samples_under(m, k).push((second, v)))
}

pub(crate) fn sample(m: &mut SortedMap<Vec<(u64, Number)>>, k: String, second: u64, v: Number)
    ensures
        final(m)@ == sampled(old(m)@, k@, second, v),
{
    let (i, there): (usize, bool) = m.place(k.as_str());
    if there {
        let points = m.value_mut(i);
        let ghost before = points.deep_view();
        points.push((second, v));
        assert(points.deep_view() =~= before.push((second, v)));
    } else {
        let mut points: Vec<(u64, Number)> = Vec::new();
        points.push((second, v));
        assert(points.deep_view() =~= Seq::<(u64, Number)>::empty().push((second, v)));
        m.put(k, points);
    }
}

/// A sequence with its last item replaced.
pub open spec fn with_last<T>(s: Seq<T>, x: T) -> Seq<T> {
    if s.len() == 0 {
        s
    } else {
        s.update(s.len() - 1, x)
    }
}

/// One observation added to an aggregate.
pub open spec fn recorded(a: AggregateModel, v: Number, labels: LabelsModel) -> AggregateModel {
    match a {
        AggregateModel::Counter { total, per_second, by_label } => AggregateModel::Counter {
            total: total.plus(v),
            per_second: with_last(per_second, per_second.last().plus(v)),
            by_label: match label_key_spec(labels) {
                Some(k) => raised(by_label, k, v),
                None => by_label,
            },
        },
        AggregateModel::Gauge { last, per_second, by_label } => AggregateModel::Gauge {
            last: v,
            per_second: with_last(per_second, Some(v)),
            by_label: match label_key_spec(labels) {
                Some(k) => store(by_label, k, v),
                None => by_label,
            },
        },
        AggregateModel::Histogram { all, current_window, windows, by_label } => AggregateModel::Histogram {
            all: hist_with(all, hist_units(v)),
            current_window: hist_with(current_window, hist_units(v)),
            windows,
            by_label: match label_key_spec(labels) {
                Some(k) => hit(by_label, k, hist_units(v)),
                None => by_label,
            },
        },
    }
}

/// The chart point of a closed second that held `c`.
pub open spec fn window_point(second: u64, c: Multiset<u64>) -> WindowPoint {
    let p = percentiles_of(c);
    WindowPoint { second, count: p.count, p50: p.p50, p95: p.p95, p99: p.p99 }
}

/// The current one-second bucket closed and the next one opened.
pub open spec fn rolled(a: AggregateModel, closing_second: u64) -> AggregateModel {
    match a {
        AggregateModel::Counter { total, per_second, by_label } => AggregateModel::Counter {
            total,
            per_second: per_second.push(zero(false)),
            by_label,
        },
        AggregateModel::Gauge { last, per_second, by_label } => AggregateModel::Gauge {
            last,
            per_second: per_second.push(if last.nan() { None } else { Some(last) }),
            by_label,
        },
        AggregateModel::Histogram { all, current_window, windows, by_label } => AggregateModel::Histogram {
            all,
            current_window: Multiset::empty(),
            windows: if current_window.len() == 0 {
                windows
            } else {
                windows.push(window_point(closing_second, current_window))
            },
            by_label,
        },
    }
}

#[derive(Debug)]
pub struct Metric {
    pub spec: MetricSpec,
    pub aggregate: Aggregate,
}

pub struct MetricModel {
    pub spec: MetricSpecModel,
    pub aggregate: AggregateModel,
}

impl DeepView for Metric {
    type V = MetricModel;

    open spec fn deep_view(&self) -> MetricModel {
        MetricModel { spec: self.spec.deep_view(), aggregate: self.aggregate.deep_view() }
    }
}

impl Metric {
    pub fn new(spec: MetricSpec) -> (r: Metric)
        ensures
            r.deep_view() == (MetricModel { spec: spec.deep_view(), aggregate: fresh_aggregate(spec.kind) }),
    {
        let aggregate = match spec.kind {
            MetricKind::Counter => {
                let mut per_second: Vec<Number> = Vec::new();
                per_second.push(Number { bits: 0 });
                assert(per_second@ =~= seq![zero(false)]);
                Aggregate::Counter { total: Number { bits: 0 }, per_second, by_label: SortedMap::new() }
            },
            MetricKind::Gauge => {
                let mut per_second: Vec<Option<Number>> = Vec::new();
                per_second.push(None);
                assert(per_second@ =~= seq![None]);
                Aggregate::Gauge { last: Number { bits: QUIET }, per_second, by_label: SortedMap::new() }
            },
            MetricKind::Histogram => Aggregate::Histogram {
                all: Hist::new(),
                current_window: Hist::new(),
                windows: Vec::new(),
                by_label: SortedMap::new(),
            },
        };
        Metric { spec, aggregate }
    }

    pub fn record(&mut self, value: Number, labels: &Labels)
        ensures
            final(self).deep_view() == (MetricModel {
                spec: old(self).deep_view().spec,
                aggregate: recorded(old(self).deep_view().aggregate, value, labels@),
            }),
    {
        let key = label_key(labels);
        match &mut self.aggregate {
            Aggregate::Counter { total, per_second, by_label } => {
                *total = total.add(value);
                let n: usize = per_second.len();
                if n > 0 {
                    let sum: Number = per_second[n - 1].add(value);
                    per_second.set(n - 1, sum);
                }
                if let Some(k) = key {
                    raise(by_label, k, value);
                }
            },
            Aggregate::Gauge { last, per_second, by_label } => {
                *last = value;
                let n: usize = per_second.len();
                if n > 0 {
                    per_second.set(n - 1, Some(value));
                }
                if let Some(k) = key {
                    by_label.put(k, value);
                }
            },
            Aggregate::Histogram { all, current_window, windows: _, by_label } => {
                let v: u64 = to_hist_units(value);
                all.record(v);
                current_window.record(v);
                if let Some(k) = key {
                    hit_key(by_label, k, v);
                }
            },
        }
    }

    /// Close the current one-second bucket and open the next.
    pub fn roll(&mut self, closing_second: u64)
        ensures
            final(self).deep_view() == (MetricModel {
                spec: old(self).deep_view().spec,
                aggregate: rolled(old(self).deep_view().aggregate, closing_second),
            }),
    {
        match &mut self.aggregate {
            Aggregate::Counter { total: _, per_second, by_label: _ } => {
                per_second.push(Number { bits: 0 });
            },
            Aggregate::Gauge { last, per_second, by_label: _ } => {
                if last.is_nan() {
                    per_second.push(None);
                } else {
                    per_second.push(Some(*last));
                }
            },
            Aggregate::Histogram { all: _, current_window, windows, by_label: _ } => {
                if !current_window.is_empty() {
                    let p = Percentiles::of_histogram(current_window);
                    windows.push(
                        WindowPoint { second: closing_second, count: p.count, p50: p.p50, p95: p.p95, p99: p.p99 },
                    );
                }
                current_window.reset();
            },
        }
    }

    /// The percentiles of a histogram metric.
    pub fn percentiles(&self) -> (r: Option<Percentiles>)
        ensures
            r == metric_percentiles(self.deep_view().aggregate),
            match self.deep_view().aggregate {
                AggregateModel::Histogram { all, .. } => r is Some && rising(r->0) && (all.len() > 0 ==> ranked(all)
                    && shared_out(all)),
                _ => r is None,
            },
    {
        match &self.aggregate {
            Aggregate::Histogram { all, .. } => Some(Percentiles::of_histogram(all)),
            _ => None,
        }
    }
}

pub open spec fn metric_percentiles(a: AggregateModel) -> Option<Percentiles> {
    match a {
        AggregateModel::Histogram { all, .. } => Some(percentiles_of(all)),
        _ => None,
    }
}

/// The sum of some numbers, added one after the other from negative zero.
pub open spec fn total_of(s: Seq<Number>) -> Number
    decreases s.len(),
{
    if s.len() == 0 {
        zero(true)
    } else {
        total_of(s.drop_last()).plus(s.last())
    }
}

/// The closed buckets that a rate is taken over: up to five, the latest first.
pub open spec fn recent_buckets(per_second: Seq<Number>) -> Seq<Number> {
    let closed = if per_second.len() < 2 {
        0
    } else {
        per_second.len() - 1
    };
    Seq::new((if closed < 5 { closed } else { 5 }) as nat, |i: int| per_second[per_second.len() - 2 - i])
}

/// The mean of the recent closed buckets.
pub open spec fn recent_rate(per_second: Seq<Number>) -> Number {
    let recent = recent_buckets(per_second);
    total_of(recent).over(of_nat(if recent.len() == 0 { 1 } else { recent.len() }))
}

pub open spec fn or_empty(s: Option<Seq<char>>) -> Seq<char> {
    match s {
        Some(x) => x,
        None => ""@,
    }
}

/// The string, or the empty one where there is none.
pub fn or_blank(s: &Option<String>) -> (r: &str)
    ensures
        r@ == or_empty(s.deep_view()),
{
    match s {
        Some(x) => x.as_str(),
        None => "",
    }
}

pub open spec fn headline_ink(m: MetricModel) -> Seq<Glyph> {
    match m.aggregate {
        AggregateModel::Counter { total, per_second, .. } => num_ink(total) + ink(" total  "@) + seq![
            Glyph::Fixed(recent_rate(per_second), 1),
        ] + ink("/s"@),
        AggregateModel::Gauge { last, .. } => num_ink(last),
        AggregateModel::Histogram { all, .. } => if all.len() == 0 {
            ink("n=0"@)
        } else {
            let p = percentiles_of(all);
            let unit = ink(or_empty(m.spec.unit));
            ink("n="@) + count_ink(p.count) + ink("  p50 "@) + num_ink(p.p50) + unit + ink("  p95 "@) + num_ink(p.p95)
                + unit
        },
    }
}

impl Metric {
    /// Headline number for list views: total, last value, or p95.
    pub fn headline(&self) -> (r: Doc)
        ensures
            r@ == headline_ink(self.deep_view()),
    {
        match &self.aggregate {
            Aggregate::Counter { total, per_second, .. } => {
                let rate: Number = mean_recent(per_second);
                let mut out = fmt_num(*total);
                out.text(" total  ");
                out.fixed(rate, 1);
                out.text("/s");
                out
            },
            Aggregate::Gauge { last, .. } => {
                if last.is_nan() {
                    Doc::of("-")
                } else {
                    fmt_num(*last)
                }
            },
            Aggregate::Histogram { all, .. } => {
                if all.is_empty() {
                    Doc::of("n=0")
                } else {
                    let p = Percentiles::of_histogram(all);
                    let unit = or_blank(&self.spec.unit);
                    let mut out = Doc::of("n=");
                    out.count(p.count);
                    out.text("  p50 ");
                    out.append(&fmt_num(p.p50));
                    out.text(unit);
                    out.text("  p95 ");
                    out.append(&fmt_num(p.p95));
                    out.text(unit);
                    out
                }
            },
        }
    }
}

fn mean_recent(per_second: &Vec<Number>) -> (r: Number)
    ensures
        r == recent_rate(per_second@),
{
    let n: usize = per_second.len();
    let closed: usize = if n < 2 { 0 } else { n - 1 };
    let taken: usize = if closed < 5 { closed } else { 5 };
    let ghost recent = recent_buckets(per_second@);
    let mut sum: Number = Number { bits: SIGN };
    let mut i: usize = 0;
    while i < taken
        invariant
            i <= taken,
            taken == recent.len(),
            n == per_second@.len(),
            taken > 0 ==> n >= 2 && taken <= n - 1,
            recent == recent_buckets(per_second@),
            sum == total_of(recent.take(i as int)),
        decreases taken - i,
    {
        sum = sum.add(per_second[n - 2 - i]);
        proof {
            assert(recent.take(i + 1).drop_last() =~= recent.take(i as int));
        }
        i = i + 1;
    }
    assert(recent.take(i as int) =~= recent);
    sum.div(Number::of(if taken == 0 { 1 } else { taken as u128 }))
}

/// Shape of a gauge over a phase. `slope` is the least-squares trend in units per second:
/// positive on a queue means the consumer is not keeping up.
#[derive(Clone, Copy, Debug, PartialEq, Eq, Structural)]
pub struct GaugeStats {
    pub samples: u64,
    pub last: Number,
    pub max: Number,
    pub mean: Number,
    pub slope: Number,
}

impl DeepView for GaugeStats {
    type V = GaugeStats;

    open spec fn deep_view(&self) -> GaugeStats {
        *self
    }
}

impl Duplicate for GaugeStats {
    fn duplicate(&self) -> (r: Self) {
        *self
    }
}

/// The least finite number.
pub const LOWEST: u64 = 0xffef_ffff_ffff_ffff;

pub open spec fn xs_of(points: Seq<(u64, Number)>) -> Seq<Number> {
    Seq::new(points.len(), |i: int| of_nat(points[i].0 as nat))
}

pub open spec fn ys_of(points: Seq<(u64, Number)>) -> Seq<Number> {
    Seq::new(points.len(), |i: int| points[i].1)
}

pub open spec fn mean_number(s: Seq<Number>) -> Number {
    total_of(s).over(of_nat(s.len()))
}

/// The squared distances of the seconds from their mean.
pub open spec fn spreads(points: Seq<(u64, Number)>, mean_x: Number) -> Seq<Number> {
    Seq::new(
        points.len(),
        |i: int| of_nat(points[i].0 as nat).minus(mean_x).times(of_nat(points[i].0 as nat).minus(mean_x)),
    )
}

/// The products of the distances of seconds and values from their means.
pub open spec fn products(points: Seq<(u64, Number)>, mean_x: Number, mean_y: Number) -> Seq<Number> {
    Seq::new(
        points.len(),
        |i: int| of_nat(points[i].0 as nat).minus(mean_x).times(points[i].1.minus(mean_y)),
    )
}

pub open spec fn greatest_of(s: Seq<Number>) -> Number
    decreases s.len(),
{
    if s.len() == 0 {
        Number { bits: LOWEST }
    } else {
        greatest_of(s.drop_last()).greater(s.last())
    }
}

pub open spec fn gauge_stats(points: Seq<(u64, Number)>) -> GaugeStats {
    if points.len() == 0 {
        GaugeStats { samples: 0, last: zero(false), max: zero(false), mean: zero(false), slope: zero(false) }
    } else {
        let mean_x = mean_number(xs_of(points));
        let mean_y = mean_number(ys_of(points));
        let var_x = total_of(spreads(points, mean_x));
        let cov = total_of(products(points, mean_x, mean_y));
        GaugeStats {
            samples: points.len() as u64,
            last: points.last().1,
            max: greatest_of(ys_of(points)),
            mean: mean_y,
            slope: if zero(false).below(var_x) {
                cov.over(var_x)
            } else {
                zero(false)
            },
        }
    }
}

impl GaugeStats {
    pub fn of(points: &[(u64, Number)]) -> (r: GaugeStats)
        ensures
            r == gauge_stats(points@),
    {
        let len: usize = points.len();
        let none = Number { bits: 0 };
        if len == 0 {
            return GaugeStats { samples: 0, last: none, max: none, mean: none, slope: none };
        }
        let n: Number = Number::of(len as u128);
        let ghost xs = xs_of(points@);
        let ghost ys = ys_of(points@);
        let mut sum_x: Number = Number { bits: SIGN };
        let mut sum_y: Number = Number { bits: SIGN };
        let mut max: Number = Number { bits: LOWEST };
        let mut i: usize = 0;
        while i < len
            invariant
                i <= len == points@.len(),
                xs == xs_of(points@),
                ys == ys_of(points@),
                sum_x == total_of(xs.take(i as int)),
                sum_y == total_of(ys.take(i as int)),
                max == greatest_of(ys.take(i as int)),
            decreases len - i,
        {
            sum_x = sum_x.add(Number::of(points[i].0 as u128));
            sum_y = sum_y.add(points[i].1);
            max = max.max(points[i].1);
            proof {
                assert(xs.take(i + 1).drop_last() =~= xs.take(i as int));
                assert(ys.take(i + 1).drop_last() =~= ys.take(i as int));
            }
            i = i + 1;
        }
        assert(xs.take(i as int) =~= xs && ys.take(i as int) =~= ys);
        let mean_x: Number = sum_x.div(n);
        let mean_y: Number = sum_y.div(n);
        let ghost vs = spreads(points@, mean_x);
        let ghost cs = products(points@, mean_x, mean_y);
        let mut var_x: Number = Number { bits: SIGN };
        let mut cov: Number = Number { bits: SIGN };
        let mut j: usize = 0;
        while j < len
            invariant
                j <= len == points@.len(),
                vs == spreads(points@, mean_x),
                cs == products(points@, mean_x, mean_y),
                var_x == total_of(vs.take(j as int)),
                cov == total_of(cs.take(j as int)),
            decreases len - j,
        {
            let dx: Number = Number::of(points[j].0 as u128).sub(mean_x);
            var_x = var_x.add(dx.mul(dx));
            cov = cov.add(dx.mul(points[j].1.sub(mean_y)));
            proof {
                assert(vs.take(j + 1).drop_last() =~= vs.take(j as int));
                assert(cs.take(j + 1).drop_last() =~= cs.take(j as int));
            }
            j = j + 1;
        }
        assert(vs.take(j as int) =~= vs && cs.take(j as int) =~= cs);
        GaugeStats {
            samples: len as u64,
            last: points[len - 1].1,
            max,
            mean: mean_y,
            slope: if none.lt(var_x) { cov.div(var_x) } else { none },
        }
    }
}

/// Everything recorded during one named phase, for the end-of-run comparison table.
#[derive(Debug)]
pub struct PhaseSummary {
    pub name: String,
    pub start_second: u64,
    pub end_second: Option<u64>,
    pub counters: SortedMap<Number>,
    pub counter_labels: SortedMap<SortedMap<Number>>,
    pub histograms: SortedMap<Percentiles>,
    pub gauges: SortedMap<GaugeStats>,
}

#[verifier::ext_equal]
pub struct PhaseSummaryModel {
    pub name: Seq<char>,
    pub start_second: u64,
    pub end_second: Option<u64>,
    pub counters: Seq<(Seq<char>, Number)>,
    pub counter_labels: Seq<(Seq<char>, Seq<(Seq<char>, Number)>)>,
    pub histograms: Seq<(Seq<char>, Percentiles)>,
    pub gauges: Seq<(Seq<char>, GaugeStats)>,
}

impl DeepView for PhaseSummary {
    type V = PhaseSummaryModel;

    open spec fn deep_view(&self) -> PhaseSummaryModel {
        PhaseSummaryModel {
            name: self.name@,
            start_second: self.start_second,
            end_second: self.end_second,
            counters: self.counters@,
            counter_labels: self.counter_labels@,
            histograms: self.histograms@,
            gauges: self.gauges@,
        }
    }
}

/// The length of a phase in seconds, at least one; an open phase lasts until now.
pub open spec fn phase_seconds(p: PhaseSummaryModel, now_second: u64) -> u64 {
    let end = match p.end_second {
        Some(e) => e,
        None => now_second,
    };
    if end > p.start_second {
        (end - p.start_second) as u64
    } else {
        1
    }
}

impl PhaseSummary {
    pub fn duration_seconds(&self, now_second: u64) -> (r: u64)
        ensures
            r == phase_seconds(self.deep_view(), now_second),
            r >= 1,
    {
        let end: u64 = match self.end_second {
            Some(e) => e,
            None => now_second,
        };
        if end > self.start_second {
            end - self.start_second
        } else {
            1
        }
    }
}

/// A phase as it is being recorded.
#[derive(Debug)]
pub struct PhaseState {
    pub name: String,
    pub start_second: u64,
    pub counters: SortedMap<Number>,
    pub counter_labels: SortedMap<SortedMap<Number>>,
    pub histograms: SortedMap<Hist>,
    pub gauges: SortedMap<Vec<(u64, Number)>>,
}

#[verifier::ext_equal]
pub struct PhaseModel {
    pub name: Seq<char>,
    pub start_second: u64,
    pub counters: Seq<(Seq<char>, Number)>,
    pub counter_labels: Seq<(Seq<char>, Seq<(Seq<char>, Number)>)>,
    pub histograms: Seq<(Seq<char>, Multiset<u64>)>,
    pub gauges: Seq<(Seq<char>, Seq<(u64, Number)>)>,
}

impl DeepView for PhaseState {
    type V = PhaseModel;

    open spec fn deep_view(&self) -> PhaseModel {
        PhaseModel {
            name: self.name@,
            start_second: self.start_second,
            counters: self.counters@,
            counter_labels: self.counter_labels@,
            histograms: self.histograms@,
            gauges: self.gauges@,
        }
    }
}

/// The maps of a phase are in key order.
pub open spec fn phase_in_order(p: PhaseModel) -> bool {
    &&& in_order(p.counters)
    &&& in_order(p.counter_labels)
    &&& forall|i: int| 0 <= i < p.counter_labels.len() ==> in_order((#[trigger] p.counter_labels[i]).1)
    &&& in_order(p.histograms)
    &&& in_order(p.gauges)
}

/// A phase with nothing recorded yet.
pub open spec fn fresh_phase(name: Seq<char>, second: u64) -> PhaseModel {
    PhaseModel {
        name,
        start_second: second,
        counters: Seq::empty(),
        counter_labels: Seq::empty(),
        histograms: Seq::empty(),
        gauges: Seq::empty(),
    }
}

/// One observation of a metric of the given kind added to a phase.
pub open spec fn phase_recorded(p: PhaseModel, kind: MetricKind, o: ObservationModel, second: u64) -> PhaseModel {
    match kind {
        MetricKind::Counter => PhaseModel {
            counters: raised(p.counters, o.metric, o.value),
            counter_labels: match label_key_spec(o.labels) {
                Some(k) => store(
                    p.counter_labels,
                    o.metric,
                    raised(
                        match lookup(p.counter_labels, o.metric) {
                            Some(m) => m,
                            None => Seq::empty(),
                        },
                        k,
                        o.value,
                    ),
                ),
                None => p.counter_labels,
            },
            ..p
        },
        MetricKind::Histogram => PhaseModel { histograms: hit(p.histograms, o.metric, hist_units(o.value)), ..p },
        MetricKind::Gauge => PhaseModel { gauges: sampled(p.gauges, o.metric, second, o.value), ..p },
    }
}

/// What a phase comes to.
pub open spec fn phase_summary(p: PhaseModel, end_second: Option<u64>) -> PhaseSummaryModel {
    PhaseSummaryModel {
        name: p.name,
        start_second: p.start_second,
        end_second,
        counters: p.counters,
        counter_labels: p.counter_labels,
        histograms: Seq::new(p.histograms.len(), |i: int| (p.histograms[i].0, percentiles_of(p.histograms[i].1))),
        gauges: Seq::new(p.gauges.len(), |i: int| (p.gauges[i].0, gauge_stats(p.gauges[i].1))),
    }
}

impl PhaseState {
    pub fn new(name: &str, second: u64) -> (r: PhaseState)
        ensures
            r.deep_view() == fresh_phase(name@, second),
    {
        PhaseState {
            name: name.to_owned(),
            start_second: second,
            counters: SortedMap::new(),
            counter_labels: SortedMap::new(),
            histograms: SortedMap::new(),
            gauges: SortedMap::new(),
        }
    }

    pub fn record(&mut self, kind: MetricKind, obs: &Observation, second: u64)
        ensures
            final(self).deep_view() == phase_recorded(old(self).deep_view(), kind, obs.deep_view(), second),
    {
        match kind {
            MetricKind::Counter => {
                raise(&mut self.counters, obs.metric.clone(), obs.value);
                if let Some(k) = label_key(&obs.labels) {
                    let (i, there): (usize, bool) = self.counter_labels.place(obs.metric.as_str());
                    if there {
                        raise(self.counter_labels.value_mut(i), k, obs.value);
                    } else {
                        let mut m: SortedMap<Number> = SortedMap::new();
                        raise(&mut m, k, obs.value);
                        self.counter_labels.put(obs.metric.clone(), m);
                    }
                }
            },
            MetricKind::Histogram => {
                hit_key(&mut self.histograms, obs.metric.clone(), to_hist_units(obs.value));
            },
            MetricKind::Gauge => {
                sample(&mut self.gauges, obs.metric.clone(), second, obs.value);
            },
        }
    }

    pub fn summary(&self, end_second: Option<u64>) -> (r: PhaseSummary)
        ensures
            r.deep_view() == phase_summary(self.deep_view(), end_second),
    {
        let mut percentiles: Vec<Percentiles> = Vec::new();
        let mut i: usize = 0;
        while i < self.histograms.len()
            invariant
                i <= self.histograms@.len(),
                percentiles@.len() == i,
                forall|j: int| 0 <= j < i ==> #[trigger] percentiles@[j] == percentiles_of(self.histograms@[j].1),
            decreases self.histograms@.len() - i,
        {
            percentiles.push(Percentiles::of_histogram(self.histograms.value(i)));
            i = i + 1;
        }
        let mut stats: Vec<GaugeStats> = Vec::new();
        let mut k: usize = 0;
        while k < self.gauges.len()
            invariant
                k <= self.gauges@.len(),
                stats@.len() == k,
                forall|j: int| 0 <= j < k ==> #[trigger] stats@[j] == gauge_stats(self.gauges@[j].1),
            decreases self.gauges@.len() - k,
        {
            let points = self.gauges.value(k);
            assert(points.deep_view() =~= points@);
            stats.push(GaugeStats::of(points.as_slice()));
            k = k + 1;
        }
        let r = PhaseSummary {
            name: self.name.clone(),
            start_second: self.start_second,
            end_second,
            counters: self.counters.duplicate(),
            counter_labels: self.counter_labels.duplicate(),
            histograms: self.histograms.with_values(percentiles),
            gauges: self.gauges.with_values(stats),
        };
        assert(r.deep_view() =~= phase_summary(self.deep_view(), end_second));
        r
    }
}

} // verus!
