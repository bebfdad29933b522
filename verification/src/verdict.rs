//! Thresholds turn recorded numbers into pass/fail, and phases into a ceiling:
//! the last phase in which every applicable threshold held.

use vstd::prelude::*;
use crate::metrics::{phase_seconds, GaugeStats, Percentiles, PhaseSummary, PhaseSummaryModel};
use crate::number::{of_nat, zero, Number};
use crate::protocol::{join_labels, joined_labels, Labels, LabelsModel};
use crate::rows::{row_key, row_of};
use crate::sorted::{lookup, Duplicate};
use crate::text::{begins, starts_with};

verus! {

#[derive(Clone, Copy, Debug, PartialEq, Eq, Structural)]
pub enum Stat {
    // histogram
    P50,
    P90,
    P95,
    P99,
    Max,
    Mean,
    Count,
    // counter
    Total,
    /// counter total ÷ phase seconds
    Rate,
    /// labelled counter total ÷ unlabelled total (needs `labels`)
    Share,
    // gauge
    Last,
    /// gauge trend in units/s over the phase; > 0 on a queue means the consumer is losing
    Slope,
}

/// The name of a statistic, as configs and reports write it.
pub open spec fn stat_name(stat: Stat) -> Seq<char> {
    match stat {
        Stat::P50 => "p50"@,
        Stat::P90 => "p90"@,
        Stat::P95 => "p95"@,
        Stat::P99 => "p99"@,
        Stat::Max => "max"@,
        Stat::Mean => "mean"@,
        Stat::Count => "count"@,
        Stat::Total => "total"@,
        Stat::Rate => "rate"@,
        Stat::Share => "share"@,
        Stat::Last => "last"@,
        Stat::Slope => "slope"@,
    }
}

impl Stat {
    pub fn name(self) -> (r: &'static str)
        ensures
            r@ == stat_name(self),
    {
        match self {
            Stat::P50 => "p50",
            Stat::P90 => "p90",
            Stat::P95 => "p95",
            Stat::P99 => "p99",
            Stat::Max => "max",
            Stat::Mean => "mean",
            Stat::Count => "count",
            Stat::Total => "total",
            Stat::Rate => "rate",
            Stat::Share => "share",
            Stat::Last => "last",
            Stat::Slope => "slope",
        }
    }
}

/// An end of the range in which a value passes, with the text that writes it.
#[derive(Clone, Debug)]
pub struct Bound {
    pub at: Number,
    pub text: String,
}

pub struct BoundModel {
    pub at: Number,
    pub text: Seq<char>,
}

impl DeepView for Bound {
    type V = BoundModel;

    open spec fn deep_view(&self) -> BoundModel {
        BoundModel { at: self.at, text: self.text@ }
    }
}

impl Duplicate for Bound {
    fn duplicate(&self) -> (r: Self) {
        Bound { at: self.at, text: self.text.clone() }
    }
}

#[derive(Clone, Debug)]
pub struct Threshold {
    pub metric: String,
    pub stat: Stat,
    pub labels: Labels,
    pub min: Option<Bound>,
    pub max: Option<Bound>,
    /// Phases whose name starts with any of these are setup, not load; they are never judged.
    pub skip_phases: Vec<String>,
}

pub struct ThresholdModel {
    pub metric: Seq<char>,
    pub stat: Stat,
    pub labels: LabelsModel,
    pub min: Option<BoundModel>,
    pub max: Option<BoundModel>,
    pub skip_phases: Seq<Seq<char>>,
}

impl DeepView for Threshold {
    type V = ThresholdModel;

    open spec fn deep_view(&self) -> ThresholdModel {
        ThresholdModel {
            metric: self.metric@,
            stat: self.stat,
            labels: self.labels@,
            min: self.min.deep_view(),
            max: self.max.deep_view(),
            skip_phases: self.skip_phases.deep_view(),
        }
    }
}

impl Duplicate for Threshold {
    fn duplicate(&self) -> (r: Self) {
        Threshold {
            metric: self.metric.clone(),
            stat: self.stat,
            labels: self.labels.duplicate(),
            min: self.min.duplicate(),
            max: self.max.duplicate(),
            skip_phases: self.skip_phases.duplicate(),
        }
    }
}

/// The range of a threshold in words.
pub open spec fn bound_text(min: Option<BoundModel>, max: Option<BoundModel>) -> Seq<char> {
    match (min, max) {
        (Some(lo), Some(hi)) => lo.text + " ≤ · ≤ "@ + hi.text,
        (Some(lo), None) => "≥ "@ + lo.text,
        (None, Some(hi)) => "≤ "@ + hi.text,
        (None, None) => "(no bound)"@,
    }
}

/// A threshold in words: metric, labels, statistic and range.
pub open spec fn rule_text(t: ThresholdModel) -> Seq<char> {
    let labels = if t.labels.len() == 0 {
        ""@
    } else {
        "{"@ + joined_labels(t.labels, ","@) + "}"@
    };
    t.metric + labels + "."@ + stat_name(t.stat) + " "@ + bound_text(t.min, t.max)
}

impl Threshold {
    pub fn describe(&self) -> (r: String)
        ensures
            r@ == rule_text(self.deep_view()),
    {
        let labels = if self.labels.is_empty() {
            "".to_owned()
        } else {
            let mut s = "{".to_owned();
            s.append(join_labels(&self.labels, ",").as_str());
            s.append("}");
            s
        };
        let bound = match (&self.min, &self.max) {
            (Some(lo), Some(hi)) => {
                let mut s = lo.text.clone();
                s.append(" ≤ · ≤ ");
                s.append(hi.text.as_str());
                s
            },
            (Some(lo), None) => {
                let mut s = "≥ ".to_owned();
                s.append(lo.text.as_str());
                s
            },
            (None, Some(hi)) => {
                let mut s = "≤ ".to_owned();
                s.append(hi.text.as_str());
                s
            },
            (None, None) => "(no bound)".to_owned(),
        };
        let mut out = self.metric.clone();
        out.append(labels.as_str());
        out.append(".");
        out.append(self.stat.name());
        out.append(" ");
        out.append(bound.as_str());
        out
    }
}

#[derive(Clone, Debug)]
pub struct Check {
    pub rule: String,
    /// None when the phase has no data for the metric: not judged.
    pub value: Option<Number>,
    pub pass: bool,
}

pub struct CheckModel {
    pub rule: Seq<char>,
    pub value: Option<Number>,
    pub pass: bool,
}

impl DeepView for Check {
    type V = CheckModel;

    open spec fn deep_view(&self) -> CheckModel {
        CheckModel { rule: self.rule@, value: self.value, pass: self.pass }
    }
}

#[derive(Clone, Debug)]
pub struct PhaseVerdict {
    pub phase: String,
    pub checks: Vec<Check>,
    /// Some(false) if any applicable check failed, Some(true) if all applicable passed, None if nothing applied.
    pub pass: Option<bool>,
}

#[verifier::ext_equal]
pub struct PhaseVerdictModel {
    pub phase: Seq<char>,
    pub checks: Seq<CheckModel>,
    pub pass: Option<bool>,
}

impl DeepView for PhaseVerdict {
    type V = PhaseVerdictModel;

    open spec fn deep_view(&self) -> PhaseVerdictModel {
        PhaseVerdictModel { phase: self.phase@, checks: self.checks.deep_view(), pass: self.pass }
    }
}

#[derive(Clone, Debug)]
pub struct Verdicts {
    pub overall: Option<PhaseVerdict>,
    pub phases: Vec<PhaseVerdict>,
    /// Last judged phase where everything passed.
    pub ceiling: Option<String>,
    /// First judged phase where something failed.
    pub first_failure: Option<String>,
}

#[verifier::ext_equal]
pub struct VerdictsModel {
    pub overall: Option<PhaseVerdictModel>,
    pub phases: Seq<PhaseVerdictModel>,
    pub ceiling: Option<Seq<char>>,
    pub first_failure: Option<Seq<char>>,
}

impl DeepView for Verdicts {
    type V = VerdictsModel;

    open spec fn deep_view(&self) -> VerdictsModel {
        VerdictsModel {
            overall: self.overall.deep_view(),
            phases: self.phases.deep_view(),
            ceiling: self.ceiling.deep_view(),
            first_failure: self.first_failure.deep_view(),
        }
    }
}

/// Verdicts of a run that has no thresholds.
pub open spec fn no_verdicts() -> VerdictsModel {
    VerdictsModel { overall: None, phases: Seq::empty(), ceiling: None, first_failure: None }
}

impl Default for Verdicts {
    fn default() -> (r: Self)
        ensures
            r.deep_view() == no_verdicts(),
    {
        let r = Verdicts { overall: None, phases: Vec::new(), ceiling: None, first_failure: None };
        assert(r.phases.deep_view() =~= Seq::<PhaseVerdictModel>::empty());
        r
    }
}

/// A statistic of a histogram.
pub open spec fn hist_stat(stat: Stat, h: Percentiles) -> Number {
    match stat {
        Stat::P50 => h.p50,
        Stat::P90 => h.p90,
        Stat::P95 => h.p95,
        Stat::P99 => h.p99,
        Stat::Max => h.max,
        Stat::Mean => h.mean,
        _ => of_nat(h.count as nat),
    }
}

/// A statistic that histograms and gauges share, of a gauge.
pub open spec fn gauge_stat(stat: Stat, g: GaugeStats) -> Option<Number> {
    match stat {
        Stat::Max => Some(g.max),
        Stat::Mean => Some(g.mean),
        Stat::Count => Some(of_nat(g.samples as nat)),
        _ => None,
    }
}

/// A gauge that was sampled at least once.
pub open spec fn sampled_gauge(p: PhaseSummaryModel, metric: Seq<char>) -> Option<GaugeStats> {
    match lookup(p.gauges, metric) {
        Some(g) => if g.samples > 0 {
            Some(g)
        } else {
            None
        },
        None => None,
    }
}

/// The part of a counter that was reported under some labels.
pub open spec fn labelled_part(p: PhaseSummaryModel, metric: Seq<char>, labels: LabelsModel) -> Number {
    match lookup(p.counter_labels, metric) {
        Some(m) => match lookup(m, row_key(labels)) {
            Some(n) => n,
            None => zero(false),
        },
        None => zero(false),
    }
}

/// The value that a threshold judges in a phase, where the phase has data for it.
pub open spec fn judged_value(t: ThresholdModel, p: PhaseSummaryModel, now_second: u64) -> Option<Number> {
    match t.stat {
        Stat::Total => lookup(p.counters, t.metric),
        Stat::Rate => match lookup(p.counters, t.metric) {
            Some(c) => Some(c.over(of_nat(phase_seconds(p, now_second) as nat))),
            None => None,
        },
        Stat::Share => match lookup(p.counters, t.metric) {
            Some(total) => if total.at_most(zero(false)) {
                None
            } else {
                Some(labelled_part(p, t.metric, t.labels).over(total))
            },
            None => None,
        },
        Stat::Last => match sampled_gauge(p, t.metric) {
            Some(g) => Some(g.last),
            None => None,
        },
        Stat::Slope => match sampled_gauge(p, t.metric) {
            Some(g) => Some(g.slope),
            None => None,
        },
        _ => match lookup(p.histograms, t.metric) {
            Some(h) => if h.count == 0 {
                None
            } else {
                Some(hist_stat(t.stat, h))
            },
            None => match sampled_gauge(p, t.metric) {
                Some(g) => gauge_stat(t.stat, g),
                None => None,
            },
        },
    }
}

fn find_gauge(p: &PhaseSummary, metric: &str) -> (r: Option<GaugeStats>)
    ensures
        r == sampled_gauge(p.deep_view(), metric@),
{
    match p.gauges.get(metric) {
        Some(g) => if g.samples > 0 {
            Some(*g)
        } else {
            None
        },
        None => None,
    }
}

pub fn value_of(t: &Threshold, p: &PhaseSummary, now_second: u64) -> (r: Option<Number>)
    ensures
        r == judged_value(t.deep_view(), p.deep_view(), now_second),
{
    let metric = t.metric.as_str();
    match t.stat {
        Stat::Total => match p.counters.get(metric) {
            Some(c) => Some(*c),
            None => None,
        },
        Stat::Rate => match p.counters.get(metric) {
            Some(c) => Some(c.div(Number::of(p.duration_seconds(now_second) as u128))),
            None => None,
        },
        Stat::Share => match p.counters.get(metric) {
            Some(total) => {
                if total.le(Number { bits: 0 }) {
                    return None;
                }
                let part: Number = match p.counter_labels.get(metric) {
                    Some(m) => match m.get(row_of(&t.labels).as_str()) {
                        Some(n) => *n,
                        None => Number { bits: 0 },
                    },
                    None => Number { bits: 0 },
                };
                Some(part.div(*total))
            },
            None => None,
        },
        Stat::Last => match find_gauge(p, metric) {
            Some(g) => Some(g.last),
            None => None,
        },
        Stat::Slope => match find_gauge(p, metric) {
            Some(g) => Some(g.slope),
            None => None,
        },
        Stat::P50 | Stat::P90 | Stat::P95 | Stat::P99 | Stat::Max | Stat::Mean | Stat::Count => {
            if let Some(h) = p.histograms.get(metric) {
                if h.count == 0 {
                    return None;
                }
                return Some(
                    match t.stat {
                        Stat::P50 => h.p50,
                        Stat::P90 => h.p90,
                        Stat::P95 => h.p95,
                        Stat::P99 => h.p99,
                        Stat::Max => h.max,
                        Stat::Mean => h.mean,
                        _ => Number::of(h.count as u128),
                    },
                );
            }
            // Max and Mean also make sense for gauges.
            match find_gauge(p, metric) {
                Some(g) => match t.stat {
                    Stat::Max => Some(g.max),
                    Stat::Mean => Some(g.mean),
                    Stat::Count => Some(Number::of(g.samples as u128)),
                    _ => None,
                },
                None => None,
            }
        },
    }
}

/// A phase that a threshold does not judge, by its name.
pub open spec fn skipped(t: ThresholdModel, phase: Seq<char>) -> bool {
    exists|i: int| 0 <= i < t.skip_phases.len() && begins(phase, #[trigger] t.skip_phases[i])
}

/// Whether a value is within the range of a threshold.
pub open spec fn in_range(t: ThresholdModel, v: Number) -> bool {
    (match t.min {
        Some(lo) => lo.at.at_most(v),
        None => true,
    }) && (match t.max {
        Some(hi) => v.at_most(hi.at),
        None => true,
    })
}

/// The check of one threshold on one phase; none where the phase is skipped.
pub open spec fn checked(t: ThresholdModel, p: PhaseSummaryModel, now_second: u64) -> Option<CheckModel> {
    if skipped(t, p.name) {
        None
    } else {
        let value = judged_value(t, p, now_second);
        Some(
            CheckModel {
                rule: rule_text(t),
                value,
                pass: match value {
                    Some(v) => in_range(t, v),
                    None => true,
                },
            },
        )
    }
}

pub fn judge(t: &Threshold, p: &PhaseSummary, now_second: u64) -> (r: Option<Check>)
    ensures
        r.deep_view() == checked(t.deep_view(), p.deep_view(), now_second),
{
    let ghost prefixes = t.deep_view().skip_phases;
    let mut i: usize = 0;
    while i < t.skip_phases.len()
        invariant
            i <= t.skip_phases@.len(),
            prefixes == t.skip_phases.deep_view(),
            forall|j: int| 0 <= j < i ==> !begins(p.name@, #[trigger] prefixes[j]),
        decreases t.skip_phases@.len() - i,
    {
        if starts_with(p.name.as_str(), t.skip_phases[i].as_str()) {
            assert(begins(p.name@, t.deep_view().skip_phases[i as int]));
            return None;
        }
        i = i + 1;
    }
    let value: Option<Number> = value_of(t, p, now_second);
    let pass: bool = match value {
        None => true,
        Some(v) => {
            let above: bool = match &t.min {
                Some(lo) => lo.at.le(v),
                None => true,
            };
            let below: bool = match &t.max {
                Some(hi) => v.le(hi.at),
                None => true,
            };
            above && below
        },
    };
    Some(Check { rule: t.describe(), value, pass })
}

/// The checks of a phase, in the order of the thresholds.
pub open spec fn checks_of(ts: Seq<ThresholdModel>, p: PhaseSummaryModel, now_second: u64) -> Seq<CheckModel>
    decreases ts.len(),
{
    if ts.len() == 0 {
        Seq::empty()
    } else {
        let rest = checks_of(ts.drop_last(), p, now_second);
        match checked(ts.last(), p, now_second) {
            Some(c) => rest.push(c),
            None => rest,
        }
    }
}

/// Some(false) if any applicable check failed, Some(true) if all applicable passed, None if nothing applied.
pub open spec fn outcome(checks: Seq<CheckModel>) -> Option<bool> {
    if forall|i: int| 0 <= i < checks.len() ==> (#[trigger] checks[i]).value is None {
        None
    } else {
        Some(forall|i: int| 0 <= i < checks.len() && (#[trigger] checks[i]).value is Some ==> checks[i].pass)
    }
}

pub open spec fn phase_verdict(ts: Seq<ThresholdModel>, p: PhaseSummaryModel, now_second: u64) -> PhaseVerdictModel {
    PhaseVerdictModel {
        phase: p.name,
        checks: checks_of(ts, p, now_second),
        pass: outcome(checks_of(ts, p, now_second)),
    }
}

pub fn judge_phase(thresholds: &[Threshold], p: &PhaseSummary, now_second: u64) -> (r: PhaseVerdict)
    ensures
        r.deep_view() == phase_verdict(thresholds.deep_view(), p.deep_view(), now_second),
{
    let ghost ts = thresholds.deep_view();
    let ghost pm = p.deep_view();
    let mut checks: Vec<Check> = Vec::new();
    let mut applicable: bool = false;
    let mut passing: bool = true;
    let mut i: usize = 0;
    assert(checks.deep_view() =~= checks_of(ts.take(0), pm, now_second));
    while i < thresholds.len()
        invariant
            i <= thresholds@.len(),
            ts == thresholds.deep_view(),
            pm == p.deep_view(),
            checks.deep_view() == checks_of(ts.take(i as int), pm, now_second),
            applicable <==> exists|j: int| 0 <= j < checks@.len() && (#[trigger] checks@[j]).value is Some,
            passing <==> forall|j: int| 0 <= j < checks@.len() && (#[trigger] checks@[j]).value is Some ==> checks@[j].pass,
        decreases thresholds@.len() - i,
    {
        proof {
            assert(ts.take(i + 1).drop_last() =~= ts.take(i as int));
            assert(ts.take(i + 1).last() == thresholds@[i as int].deep_view());
        }
        let ghost before = checks@;
        let ghost before_model = checks.deep_view();
        if let Some(c) = judge(&thresholds[i], p, now_second) {
            let ghost cm = c.deep_view();
            if c.value.is_some() {
                applicable = true;
                passing = passing && c.pass;
            }
            checks.push(c);
            proof {
                assert(checks.deep_view() =~= before_model.push(cm));
                assert(forall|j: int| 0 <= j < before.len() ==> checks@[j] == before[j]);
                assert(checks@[before.len() as int] == c);
                if exists|j: int| 0 <= j < before.len() && (#[trigger] before[j]).value is Some {
                    let j = choose|j: int| 0 <= j < before.len() && (#[trigger] before[j]).value is Some;
                    assert(checks@[j].value is Some);
                }
                if !(forall|j: int| 0 <= j < before.len() && (#[trigger] before[j]).value is Some ==> before[j].pass) {
                    let j = choose|j: int|
                        0 <= j < before.len() && (#[trigger] before[j]).value is Some && !before[j].pass;
                    assert(checks@[j].value is Some && !checks@[j].pass);
                }
            }
        }
        i = i + 1;
    }
    proof {
        assert(ts.take(i as int) =~= ts);
        let cs = checks.deep_view();
        assert(forall|j: int| 0 <= j < cs.len() ==> (#[trigger] cs[j]).value == checks@[j].value && cs[j].pass == checks@[j].pass);
        if applicable {
            let j = choose|j: int| 0 <= j < checks@.len() && (#[trigger] checks@[j]).value is Some;
            assert(cs[j].value is Some);
        }
        if !passing {
            let j = choose|j: int| 0 <= j < checks@.len() && (#[trigger] checks@[j]).value is Some && !checks@[j].pass;
            assert(cs[j].value is Some && !cs[j].pass);
        } else {
            assert forall|j: int| 0 <= j < cs.len() && (#[trigger] cs[j]).value is Some implies cs[j].pass by {
                assert(checks@[j].value is Some);
            }
        }
    }
    let pass: Option<bool> = if applicable {
        Some(passing)
    } else {
        None
    };
    PhaseVerdict { phase: p.name.clone(), checks, pass }
}

pub open spec fn phase_verdicts(ts: Seq<ThresholdModel>, ps: Seq<PhaseSummaryModel>, now_second: u64) -> Seq<
    PhaseVerdictModel,
> {
    Seq::new(ps.len(), |i: int| phase_verdict(ts, ps[i], now_second))
}

/// The last phase where everything passed.
pub open spec fn ceiling_of(vs: Seq<PhaseVerdictModel>) -> Option<Seq<char>>
    decreases vs.len(),
{
    if vs.len() == 0 {
        None
    } else if vs.last().pass == Some(true) {
        Some(vs.last().phase)
    } else {
        ceiling_of(vs.drop_last())
    }
}

/// The first phase where something failed.
pub open spec fn first_failure_of(vs: Seq<PhaseVerdictModel>) -> Option<Seq<char>>
    decreases vs.len(),
{
    if vs.len() == 0 {
        None
    } else if first_failure_of(vs.drop_last()) is Some {
        first_failure_of(vs.drop_last())
    } else if vs.last().pass == Some(false) {
        Some(vs.last().phase)
    } else {
        None
    }
}

pub open spec fn evaluated(
    ts: Seq<ThresholdModel>,
    overall: PhaseSummaryModel,
    phases: Seq<PhaseSummaryModel>,
    now_second: u64,
) -> VerdictsModel {
    if ts.len() == 0 {
        no_verdicts()
    } else {
        let vs = phase_verdicts(ts, phases, now_second);
        VerdictsModel {
            overall: Some(phase_verdict(ts, overall, now_second)),
            phases: vs,
            ceiling: ceiling_of(vs),
            first_failure: first_failure_of(vs),
        }
    }
}

pub fn evaluate(thresholds: &[Threshold], overall: &PhaseSummary, phases: &[PhaseSummary], now_second: u64) -> (r: Verdicts)
    ensures
        r.deep_view() == evaluated(thresholds.deep_view(), overall.deep_view(), phases.deep_view(), now_second),
{
    if thresholds.len() == 0 {
        return Verdicts::default();
    }
    let ghost ts = thresholds.deep_view();
    let ghost vs = phase_verdicts(ts, phases.deep_view(), now_second);
    let mut verdicts: Vec<PhaseVerdict> = Vec::new();
    let mut ceiling: Option<String> = None;
    let mut first_failure: Option<String> = None;
    let mut i: usize = 0;
    while i < phases.len()
        invariant
            i <= phases@.len(),
            ts == thresholds.deep_view(),
            vs == phase_verdicts(ts, phases.deep_view(), now_second),
            verdicts@.len() == i,
            forall|j: int| 0 <= j < i ==> (#[trigger] verdicts@[j]).deep_view() == vs[j],
            ceiling.deep_view() == ceiling_of(vs.take(i as int)),
            first_failure.deep_view() == first_failure_of(vs.take(i as int)),
        decreases phases@.len() - i,
    {
        proof {
            assert(vs.take(i + 1).drop_last() =~= vs.take(i as int));
            assert(vs.take(i + 1).last() == vs[i as int]);
        }
        let v = judge_phase(thresholds, &phases[i], now_second);
        match v.pass {
            Some(true) => {
                ceiling = Some(v.phase.clone());
            },
            Some(false) => {
                if first_failure.is_none() {
                    first_failure = Some(v.phase.clone());
                }
            },
            None => {},
        }
        verdicts.push(v);
        i = i + 1;
    }
    assert(vs.take(i as int) =~= vs);
    assert(verdicts.deep_view() =~= vs);
    Verdicts { overall: Some(judge_phase(thresholds, overall, now_second)), phases: verdicts, ceiling, first_failure }
}

} // verus!
