//! The metrics of a run, with its seconds and its phases.

use vstd::prelude::*;
use crate::laws::stores::{
    advancing_keeps_coherence, an_empty_store_is_coherent, beginning_a_phase_keeps_coherence,
    declaring_all_keeps_coherence, declaring_keeps_coherence,
    recording_all_keeps_coherence, recording_keeps_coherence,
};
use crate::metrics::{
    aggregate_in_order, aggregate_kind, fresh_aggregate, fresh_phase, gauge_stats, percentiles_of, phase_in_order,
    phase_recorded, phase_summary, recorded, rolled, sample, sampled, samples_under, Aggregate, AggregateModel, GaugeStats, Metric, MetricModel,
    Percentiles, PhaseModel, PhaseState, PhaseSummary, PhaseSummaryModel,
};
use crate::number::Number;
use crate::protocol::{MetricKind, MetricSpec, MetricSpecModel, Observation, ObservationModel};
use crate::sorted::{in_order, lookup, store, Duplicate, SortedMap};

verus! {

#[derive(Debug)]
pub struct MetricStore {
    order: Vec<String>,
    metrics: SortedMap<Metric>,
    samples: SortedMap<Vec<(u64, Number)>>,
    current_second: u64,
    phases: Vec<PhaseState>,
    pub unknown_metrics: SortedMap<u64>,
}

#[verifier::ext_equal]
pub struct StoreModel {
    /// The names of the metrics in the order of their declaration.
    pub order: Seq<Seq<char>>,
    /// The metrics by name.
    pub metrics: Seq<(Seq<char>, MetricModel)>,
    /// The samples of each gauge that has any, with their seconds.
    pub samples: Seq<(Seq<char>, Seq<(u64, Number)>)>,
    pub current_second: u64,
    /// The phases in the order of their beginning.
    pub phases: Seq<PhaseModel>,
    /// How often each undeclared metric was reported.
    pub unknown: Seq<(Seq<char>, u64)>,
}

impl DeepView for MetricStore {
    type V = StoreModel;

    closed spec fn deep_view(&self) -> StoreModel {
        StoreModel {
            order: self.order.deep_view(),
            metrics: self.metrics@,
            samples: self.samples@,
            current_second: self.current_second,
            phases: self.phases.deep_view(),
            unknown: self.unknown_metrics@,
        }
    }
}

/// A store without metrics, at second zero.
pub open spec fn empty_store() -> StoreModel {
    StoreModel {
        order: Seq::empty(),
        metrics: Seq::empty(),
        samples: Seq::empty(),
        current_second: 0,
        phases: Seq::empty(),
        unknown: Seq::empty(),
    }
}

/// A metric declared; one that is declared already stays as it is.
pub open spec fn declared(s: StoreModel, spec: MetricSpecModel) -> StoreModel {
    if lookup(s.metrics, spec.name) is Some {
        s
    } else {
        StoreModel {
            order: s.order.push(spec.name),
            metrics: store(s.metrics, spec.name, MetricModel { spec, aggregate: fresh_aggregate(spec.kind) }),
            ..s
        }
    }
}

/// Metrics declared one after the other.
pub open spec fn all_declared(s: StoreModel, specs: Seq<MetricSpecModel>) -> StoreModel
    decreases specs.len(),
{
    if specs.len() == 0 {
        s
    } else {
        declared(all_declared(s, specs.drop_last()), specs.last())
    }
}

/// Every metric with its current bucket closed.
pub open spec fn all_rolled(metrics: Seq<(Seq<char>, MetricModel)>, second: u64) -> Seq<(Seq<char>, MetricModel)> {
    Seq::new(
        metrics.len(),
        |i: int|
            (
                metrics[i].0,
                MetricModel { spec: metrics[i].1.spec, aggregate: rolled(metrics[i].1.aggregate, second) },
            ),
    )
}

/// Every bucket closed from second `from` up to second `to`.
pub open spec fn rolled_through(metrics: Seq<(Seq<char>, MetricModel)>, from: u64, to: u64) -> Seq<
    (Seq<char>, MetricModel),
>
    decreases to - from,
{
    if from >= to {
        metrics
    } else {
        rolled_through(all_rolled(metrics, from), (from + 1) as u64, to)
    }
}

/// The store at a later second.
pub open spec fn advanced(s: StoreModel, second: u64) -> StoreModel {
    StoreModel {
        metrics: rolled_through(s.metrics, s.current_second, second),
        current_second: if second > s.current_second {
            second
        } else {
            s.current_second
        },
        ..s
    }
}

/// One more report of an undeclared metric, as far as it can be counted.
pub open spec fn noted(unknown: Seq<(Seq<char>, u64)>, name: Seq<char>) -> Seq<(Seq<char>, u64)> {
    store(
        unknown,
        name,
        match lookup(unknown, name) {
            Some(n) => if n < u64::MAX {
                (n + 1) as u64
            } else {
                n
            },
            None => 1,
        },
    )
}

/// One observation: it goes to its metric and to the current phase, or is noted as unknown.
pub open spec fn observed(s: StoreModel, o: ObservationModel) -> StoreModel {
    match lookup(s.metrics, o.metric) {
        None => StoreModel { unknown: noted(s.unknown, o.metric), ..s },
        Some(m) => StoreModel {
            metrics: store(
                s.metrics,
                o.metric,
                MetricModel { spec: m.spec, aggregate: recorded(m.aggregate, o.value, o.labels) },
            ),
            samples: if m.spec.kind == MetricKind::Gauge {
                sampled(s.samples, o.metric, s.current_second, o.value)
            } else {
                s.samples
            },
            phases: if s.phases.len() == 0 {
                s.phases
            } else {
                s.phases.update(
                    s.phases.len() - 1,
                    phase_recorded(s.phases.last(), m.spec.kind, o, s.current_second),
                )
            },
            ..s
        },
    }
}

/// Observations recorded one after the other.
pub open spec fn all_observed(s: StoreModel, os: Seq<ObservationModel>) -> StoreModel
    decreases os.len(),
{
    if os.len() == 0 {
        s
    } else {
        observed(all_observed(s, os.drop_last()), os.last())
    }
}

/// A new phase begun.
pub open spec fn phase_begun(s: StoreModel, name: Seq<char>) -> StoreModel {
    StoreModel { phases: s.phases.push(fresh_phase(name, s.current_second)), ..s }
}

/// The totals, breakdowns, percentiles and gauge shapes of some metrics over the whole run.
pub open spec fn folded(
    metrics: Seq<(Seq<char>, MetricModel)>,
    samples: Seq<(Seq<char>, Seq<(u64, Number)>)>,
) -> PhaseSummaryModel
    decreases metrics.len(),
{
    if metrics.len() == 0 {
        PhaseSummaryModel {
            name: "overall"@,
            start_second: 0,
            end_second: None,
            counters: Seq::empty(),
            counter_labels: Seq::empty(),
            histograms: Seq::empty(),
            gauges: Seq::empty(),
        }
    } else {
        let rest = folded(metrics.drop_last(), samples);
        let name = metrics.last().0;
        match metrics.last().1.aggregate {
            AggregateModel::Counter { total, by_label, .. } => PhaseSummaryModel {
                counters: store(rest.counters, name, total),
                counter_labels: store(rest.counter_labels, name, by_label),
                ..rest
            },
            AggregateModel::Histogram { all, .. } => PhaseSummaryModel {
                histograms: store(rest.histograms, name, percentiles_of(all)),
                ..rest
            },
            AggregateModel::Gauge { .. } => PhaseSummaryModel {
                gauges: store(rest.gauges, name, gauge_stats(samples_under(samples, name))),
                ..rest
            },
        }
    }
}

/// The whole run as if it were one phase.
pub open spec fn overall(s: StoreModel) -> PhaseSummaryModel {
    PhaseSummaryModel {
        end_second: Some(
            if s.current_second > 1 {
                s.current_second
            } else {
                1
            },
        ),
        ..folded(s.metrics, s.samples)
    }
}

/// The second in which a phase ended: that in which the next one began.
pub open spec fn phase_end(phases: Seq<PhaseModel>, i: int) -> Option<u64> {
    if i + 1 < phases.len() {
        Some(phases[i + 1].start_second)
    } else {
        None
    }
}

pub open spec fn summaries(phases: Seq<PhaseModel>) -> Seq<PhaseSummaryModel> {
    Seq::new(phases.len(), |i: int| phase_summary(phases[i], phase_end(phases, i)))
}

/// What holds of every store: the metrics are in key order, each under its own name and with the
/// aggregate of its kind; the declared names are those of the metrics, without repetition; only
/// declared metrics have samples; the phases began in their order, no later than now; and all
/// breakdowns are in key order.
pub open spec fn coherent(s: StoreModel) -> bool {
    &&& in_order(s.metrics)
    &&& in_order(s.samples)
    &&& in_order(s.unknown)
    &&& forall|i: int|
        0 <= i < s.metrics.len() ==> (#[trigger] s.metrics[i]).0 == s.metrics[i].1.spec.name
            && aggregate_kind(s.metrics[i].1.aggregate) == s.metrics[i].1.spec.kind && aggregate_in_order(
            s.metrics[i].1.aggregate,
        )
    &&& s.order.no_duplicates()
    &&& forall|name: Seq<char>| s.order.contains(name) <==> #[trigger] lookup(s.metrics, name) is Some
    &&& forall|name: Seq<char>|
        (#[trigger] lookup(s.samples, name)) is Some ==> lookup(s.metrics, name) is Some
    &&& forall|i: int, j: int|
        0 <= i <= j < s.phases.len() ==> (#[trigger] s.phases[i]).start_second <= (#[trigger] s.phases[j]).start_second
    &&& forall|i: int| 0 <= i < s.phases.len() ==> (#[trigger] s.phases[i]).start_second <= s.current_second
    &&& forall|i: int| 0 <= i < s.phases.len() ==> phase_in_order(#[trigger] s.phases[i])
}

impl MetricStore {
    pub fn new(specs: Vec<MetricSpec>) -> (r: MetricStore)
        ensures
            r.deep_view() == all_declared(empty_store(), specs.deep_view()),
            coherent(r.deep_view()),
    {
        let mut s = MetricStore {
            order: Vec::new(),
            metrics: SortedMap::new(),
            samples: SortedMap::new(),
            current_second: 0,
            phases: Vec::new(),
            unknown_metrics: SortedMap::new(),
        };
        assert(s.deep_view() =~= empty_store());
        proof {
            an_empty_store_is_coherent();
        }
        s.declare_all(&specs);
        s
    }

    /// Declares some metrics, in their order.
    pub fn declare_all(&mut self, specs: &Vec<MetricSpec>)
        ensures
            final(self).deep_view() == all_declared(old(self).deep_view(), specs.deep_view()),
            coherent(old(self).deep_view()) ==> coherent(final(self).deep_view()),
    {
        let ghost before = self.deep_view();
        let ghost models = specs.deep_view();
        proof {
            if coherent(before) {
                declaring_all_keeps_coherence(before, specs.deep_view());
            }
        }
        let mut i: usize = 0;
        assert(models.take(0) =~= Seq::<MetricSpecModel>::empty());
        while i < specs.len()
            invariant
                i <= specs@.len(),
                models == specs.deep_view(),
                self.deep_view() == all_declared(before, models.take(i as int)),
            decreases specs@.len() - i,
        {
            self.declare(specs[i].duplicate());
            proof {
                assert(models.take(i + 1).drop_last() =~= models.take(i as int));
                assert(models.take(i + 1).last() == specs@[i as int].deep_view());
            }
            i = i + 1;
        }
        assert(models.take(i as int) =~= models);
    }

    pub fn declare(&mut self, spec: MetricSpec)
        ensures
            final(self).deep_view() == declared(old(self).deep_view(), spec.deep_view()),
            coherent(old(self).deep_view()) ==> coherent(final(self).deep_view()),
    {
        let ghost before = self.deep_view();
        proof {
            if coherent(before) {
                declaring_keeps_coherence(before, spec.deep_view());
            }
        }
        if !self.metrics.contains_key(spec.name.as_str()) {
            let name = spec.name.clone();
            let key = spec.name.clone();
            self.order.push(name);
            self.metrics.put(key, Metric::new(spec));
            assert(self.order.deep_view() =~= before.order.push(spec.name@));
            assert(self.deep_view() =~= declared(before, spec.deep_view()));
        }
    }

    /// The names of the metrics in the order of their declaration.
    pub fn names(&self) -> (r: &Vec<String>)
        ensures
            r.deep_view() == self.deep_view().order,
    {
        &self.order
    }

    pub fn get(&self, name: &str) -> (r: Option<&Metric>)
        ensures
            match r {
                Some(m) => lookup(self.deep_view().metrics, name@) == Some(m.deep_view()),
                None => lookup(self.deep_view().metrics, name@) is None,
            },
    {
        self.metrics.get(name)
    }

    /// How often each undeclared metric was reported.
    pub fn unknown(&self) -> (r: &SortedMap<u64>)
        ensures
            r@ == self.deep_view().unknown,
    {
        &self.unknown_metrics
    }

    pub fn current_second(&self) -> (r: u64)
        ensures
            r == self.deep_view().current_second,
    {
        self.current_second
    }

    /// Advance wall-clock seconds; closes every bucket between the last known second and `second`.
    pub fn advance_to(&mut self, second: u64)
        ensures
            final(self).deep_view() == advanced(old(self).deep_view(), second),
            coherent(old(self).deep_view()) ==> coherent(final(self).deep_view()),
    {
        let ghost before = self.deep_view();
        proof {
            if coherent(before) {
                advancing_keeps_coherence(before, second);
            }
        }
        while self.current_second < second
            invariant
                before.current_second <= self.current_second,
                self.current_second <= second || self.current_second == before.current_second,
                self.deep_view().order == before.order,
                self.deep_view().samples == before.samples,
                self.deep_view().phases == before.phases,
                self.deep_view().unknown == before.unknown,
                rolled_through(self.metrics@, self.current_second, second) == rolled_through(
                    before.metrics,
                    before.current_second,
                    second,
                ),
            decreases second - self.current_second,
        {
            self.roll_all();
            self.current_second = self.current_second + 1;
        }
        assert(self.deep_view() =~= advanced(before, second));
    }

    fn roll_all(&mut self)
        ensures
            final(self).metrics@ == all_rolled(old(self).metrics@, old(self).current_second),
            final(self).order == old(self).order,
            final(self).current_second == old(self).current_second,
            final(self).samples == old(self).samples,
            final(self).phases == old(self).phases,
            final(self).unknown_metrics == old(self).unknown_metrics,
    {
        let ghost before = self.metrics@;
        let second: u64 = self.current_second;
        let mut i: usize = 0;
        while i < self.metrics.len()
            invariant
                i <= self.metrics@.len(),
                self.metrics@.len() == before.len(),
                before == old(self).metrics@,
                second == old(self).current_second,
                self.order == old(self).order,
                self.current_second == old(self).current_second,
                self.samples == old(self).samples,
                self.phases == old(self).phases,
                self.unknown_metrics == old(self).unknown_metrics,
                forall|j: int| 0 <= j < i ==> #[trigger] self.metrics@[j] == all_rolled(before, second)[j],
                forall|j: int| i <= j < before.len() ==> #[trigger] self.metrics@[j] == before[j],
            decreases self.metrics@.len() - i,
        {
            self.metrics.value_mut(i).roll(second);
            i = i + 1;
        }
        assert(self.metrics@ =~= all_rolled(before, second));
    }

    pub fn record(&mut self, obs: &Observation)
        ensures
            final(self).deep_view() == observed(old(self).deep_view(), obs.deep_view()),
            coherent(old(self).deep_view()) ==> coherent(final(self).deep_view()),
    {
        let ghost before = self.deep_view();
        proof {
            if coherent(before) {
                recording_keeps_coherence(before, obs.deep_view());
            }
        }
        let (i, there): (usize, bool) = self.metrics.place(obs.metric.as_str());
        if !there {
            let n: u64 = match self.unknown_metrics.get(obs.metric.as_str()) {
                Some(n) => if *n < u64::MAX {
                    *n + 1
                } else {
                    *n
                },
                None => 1,
            };
            self.unknown_metrics.put(obs.metric.clone(), n);
            assert(self.deep_view() =~= observed(before, obs.deep_view()));
            return;
        }
        let kind = self.metrics.value(i).spec.kind;
        self.metrics.value_mut(i).record(obs.value, &obs.labels);
        if matches!(kind, MetricKind::Gauge) {
            sample(&mut self.samples, obs.metric.clone(), self.current_second, obs.value);
        }
        let n: usize = self.phases.len();
        if n > 0 {
            let second: u64 = self.current_second;
            let ghost phases = self.phases.deep_view();
            let phase = &mut self.phases[n - 1];
            phase.record(kind, obs, second);
            assert(self.phases.deep_view() =~= phases.update(
                n - 1,
                phase_recorded(phases.last(), kind, obs.deep_view(), second),
            ));
        }
        assert(self.deep_view() =~= observed(before, obs.deep_view()));
    }

    /// Records some observations, in their order.
    pub fn record_all(&mut self, observations: &Vec<Observation>)
        ensures
            final(self).deep_view() == all_observed(old(self).deep_view(), observations.deep_view()),
            coherent(old(self).deep_view()) ==> coherent(final(self).deep_view()),
    {
        let ghost before = self.deep_view();
        proof {
            if coherent(before) {
                recording_all_keeps_coherence(before, observations.deep_view());
            }
        }
        let ghost models = observations.deep_view();
        let mut i: usize = 0;
        assert(models.take(0) =~= Seq::<ObservationModel>::empty());
        while i < observations.len()
            invariant
                i <= observations@.len(),
                models == observations.deep_view(),
                self.deep_view() == all_observed(before, models.take(i as int)),
            decreases observations@.len() - i,
        {
            self.record(&observations[i]);
            proof {
                assert(models.take(i + 1).drop_last() =~= models.take(i as int));
                assert(models.take(i + 1).last() == observations@[i as int].deep_view());
            }
            i = i + 1;
        }
        assert(models.take(i as int) =~= models);
    }

    pub fn begin_phase(&mut self, name: &str)
        ensures
            final(self).deep_view() == phase_begun(old(self).deep_view(), name@),
            coherent(old(self).deep_view()) ==> coherent(final(self).deep_view()),
    {
        let ghost before = self.deep_view();
        proof {
            if coherent(before) {
                beginning_a_phase_keeps_coherence(before, name@);
            }
        }
        self.phases.push(PhaseState::new(name, self.current_second));
        assert(self.phases.deep_view() =~= before.phases.push(fresh_phase(name@, before.current_second)));
        assert(self.deep_view() =~= phase_begun(before, name@));
    }

    /// The name of the phase that began last.
    pub fn current_phase(&self) -> (r: Option<&str>)
        ensures
            match r {
                Some(name) => self.deep_view().phases.len() > 0 && name@ == self.deep_view().phases.last().name,
                None => self.deep_view().phases.len() == 0,
            },
    {
        let n: usize = self.phases.len();
        if n == 0 {
            None
        } else {
            Some(self.phases[n - 1].name.as_str())
        }
    }

    /// The whole run folded into one summary so thresholds evaluate identically overall and per phase.
    pub fn overall_summary(&self) -> (r: PhaseSummary)
        ensures
            r.deep_view() == overall(self.deep_view()),
    {
        let mut counters: SortedMap<Number> = SortedMap::new();
        let mut counter_labels: SortedMap<SortedMap<Number>> = SortedMap::new();
        let mut histograms: SortedMap<Percentiles> = SortedMap::new();
        let mut gauges: SortedMap<GaugeStats> = SortedMap::new();
        let ghost ms = self.metrics@;
        let ghost samples = self.samples@;
        let mut i: usize = 0;
        while i < self.metrics.len()
            invariant
                i <= ms.len(),
                ms == self.metrics@,
                samples == self.samples@,
                counters@ == folded(ms.take(i as int), samples).counters,
                counter_labels@ == folded(ms.take(i as int), samples).counter_labels,
                histograms@ == folded(ms.take(i as int), samples).histograms,
                gauges@ == folded(ms.take(i as int), samples).gauges,
            decreases ms.len() - i,
        {
            proof {
                assert(ms.take(i + 1).drop_last() =~= ms.take(i as int));
                assert(ms.take(i + 1).last() == ms[i as int]);
            }
            let name = self.metrics.key(i);
            match &self.metrics.value(i).aggregate {
                Aggregate::Counter { total, by_label, .. } => {
                    counters.put(name.clone(), *total);
                    counter_labels.put(name.clone(), by_label.duplicate());
                },
                Aggregate::Histogram { all, .. } => {
                    histograms.put(name.clone(), Percentiles::of_histogram(all));
                },
                Aggregate::Gauge { .. } => {
                    let stats = match self.samples.get(name.as_str()) {
                        Some(points) => {
                            assert(points.deep_view() =~= points@);
                            GaugeStats::of(points.as_slice())
                        },
                        None => {
                            let none: Vec<(u64, Number)> = Vec::new();
                            assert(none@ =~= Seq::<(u64, Number)>::empty());
                            GaugeStats::of(none.as_slice())
                        },
                    };
                    gauges.put(name.clone(), stats);
                },
            }
            i = i + 1;
        }
        proof {
            assert(ms.take(i as int) =~= ms);
            lemma_folded_frame(ms, samples);
        }
        let r = PhaseSummary {
            name: "overall".to_owned(),
            start_second: 0,
            end_second: Some(if self.current_second > 1 { self.current_second } else { 1 }),
            counters,
            counter_labels,
            histograms,
            gauges,
        };
        assert(r.deep_view() =~= overall(self.deep_view()));
        r
    }

    pub fn phase_summaries(&self) -> (r: Vec<PhaseSummary>)
        ensures
            r.deep_view() == summaries(self.deep_view().phases),
    {
        let n: usize = self.phases.len();
        let ghost phases = self.phases.deep_view();
        let mut out: Vec<PhaseSummary> = Vec::new();
        let mut i: usize = 0;
        while i < n
            invariant
                i <= n == self.phases@.len(),
                phases == self.phases.deep_view(),
                out@.len() == i,
                forall|j: int| 0 <= j < i ==> (#[trigger] out@[j]).deep_view() == summaries(phases)[j],
            decreases n - i,
        {
            let end: Option<u64> = if i + 1 < n {
                Some(self.phases[i + 1].start_second)
            } else {
                None
            };
            out.push(self.phases[i].summary(end));
            i = i + 1;
        }
        assert(out.deep_view() =~= summaries(phases));
        out
    }
}

pub(crate) proof fn lemma_folded_frame(
    ms: Seq<(Seq<char>, MetricModel)>,
    samples: Seq<(Seq<char>, Seq<(u64, Number)>)>,
)
    ensures
        folded(ms, samples).name == "overall"@,
        folded(ms, samples).start_second == 0,
    decreases ms.len(),
{
    if ms.len() > 0 {
        lemma_folded_frame(ms.drop_last(), samples);
    }
}

} // verus!
