//! The extension point: anything that can drive load and report metrics.

use vstd::prelude::*;
use crate::number::Number;
use crate::protocol::{
    Event, Labels, LabelsModel, LogLevel, MetricSpec, MetricSpecModel, Observation, ObservationModel,
};
use crate::sorted::{in_order, store, SortedMap};
use crate::text::str_same;

verus! {

/// The bit pattern of the number one.
pub const ONE: u64 = 0x3ff0_0000_0000_0000;

/// What a scenario says of itself.
#[derive(Debug)]
pub struct ScenarioInfo {
    /// Stable id referenced by run configs, e.g. "checkout.ramp".
    pub id: String,
    pub description: String,
    /// Metrics this scenario will report. Declared up front so the dashboard can lay out panels
    /// before data arrives.
    pub metrics: Vec<MetricSpec>,
}

pub struct ScenarioModel {
    pub id: Seq<char>,
    pub description: Seq<char>,
    pub metrics: Seq<MetricSpecModel>,
}

impl DeepView for ScenarioInfo {
    type V = ScenarioModel;

    open spec fn deep_view(&self) -> ScenarioModel {
        ScenarioModel { id: self.id@, description: self.description@, metrics: self.metrics.deep_view() }
    }
}

/// Scenarios a binary makes available, looked up by id from run configs.
#[derive(Debug)]
pub struct Registry {
    pub scenarios: Vec<ScenarioInfo>,
}

impl View for Registry {
    type V = Seq<ScenarioModel>;

    open spec fn view(&self) -> Seq<ScenarioModel> {
        self.scenarios.deep_view()
    }
}

/// The place of the first scenario with that id.
pub open spec fn found(scenarios: Seq<ScenarioModel>, id: Seq<char>) -> Option<int>
    decreases scenarios.len(),
{
    if scenarios.len() == 0 {
        None
    } else if found(scenarios.drop_last(), id) is Some {
        found(scenarios.drop_last(), id)
    } else if scenarios.last().id == id {
        Some(scenarios.len() - 1)
    } else {
        None
    }
}

pub open spec fn ids_of(scenarios: Seq<ScenarioModel>) -> Seq<Seq<char>> {
    Seq::new(scenarios.len(), |i: int| scenarios[i].id)
}

/// A scenario is found under an id exactly where one has it, and the first of them is found.
pub proof fn found_is_the_first(scenarios: Seq<ScenarioModel>, id: Seq<char>)
    ensures
        match found(scenarios, id) {
            Some(k) => 0 <= k < scenarios.len() && scenarios[k].id == id && forall|j: int|
                0 <= j < k ==> (#[trigger] scenarios[j]).id != id,
            None => forall|j: int| 0 <= j < scenarios.len() ==> (#[trigger] scenarios[j]).id != id,
        },
    decreases scenarios.len(),
{
    if scenarios.len() > 0 {
        let rest = scenarios.drop_last();
        found_is_the_first(rest, id);
        assert(forall|j: int| 0 <= j < rest.len() ==> rest[j] == #[trigger] scenarios[j]);
        if found(rest, id) is None {
            assert forall|j: int| 0 <= j < scenarios.len() - 1 implies (#[trigger] scenarios[j]).id != id by {
                assert(rest[j].id != id);
            }
        }
    }
}

impl Registry {
    pub fn new() -> (r: Self)
        ensures
            r@ == Seq::<ScenarioModel>::empty(),
    {
        let r = Registry { scenarios: Vec::new() };
        assert(r@ =~= Seq::<ScenarioModel>::empty());
        r
    }

    pub fn register(self, scenario: ScenarioInfo) -> (r: Self)
        ensures
            r@ == self@.push(scenario.deep_view()),
    {
        let mut scenarios = self.scenarios;
        scenarios.push(scenario);
        let r = Registry { scenarios };
        assert(r@ =~= self@.push(scenario.deep_view()));
        r
    }

    /// The place of the first scenario with that id.
    pub fn position(&self, id: &str) -> (r: Option<usize>)
        ensures
            match r {
                Some(k) => k < self@.len() && found(self@, id@) == Some(k as int),
                None => found(self@, id@) is None,
            },
    {
        let ghost models = self@;
        let mut at: Option<usize> = None;
        let mut i: usize = 0;
        assert(models.take(0) =~= Seq::<ScenarioModel>::empty());
        while i < self.scenarios.len()
            invariant
                i <= self.scenarios@.len(),
                models == self@,
                match at {
                    Some(k) => k < i && found(models.take(i as int), id@) == Some(k as int),
                    None => found(models.take(i as int), id@) is None,
                },
            decreases self.scenarios@.len() - i,
        {
            proof {
                assert(models.take(i + 1).drop_last() =~= models.take(i as int));
                assert(models.take(i + 1).last() == self.scenarios@[i as int].deep_view());
            }
            if at.is_none() && str_same(self.scenarios[i].id.as_str(), id) {
                at = Some(i);
            }
            i = i + 1;
        }
        assert(models.take(i as int) =~= models);
        at
    }

    /// The first scenario with that id.
    pub fn get(&self, id: &str) -> (r: Option<&ScenarioInfo>)
        ensures
            match r {
                Some(s) => found(self@, id@) is Some && s.deep_view() == self@[found(self@, id@)->0],
                None => found(self@, id@) is None,
            },
    {
        match self.position(id) {
            Some(k) => Some(&self.scenarios[k]),
            None => None,
        }
    }

    /// The ids in the order of registration.
    pub fn ids(&self) -> (r: Vec<String>)
        ensures
            r.deep_view() == ids_of(self@),
    {
        let mut out: Vec<String> = Vec::new();
        let mut i: usize = 0;
        while i < self.scenarios.len()
            invariant
                i <= self.scenarios@.len(),
                out@.len() == i,
                forall|j: int| 0 <= j < i ==> (#[trigger] out@[j])@ == self.scenarios@[j].id@,
            decreases self.scenarios@.len() - i,
        {
            out.push(self.scenarios[i].id.clone());
            i = i + 1;
        }
        assert(out.deep_view() =~= ids_of(self@));
        out
    }
}

/// Labels stored one after the other.
pub open spec fn stored_labels(pairs: Seq<(Seq<char>, Seq<char>)>) -> LabelsModel
    decreases pairs.len(),
{
    if pairs.len() == 0 {
        Seq::empty()
    } else {
        store(stored_labels(pairs.drop_last()), pairs.last().0, pairs.last().1)
    }
}

/// The pairs by their texts.
pub open spec fn pair_texts(pairs: Seq<(&str, String)>) -> Seq<(Seq<char>, Seq<char>)> {
    Seq::new(pairs.len(), |i: int| (pairs[i].0@, pairs[i].1@))
}

/// Labels from pairs of name and value; of two values for one name the later stands.
pub fn labels<const N: usize>(pairs: [(&str, String); N]) -> (r: Labels)
    ensures
        r@ == stored_labels(pair_texts(pairs@)),
        in_order(r@),
{
    let ghost texts = pair_texts(pairs@);
    let mut out: Labels = SortedMap::new();
    let mut i: usize = 0;
    assert(texts.take(0) =~= Seq::<(Seq<char>, Seq<char>)>::empty());
    while i < N
        invariant
            i <= N == pairs@.len(),
            texts == pair_texts(pairs@),
            out@ == stored_labels(texts.take(i as int)),
            in_order(out@),
        decreases N - i,
    {
        proof {
            assert(texts.take(i + 1).drop_last() =~= texts.take(i as int));
            assert(texts.take(i + 1).last() == texts[i as int]);
        }
        out.put(pairs[i].0.to_owned(), pairs[i].1.clone());
        i = i + 1;
    }
    assert(texts.take(i as int) =~= texts);
    out
}

/// What a scenario has reported, in its order, until it is handed on.
#[derive(Debug)]
pub struct Recorder {
    pub events: Vec<Event>,
}

impl View for Recorder {
    type V = Seq<Event>;

    open spec fn view(&self) -> Seq<Event> {
        self.events@
    }
}

pub open spec fn is_observation(event: Event, o: ObservationModel) -> bool {
    match event {
        Event::Observe(x) => x.deep_view() == o,
        _ => false,
    }
}

pub open spec fn is_phase(event: Event, phase: Seq<char>) -> bool {
    match event {
        Event::Phase { name } => name@ == phase,
        _ => false,
    }
}

pub open spec fn is_log(event: Event, at: LogLevel, text: Seq<char>) -> bool {
    match event {
        Event::Log { level, message } => level == at && message@ == text,
        _ => false,
    }
}

/// One observation more.
pub open spec fn also_observed(before: Seq<Event>, after: Seq<Event>, o: ObservationModel) -> bool {
    after.len() == before.len() + 1 && after.drop_last() == before && is_observation(after.last(), o)
}

/// One log line more.
pub open spec fn also_logged(before: Seq<Event>, after: Seq<Event>, at: LogLevel, text: Seq<char>) -> bool {
    after.len() == before.len() + 1 && after.drop_last() == before && is_log(after.last(), at, text)
}

impl Recorder {
    pub fn new() -> (r: Recorder)
        ensures
            r@ == Seq::<Event>::empty(),
    {
        Recorder { events: Vec::new() }
    }

    pub fn emit(&mut self, event: Event)
        ensures
            final(self)@ == old(self)@.push(event),
    {
        self.events.push(event);
    }

    pub fn observe(&mut self, metric: &str, value: Number)
        ensures
            also_observed(
                old(self)@,
                final(self)@,
                ObservationModel { metric: metric@, value, labels: Seq::empty() },
            ),
    {
        self.observe_labeled(metric, value, SortedMap::new());
    }

    pub fn observe_labeled(&mut self, metric: &str, value: Number, labels: Labels)
        ensures
            also_observed(old(self)@, final(self)@, ObservationModel { metric: metric@, value, labels: labels@ }),
    {
        let ghost before = self@;
        self.emit(Event::Observe(Observation { metric: metric.to_owned(), value, labels }));
        assert(self@.drop_last() =~= before);
    }

    pub fn count(&mut self, metric: &str)
        ensures
            also_observed(
                old(self)@,
                final(self)@,
                ObservationModel { metric: metric@, value: Number { bits: ONE }, labels: Seq::empty() },
            ),
    {
        self.observe(metric, Number { bits: ONE });
    }

    pub fn count_labeled(&mut self, metric: &str, labels: Labels)
        ensures
            also_observed(
                old(self)@,
                final(self)@,
                ObservationModel { metric: metric@, value: Number { bits: ONE }, labels: labels@ },
            ),
    {
        self.observe_labeled(metric, Number { bits: ONE }, labels);
    }

    pub fn gauge(&mut self, metric: &str, value: Number)
        ensures
            also_observed(
                old(self)@,
                final(self)@,
                ObservationModel { metric: metric@, value, labels: Seq::empty() },
            ),
    {
        self.observe(metric, value);
    }

    pub fn phase(&mut self, name: String)
        ensures
            final(self)@.len() == old(self)@.len() + 1,
            final(self)@.drop_last() == old(self)@,
            is_phase(final(self)@.last(), name@),
    {
        let ghost before = self@;
        self.emit(Event::Phase { name });
        assert(self@.drop_last() =~= before);
    }

    pub fn log(&mut self, level: LogLevel, message: String)
        ensures
            also_logged(old(self)@, final(self)@, level, message@),
    {
        let ghost before = self@;
        self.emit(Event::Log { level, message });
        assert(self@.drop_last() =~= before);
    }

    pub fn info(&mut self, message: String)
        ensures
            also_logged(old(self)@, final(self)@, LogLevel::Info, message@),
    {
        self.log(LogLevel::Info, message);
    }

    pub fn warn(&mut self, message: String)
        ensures
            also_logged(old(self)@, final(self)@, LogLevel::Warn, message@),
    {
        self.log(LogLevel::Warn, message);
    }
}

} // verus!
