//! Event vocabulary shared by in-process scenarios and external processes.

use vstd::prelude::*;
use serde_json::Value;
use crate::number::Number;
use crate::rows::{row_key, row_of};
use crate::sorted::{Duplicate, SortedMap};

verus! {

/// Labels of an observation, by name.
pub type Labels = SortedMap<String>;

/// The labels as a sequence of names and values in name order.
pub type LabelsModel = Seq<(Seq<char>, Seq<char>)>;

#[derive(Clone, Copy, Debug, PartialEq, Eq, Structural)]
pub enum MetricKind {
    /// Count of things that happened; graphed as a per-second rate.
    Counter,
    /// A level sampled over time (in-flight, queue depth); graphed as its last value.
    Gauge,
    /// A distribution of measurements (latency, bytes); graphed as p50/p95/p99.
    Histogram,
}

/// The name of a kind, as configs and reports write it.
pub open spec fn kind_name(kind: MetricKind) -> Seq<char> {
    match kind {
        MetricKind::Counter => "counter"@,
        MetricKind::Gauge => "gauge"@,
        MetricKind::Histogram => "histogram"@,
    }
}

impl MetricKind {
    pub fn name(self) -> (r: String)
        ensures
            r@ == kind_name(self),
    {
        match self {
            MetricKind::Counter => "counter".to_owned(),
            MetricKind::Gauge => "gauge".to_owned(),
            MetricKind::Histogram => "histogram".to_owned(),
        }
    }
}

#[derive(Clone, Debug)]
pub struct MetricSpec {
    pub name: String,
    pub kind: MetricKind,
    pub unit: Option<String>,
    pub description: Option<String>,
}

pub struct MetricSpecModel {
    pub name: Seq<char>,
    pub kind: MetricKind,
    pub unit: Option<Seq<char>>,
    pub description: Option<Seq<char>>,
}

impl DeepView for MetricSpec {
    type V = MetricSpecModel;

    open spec fn deep_view(&self) -> MetricSpecModel {
        MetricSpecModel {
            name: self.name@,
            kind: self.kind,
            unit: self.unit.deep_view(),
            description: self.description.deep_view(),
        }
    }
}

impl Duplicate for MetricSpec {
    fn duplicate(&self) -> (r: Self) {
        MetricSpec {
            name: self.name.clone(),
            kind: self.kind,
            unit: self.unit.duplicate(),
            description: self.description.duplicate(),
        }
    }
}

impl MetricSpec {
    pub fn counter(name: &str, description: &str) -> (r: Self)
        ensures
            r.deep_view() == (MetricSpecModel {
                name: name@,
                kind: MetricKind::Counter,
                unit: None,
                description: Some(description@),
            }),
    {
        MetricSpec {
            name: name.to_owned(),
            kind: MetricKind::Counter,
            unit: None,
            description: Some(description.to_owned()),
        }
    }

    pub fn gauge(name: &str, description: &str) -> (r: Self)
        ensures
            r.deep_view() == (MetricSpecModel {
                name: name@,
                kind: MetricKind::Gauge,
                unit: None,
                description: Some(description@),
            }),
    {
        MetricSpec {
            name: name.to_owned(),
            kind: MetricKind::Gauge,
            unit: None,
            description: Some(description.to_owned()),
        }
    }

    pub fn histogram(name: &str, unit: &str, description: &str) -> (r: Self)
        ensures
            r.deep_view() == (MetricSpecModel {
                name: name@,
                kind: MetricKind::Histogram,
                unit: Some(unit@),
                description: Some(description@),
            }),
    {
        MetricSpec {
            name: name.to_owned(),
            kind: MetricKind::Histogram,
            unit: Some(unit.to_owned()),
            description: Some(description.to_owned()),
        }
    }
}

#[derive(Clone, Debug)]
pub struct Observation {
    pub metric: String,
    pub value: Number,
    pub labels: Labels,
}

pub struct ObservationModel {
    pub metric: Seq<char>,
    pub value: Number,
    pub labels: LabelsModel,
}

impl DeepView for Observation {
    type V = ObservationModel;

    open spec fn deep_view(&self) -> ObservationModel {
        ObservationModel { metric: self.metric@, value: self.value, labels: self.labels@ }
    }
}

#[derive(Clone, Copy, Debug, PartialEq, Eq, PartialOrd, Ord, Structural)]
pub enum LogLevel {
    Debug,
    Info,
    Warn,
    Error,
}

#[derive(Clone, Debug)]
pub enum Event {
    Hello { scenario: String, metrics: Vec<MetricSpec>, params: Value },
    Phase { name: String },
    Observe(Observation),
    Batch { observations: Vec<Observation> },
    Log { level: LogLevel, message: String },
    Done { summary: Value },
    Error { message: String },
}

/// Messages the dashboard writes to an external scenario's stdin.
#[derive(Clone, Copy, Debug, PartialEq, Eq, Structural)]
pub enum Control {
    Stop,
}

impl Control {
    /// The line that carries the message: one JSON object tagged with its type.
    pub fn line(self) -> (r: String)
        ensures
            r@ == "{\"type\":\"stop\"}\n"@,
    {
        match self {
            Control::Stop => "{\"type\":\"stop\"}\n".to_owned(),
        }
    }
}

/// The labels in words: `name=value` pairs in name order, set apart by `sep`.
pub open spec fn joined_labels(labels: LabelsModel, sep: Seq<char>) -> Seq<char>
    decreases labels.len(),
{
    if labels.len() == 0 {
        Seq::empty()
    } else if labels.len() == 1 {
        labels[0].0 + "="@ + labels[0].1
    } else {
        joined_labels(labels.drop_last(), sep) + sep + (labels.last().0 + "="@ + labels.last().1)
    }
}

/// The labels as one string, set apart by `sep`.
pub fn join_labels(labels: &Labels, sep: &str) -> (r: String)
    ensures
        r@ == joined_labels(labels@, sep@),
{
    let mut out = String::new();
    let mut i: usize = 0;
    while i < labels.len()
        invariant
            i <= labels@.len(),
            out@ == joined_labels(labels@.take(i as int), sep@),
        decreases labels@.len() - i,
    {
        let ghost before = out@;
        if i > 0 {
            out.append(sep);
        }
        let mut pair = labels.key(i).clone();
        pair.append("=");
        pair.append(labels.value(i).as_str());
        out.append(pair.as_str());
        proof {
            let next = labels@.take(i + 1);
            assert(next.drop_last() =~= labels@.take(i as int));
            assert(next.last() == labels@[i as int]);
            if i == 0 {
                assert(out@ =~= joined_labels(next, sep@));
            }
        }
        i = i + 1;
    }
    assert(labels@.take(i as int) =~= labels@);
    out
}

/// The key of a label set in breakdowns; no labels have none.
pub open spec fn label_key_spec(labels: LabelsModel) -> Option<Seq<char>> {
    if labels.len() == 0 {
        None
    } else {
        Some(row_key(labels))
    }
}

/// The key of a label set in breakdowns; no labels have none.
pub fn label_key(labels: &Labels) -> (r: Option<String>)
    ensures
        r.deep_view() == label_key_spec(labels@),
{
    if labels.is_empty() {
        None
    } else {
        Some(row_of(labels))
    }
}

} // verus!
