//! The list of run configs to choose from.

use vstd::prelude::*;
use crate::config::{LoadedRun, LoadedRunModel};
use crate::doc::{ink, Doc};
use crate::metrics::{or_blank, or_empty};
use crate::ui::{entry, entry_of, in_color, span, span_of, Color, Entry, EntryModel, Span, SpanModel, Style};

verus! {

/// The entry of a run: its name and scenario, and its description and path.
pub open spec fn run_entry(run: LoadedRunModel, chosen: bool) -> EntryModel {
    entry_of(
        ink(" "@) + ink(run.config.name) + ink("  ["@) + ink(run.config.scenario) + ink("]"@),
        ink("   "@) + ink(or_empty(run.config.description)) + ink("  ("@) + ink(run.path) + ink(")"@),
        chosen,
    )
}

pub open spec fn run_entries(runs: Seq<LoadedRunModel>, selected: usize) -> Seq<EntryModel> {
    Seq::new(runs.len(), |i: int| run_entry(runs[i], i == selected))
}

/// The entries of the list.
pub fn entries(runs: &[LoadedRun], selected: usize) -> (r: Vec<Entry>)
    ensures
        r.deep_view() == run_entries(runs.deep_view(), selected),
{
    let mut out: Vec<Entry> = Vec::new();
    let mut i: usize = 0;
    while i < runs.len()
        invariant
            i <= runs@.len(),
            out@.len() == i,
            forall|j: int| 0 <= j < i ==> (#[trigger] out@[j]).deep_view() == run_entry(runs@[j].deep_view(), j == selected),
        decreases runs@.len() - i,
    {
        let run = &runs[i];
        let mut title = Doc::of(" ");
        title.text(run.config.name.as_str());
        title.text("  [");
        title.text(run.config.scenario.as_str());
        title.text("]");
        let mut detail = Doc::of("   ");
        detail.text(or_blank(&run.config.description));
        detail.text("  (");
        detail.text(run.path.as_str());
        detail.text(")");
        out.push(entry(title, detail, i == selected));
        i = i + 1;
    }
    assert(out.deep_view() =~= run_entries(runs.deep_view(), selected));
    out
}

/// The line under the list: what went wrong last, or which keys there are.
pub open spec fn hint_of(error: Option<Seq<char>>) -> SpanModel {
    match error {
        Some(e) => span_of(e, in_color(Color::Red)),
        None => span_of("enter run   ↑↓ select   q quit"@, in_color(Color::DarkGray)),
    }
}

pub fn hint(error: &Option<String>) -> (r: Span)
    ensures
        r.deep_view() == hint_of(error.deep_view()),
{
    match error {
        Some(e) => span(e.as_str(), Style { fg: Some(Color::Red), bg: None, bold: false }),
        None => span(
            "enter run   ↑↓ select   q quit",
            Style { fg: Some(Color::DarkGray), bg: None, bold: false },
        ),
    }
}

} // verus!
