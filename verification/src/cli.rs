//! Decisions of the command line that every binary shares: the list of configs, what is printed
//! at the end, and what is refused.

use vstd::prelude::*;
use crate::doc::{ink, Doc, Glyph};
use crate::render::{phases_in_time, render_text, text_report};
use crate::report::RunSummaryModel;
use crate::runner::{Key, RunOutcome};
use crate::text::{filled, filled_text};

verus! {

/// What is printed of a run that has ended: its report, and where its files are.
pub open spec fn outcome_ink(
    summary: RunSummaryModel,
    summary_path: Seq<char>,
    markdown_path: Seq<char>,
    events_path: Seq<char>,
) -> Seq<Glyph> {
    text_report(summary) + ink("\nsummary:  "@) + ink(summary_path) + ink("\nmarkdown: "@) + ink(markdown_path) + ink(
        "\nevents:   "@,
    ) + ink(events_path) + ink("\n"@)
}

/// What is printed of a run that has ended.
pub fn finish(outcome: &RunOutcome) -> (r: Doc)
    requires
        phases_in_time(outcome.summary.deep_view().phases),
    ensures
        r@ == outcome_ink(
            outcome.summary.deep_view(),
            outcome.summary_path@,
            outcome.markdown_path@,
            outcome.events_path@,
        ),
{
    let mut out = render_text(&outcome.summary);
    out.text("\nsummary:  ");
    out.text(outcome.summary_path.as_str());
    out.text("\nmarkdown: ");
    out.text(outcome.markdown_path.as_str());
    out.text("\nevents:   ");
    out.text(outcome.events_path.as_str());
    out.text("\n");
    out
}

/// A scenario in the list of scenarios.
pub fn scenario_line(id: &str, description: &str) -> (r: String)
    ensures
        r@ == filled(id@, 28) + " "@ + description@,
{
    let mut out = filled_text(id, 28);
    out.append(" ");
    out.append(description);
    out
}

/// A report needs a summary.
pub fn check_summaries(summaries: usize) -> (r: Result<(), String>)
    ensures
        match r {
            Ok(_) => summaries > 0,
            Err(e) => summaries == 0 && e@ == "pass at least one *.summary.json"@,
        },
{
    if summaries == 0 {
        Err("pass at least one *.summary.json".to_owned())
    } else {
        Ok(())
    }
}

/// The list of configs to choose from needs a config.
pub fn check_runs(runs: usize, dir: &str) -> (r: Result<(), String>)
    ensures
        match r {
            Ok(_) => runs > 0,
            Err(e) => runs == 0 && e@ == "no run configs found in "@ + dir@,
        },
{
    if runs == 0 {
        let mut text = "no run configs found in ".to_owned();
        text.append(dir);
        Err(text)
    } else {
        Ok(())
    }
}

/// What is left to do for the caller after a key in the list.
#[derive(Clone, Copy, Debug, PartialEq, Eq, Structural)]
pub enum Choice {
    Stay,
    /// Run the selected config.
    Run,
    Leave,
}

/// The list of configs, with one of them selected.
pub struct Picker {
    pub runs: usize,
    pub selected: usize,
    /// Why the last run could not be started.
    pub error: Option<String>,
    /// What is printed at the end.
    pub last_text: Option<Doc>,
}

#[verifier::ext_equal]
pub struct PickerModel {
    pub runs: usize,
    pub selected: usize,
    pub error: Option<Seq<char>>,
    pub last_text: Option<Seq<Glyph>>,
}

impl DeepView for Picker {
    type V = PickerModel;

    open spec fn deep_view(&self) -> PickerModel {
        PickerModel {
            runs: self.runs,
            selected: self.selected,
            error: self.error.deep_view(),
            last_text: self.last_text.deep_view(),
        }
    }
}

/// One of the configs is selected.
pub open spec fn chosen(p: PickerModel) -> bool {
    p.selected < p.runs
}

/// What a key does to the list: the arrows go round.
pub open spec fn picked(p: PickerModel, key: Key) -> (PickerModel, Choice) {
    let above = PickerModel {
        selected: (if p.selected == 0 {
            p.runs - 1
        } else {
            p.selected - 1
        }) as usize,
        ..p
    };
    let below = PickerModel {
        selected: (if p.selected + 1 == p.runs {
            0
        } else {
            p.selected + 1
        }) as usize,
        ..p
    };
    match key {
        Key::Char(c) => if c == 'q' {
            (p, Choice::Leave)
        } else if c == 'k' {
            (above, Choice::Stay)
        } else if c == 'j' {
            (below, Choice::Stay)
        } else {
            (p, Choice::Stay)
        },
        Key::Escape => (p, Choice::Leave),
        Key::Up => (above, Choice::Stay),
        Key::Down => (below, Choice::Stay),
        Key::Enter => (p, Choice::Run),
        _ => (p, Choice::Stay),
    }
}

impl Picker {
    pub fn new(runs: usize) -> (r: Picker)
        ensures
            r.deep_view() == (PickerModel { runs, selected: 0, error: None, last_text: None }),
            runs > 0 ==> chosen(r.deep_view()),
    {
        Picker { runs, selected: 0, error: None, last_text: None }
    }

    fn up(&mut self)
        requires
            chosen(old(self).deep_view()),
        ensures
            final(self).deep_view() == picked(old(self).deep_view(), Key::Up).0,
    {
        self.selected = if self.selected == 0 {
            self.runs - 1
        } else {
            self.selected - 1
        };
    }

    fn down(&mut self)
        requires
            chosen(old(self).deep_view()),
        ensures
            final(self).deep_view() == picked(old(self).deep_view(), Key::Down).0,
    {
        self.selected = if self.selected + 1 == self.runs {
            0
        } else {
            self.selected + 1
        };
    }

    pub fn press(&mut self, key: Key) -> (r: Choice)
        requires
            chosen(old(self).deep_view()),
        ensures
            (final(self).deep_view(), r) == picked(old(self).deep_view(), key),
            chosen(final(self).deep_view()),
    {
        match key {
            Key::Char(c) => {
                if c == 'q' {
                    return Choice::Leave;
                }
                if c == 'k' {
                    self.up();
                } else if c == 'j' {
                    self.down();
                }
                Choice::Stay
            },
            Key::Escape => Choice::Leave,
            Key::Up => {
                self.up();
                Choice::Stay
            },
            Key::Down => {
                self.down();
                Choice::Stay
            },
            Key::Enter => Choice::Run,
            _ => Choice::Stay,
        }
    }

    /// Takes in how a run went: its report is printed at the end, or its error shown.
    pub fn ran(&mut self, result: Result<Doc, String>)
        ensures
            final(self).deep_view() == (match result {
                Ok(text) => PickerModel { error: None, last_text: Some(text@), ..old(self).deep_view() },
                Err(e) => PickerModel { error: Some(e@), ..old(self).deep_view() },
            }),
    {
        match result {
            Ok(text) => {
                self.last_text = Some(text);
                self.error = None;
            },
            Err(e) => self.error = Some(e),
        }
    }
}

} // verus!
