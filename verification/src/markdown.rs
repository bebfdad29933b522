//! Team-facing Markdown: verdicts first, then per-phase tables, then raw metric summaries.

use vstd::prelude::*;
use crate::doc::{
    concat, count_ink, fmt_num, ink, join_docs, joined, lemma_concat_ends, lemma_concat_step, num_ink, Doc, Glyph,
};
use crate::json::{json_is_null, json_pretty, json_pretty_text};
use crate::metrics::{or_blank, or_empty, Percentiles, PhaseSummary, PhaseSummaryModel};
use crate::number::{zero, Number};
use crate::render::{lasted, or_number, phases_in_time, put_label_value, number_or, label_value_ink, phase_length};
use crate::report::{LabelValueModel, MetricSummary, MetricSummaryModel, RunSummary, RunSummaryModel};
use crate::sorted::{lookup, SortedMap};
use crate::text::{after_last, behind_last, str_same};
use crate::verdict::{rule_text, Check, CheckModel, PhaseVerdict, PhaseVerdictModel, Threshold, ThresholdModel};

verus! {

/// A number, or a dash where there is none.
pub open spec fn md_number(v: Option<Number>) -> Seq<Glyph> {
    match v {
        Some(n) => num_ink(n),
        None => ink("–"@),
    }
}

pub fn md_num(v: Option<Number>) -> (r: Doc)
    ensures
        r@ == md_number(v),
{
    match v {
        Some(n) => fmt_num(n),
        None => Doc::of("–"),
    }
}

/// A histogram in one cell.
pub open spec fn md_percentiles(p: Percentiles, unit: Seq<char>) -> Seq<Glyph> {
    ink("n="@) + count_ink(p.count) + ink(" · p50 "@) + num_ink(p.p50) + ink(unit) + ink(" · p95 "@) + num_ink(p.p95)
        + ink(unit) + ink(" · p99 "@) + num_ink(p.p99) + ink(unit) + ink(" · max "@) + num_ink(p.max) + ink(unit)
}

pub fn md_hist(p: &Percentiles, unit: &str) -> (r: Doc)
    ensures
        r@ == md_percentiles(*p, unit@),
{
    let mut out = Doc::of("n=");
    out.count(p.count);
    out.text(" · p50 ");
    out.append(&fmt_num(p.p50));
    out.text(unit);
    out.text(" · p95 ");
    out.append(&fmt_num(p.p95));
    out.text(unit);
    out.text(" · p99 ");
    out.append(&fmt_num(p.p99));
    out.text(unit);
    out.text(" · max ");
    out.append(&fmt_num(p.max));
    out.text(unit);
    out
}

/// The title, the description and the table of the run's outline.
pub open spec fn md_head(s: RunSummaryModel) -> Seq<Glyph> {
    ink("## "@) + ink(s.run) + ink("\n\n"@) + (match s.description {
        Some(d) => ink(d) + ink("\n\n"@),
        None => Seq::empty(),
    }) + ink("| | |\n|---|---|\n| scenario | `"@) + ink(s.scenario) + ink("` |\n| started | "@) + ink(s.started_at)
        + ink(" |\n| duration | "@) + count_ink(s.duration_seconds) + ink("s |\n| status | "@) + ink(s.status) + ink(
        " |\n"@,
    ) + (match s.verdicts.overall {
        Some(o) => ink("| verdict | **"@) + ink(
            match o.pass {
                Some(true) => "✅ PASS"@,
                Some(false) => "❌ FAIL"@,
                None => "– not judged"@,
            },
        ) + ink("** |\n| ceiling | **"@) + ink(
            match s.verdicts.ceiling {
                Some(c) => c,
                None => "none passed"@,
            },
        ) + ink("** |\n"@) + (match s.verdicts.first_failure {
            Some(f) => ink("| first failure | "@) + ink(f) + ink(" |\n"@),
            None => Seq::empty(),
        }),
        None => Seq::empty(),
    }) + ink("\n"@)
}

fn head_doc(s: &RunSummary) -> (r: Doc)
    ensures
        r@ == md_head(s.deep_view()),
{
    let mut out = Doc::of("## ");
    out.text(s.run.as_str());
    out.text("\n\n");
    let description = match &s.description {
        Some(d) => {
            let mut one = Doc::of(d.as_str());
            one.text("\n\n");
            one
        },
        None => Doc::new(),
    };
    out.append(&description);
    out.text("| | |\n|---|---|\n| scenario | `");
    out.text(s.scenario.as_str());
    out.text("` |\n| started | ");
    out.text(s.started_at.as_str());
    out.text(" |\n| duration | ");
    out.count(s.duration_seconds);
    out.text("s |\n| status | ");
    out.text(s.status.as_str());
    out.text(" |\n");
    let verdict = match &s.verdicts.overall {
        Some(o) => {
            let mut one = Doc::of("| verdict | **");
            one.text(
                match o.pass {
                    Some(true) => "✅ PASS",
                    Some(false) => "❌ FAIL",
                    None => "– not judged",
                },
            );
            one.text("** |\n| ceiling | **");
            one.text(
                match &s.verdicts.ceiling {
                    Some(c) => c.as_str(),
                    None => "none passed",
                },
            );
            one.text("** |\n");
            let failure = match &s.verdicts.first_failure {
                Some(f) => {
                    let mut row = Doc::of("| first failure | ");
                    row.text(f.as_str());
                    row.text(" |\n");
                    row
                },
                None => Doc::new(),
            };
            one.append(&failure);
            one
        },
        None => Doc::new(),
    };
    out.append(&verdict);
    out.text("\n");
    out
}

/// The first check of a rule.
pub open spec fn find_check(checks: Seq<CheckModel>, rule: Seq<char>) -> Option<CheckModel>
    decreases checks.len(),
{
    if checks.len() == 0 {
        None
    } else if find_check(checks.drop_last(), rule) is Some {
        find_check(checks.drop_last(), rule)
    } else if checks.last().rule == rule {
        Some(checks.last())
    } else {
        None
    }
}

/// A check in one cell: skipped, without data, or passed or failed with its value.
pub open spec fn md_check(c: Option<CheckModel>) -> Seq<Glyph> {
    match c {
        None => ink("skip"@),
        Some(c) => if c.value is None {
            ink("–"@)
        } else {
            ink(
                if c.pass {
                    "✅ "@
                } else {
                    "❌ "@
                },
            ) + md_number(c.value)
        },
    }
}

/// The cell of a rule among some checks, with the mark that ends a cell.
pub open spec fn check_cell(checks: Seq<CheckModel>, rule: Seq<char>) -> Seq<Glyph> {
    md_check(find_check(checks, rule)) + ink(" | "@)
}

fn check_doc(checks: &Vec<Check>, rule: &str) -> (r: Doc)
    ensures
        r@ == check_cell(checks.deep_view(), rule@),
{
    let ghost cs = checks.deep_view();
    let mut found: Option<usize> = None;
    let mut i: usize = 0;
    assert(cs.take(0) =~= Seq::<CheckModel>::empty());
    while i < checks.len()
        invariant
            i <= checks@.len(),
            cs == checks.deep_view(),
            match found {
                Some(k) => k < checks@.len() && find_check(cs.take(i as int), rule@) == Some(cs[k as int]),
                None => find_check(cs.take(i as int), rule@) is None,
            },
        decreases checks@.len() - i,
    {
        proof {
            assert(cs.take(i + 1).drop_last() =~= cs.take(i as int));
            assert(cs.take(i + 1).last() == checks@[i as int].deep_view());
        }
        if found.is_none() && str_same(checks[i].rule.as_str(), rule) {
            found = Some(i);
        }
        i = i + 1;
    }
    assert(cs.take(i as int) =~= cs);
    let mut out = match found {
        None => Doc::of("skip"),
        Some(k) => {
            let c = &checks[k];
            assert(cs[k as int] == c.deep_view());
            if c.value.is_none() {
                Doc::of("–")
            } else {
                let mut one = Doc::of(if c.pass { "✅ " } else { "❌ " });
                one.append(&md_num(c.value));
                one
            }
        },
    };
    out.text(" | ");
    out
}

pub open spec fn phase_titles(vs: Seq<PhaseVerdictModel>) -> Seq<Seq<Glyph>> {
    Seq::new(vs.len(), |i: int| ink(vs[i].phase) + ink(" | "@))
}

/// So many column rules.
pub open spec fn column_rules(n: nat) -> Seq<Seq<Glyph>> {
    Seq::new(n, |i: int| ink("---|"@))
}

fn rules_doc(n: usize) -> (r: Doc)
    ensures
        r@ == concat(column_rules(n as nat)),
{
    let ghost parts = column_rules(n as nat);
    let mut out = Doc::new();
    let ghost base = out@;
    let mut i: usize = 0;
    proof {
        lemma_concat_ends(base, parts);
    }
    while i < n
        invariant
            i <= n == parts.len(),
            parts == column_rules(n as nat),
            out@ == base + concat(parts.take(i as int)),
        decreases n - i,
    {
        proof {
            lemma_concat_step(base, parts, i as int);
        }
        out.text("---|");
        i = i + 1;
    }
    proof {
        lemma_concat_ends(base, parts);
        assert(base + concat(parts) =~= concat(parts));
    }
    out
}

pub open spec fn rule_cells(vs: Seq<PhaseVerdictModel>, rule: Seq<char>) -> Seq<Seq<Glyph>> {
    Seq::new(vs.len(), |i: int| check_cell(vs[i].checks, rule))
}

/// The row of a threshold: its rule, how it came out overall, and in each phase.
pub open spec fn rule_row(s: RunSummaryModel, t: ThresholdModel) -> Seq<Glyph> {
    ink("| `"@) + ink(rule_text(t)) + ink("` | "@) + check_cell(
        match s.verdicts.overall {
            Some(o) => o.checks,
            None => Seq::empty(),
        },
        rule_text(t),
    ) + concat(rule_cells(s.verdicts.phases, rule_text(t))) + ink("\n"@)
}

fn rule_doc(s: &RunSummary, t: &Threshold) -> (r: Doc)
    ensures
        r@ == rule_row(s.deep_view(), t.deep_view()),
{
    let rule = t.describe();
    let mut out = Doc::of("| `");
    out.text(rule.as_str());
    out.text("` | ");
    match &s.verdicts.overall {
        Some(o) => out.append(&check_doc(&o.checks, rule.as_str())),
        None => {
            let none: Vec<Check> = Vec::new();
            assert(none.deep_view() =~= Seq::<CheckModel>::empty());
            out.append(&check_doc(&none, rule.as_str()));
        },
    }
    let vs = &s.verdicts.phases;
    let ghost parts = rule_cells(vs.deep_view(), rule@);
    let ghost base = out@;
    let mut i: usize = 0;
    proof {
        lemma_concat_ends(base, parts);
    }
    while i < vs.len()
        invariant
            i <= vs@.len() == parts.len(),
            parts == rule_cells(vs.deep_view(), rule@),
            out@ == base + concat(parts.take(i as int)),
        decreases vs@.len() - i,
    {
        proof {
            lemma_concat_step(base, parts, i as int);
            assert(vs.deep_view()[i as int].checks == vs@[i as int].checks.deep_view());
        }
        out.append(&check_doc(&vs[i].checks, rule.as_str()));
        i = i + 1;
    }
    proof {
        lemma_concat_ends(base, parts);
    }
    out.text("\n");
    out
}

pub open spec fn rule_rows(s: RunSummaryModel) -> Seq<Seq<Glyph>> {
    Seq::new(s.thresholds.len(), |i: int| rule_row(s, s.thresholds[i]))
}

/// The table of thresholds.
pub open spec fn md_thresholds(s: RunSummaryModel) -> Seq<Glyph> {
    if s.thresholds.len() == 0 {
        Seq::empty()
    } else {
        ink("### Thresholds\n\n| rule | overall | "@) + concat(phase_titles(s.verdicts.phases)) + ink("\n|---|---|"@)
            + concat(column_rules(s.verdicts.phases.len())) + ink("\n"@) + concat(rule_rows(s)) + ink("\n"@)
    }
}

fn titles_doc(vs: &Vec<PhaseVerdict>) -> (r: Doc)
    ensures
        r@ == concat(phase_titles(vs.deep_view())),
{
    let ghost parts = phase_titles(vs.deep_view());
    let mut out = Doc::new();
    let ghost base = out@;
    let mut i: usize = 0;
    proof {
        lemma_concat_ends(base, parts);
    }
    while i < vs.len()
        invariant
            i <= vs@.len() == parts.len(),
            parts == phase_titles(vs.deep_view()),
            out@ == base + concat(parts.take(i as int)),
        decreases vs@.len() - i,
    {
        let mut one = Doc::of(vs[i].phase.as_str());
        one.text(" | ");
        proof {
            lemma_concat_step(base, parts, i as int);
            assert(one@ == parts[i as int]);
        }
        out.append(&one);
        i = i + 1;
    }
    proof {
        lemma_concat_ends(base, parts);
        assert(base + concat(parts) =~= concat(parts));
    }
    out
}

fn rules_table(s: &RunSummary) -> (r: Doc)
    ensures
        r@ == concat(rule_rows(s.deep_view())),
{
    let ghost parts = rule_rows(s.deep_view());
    let mut out = Doc::new();
    let ghost base = out@;
    let mut i: usize = 0;
    proof {
        lemma_concat_ends(base, parts);
    }
    while i < s.thresholds.len()
        invariant
            i <= s.thresholds@.len() == parts.len(),
            parts == rule_rows(s.deep_view()),
            out@ == base + concat(parts.take(i as int)),
        decreases s.thresholds@.len() - i,
    {
        proof {
            lemma_concat_step(base, parts, i as int);
            assert(s.deep_view().thresholds[i as int] == s.thresholds@[i as int].deep_view());
        }
        out.append(&rule_doc(s, &s.thresholds[i]));
        i = i + 1;
    }
    proof {
        lemma_concat_ends(base, parts);
        assert(base + concat(parts) =~= concat(parts));
    }
    out
}

fn thresholds_doc(s: &RunSummary) -> (r: Doc)
    ensures
        r@ == md_thresholds(s.deep_view()),
{
    if s.thresholds.len() == 0 {
        return Doc::new();
    }
    let mut out = Doc::of("### Thresholds\n\n| rule | overall | ");
    out.append(&titles_doc(&s.verdicts.phases));
    out.text("\n|---|---|");
    out.append(&rules_doc(s.verdicts.phases.len()));
    out.text("\n");
    out.append(&rules_table(s));
    out.text("\n");
    out
}

/// The metrics of a kind, in name order.
pub open spec fn names_of_kind(ms: Seq<(Seq<char>, MetricSummaryModel)>, kind: Seq<char>) -> Seq<Seq<char>>
    decreases ms.len(),
{
    if ms.len() == 0 {
        Seq::empty()
    } else {
        let rest = names_of_kind(ms.drop_last(), kind);
        if ms.last().1.kind == kind {
            rest.push(ms.last().0)
        } else {
            rest
        }
    }
}

fn kind_names(ms: &SortedMap<MetricSummary>, kind: &str) -> (r: Vec<String>)
    ensures
        r.deep_view() == names_of_kind(ms@, kind@),
{
    let mut out: Vec<String> = Vec::new();
    let mut i: usize = 0;
    assert(ms@.take(0) =~= Seq::<(Seq<char>, MetricSummaryModel)>::empty());
    assert(out.deep_view() =~= Seq::<Seq<char>>::empty());
    while i < ms.len()
        invariant
            i <= ms@.len(),
            out.deep_view() == names_of_kind(ms@.take(i as int), kind@),
        decreases ms@.len() - i,
    {
        proof {
            assert(ms@.take(i + 1).drop_last() =~= ms@.take(i as int));
            assert(ms@.take(i + 1).last() == ms@[i as int]);
        }
        if str_same(ms.value(i).kind.as_str(), kind) {
            let ghost before = out.deep_view();
            out.push(ms.key(i).clone());
            assert(out.deep_view() =~= before.push(ms@[i as int].0));
        }
        i = i + 1;
    }
    assert(ms@.take(i as int) =~= ms@);
    out
}

pub open spec fn title_cells(names: Seq<Seq<char>>, mark: Seq<char>) -> Seq<Seq<Glyph>> {
    Seq::new(names.len(), |i: int| ink(names[i]) + ink(mark))
}

fn title_doc(names: &Vec<String>, mark: &str) -> (r: Doc)
    ensures
        r@ == concat(title_cells(names.deep_view(), mark@)),
{
    let ghost parts = title_cells(names.deep_view(), mark@);
    let mut out = Doc::new();
    let ghost base = out@;
    let mut i: usize = 0;
    proof {
        lemma_concat_ends(base, parts);
    }
    while i < names.len()
        invariant
            i <= names@.len() == parts.len(),
            parts == title_cells(names.deep_view(), mark@),
            out@ == base + concat(parts.take(i as int)),
        decreases names@.len() - i,
    {
        let mut one = Doc::of(names[i].as_str());
        one.text(mark);
        proof {
            lemma_concat_step(base, parts, i as int);
            assert(one@ == parts[i as int]);
        }
        out.append(&one);
        i = i + 1;
    }
    proof {
        lemma_concat_ends(base, parts);
        assert(base + concat(parts) =~= concat(parts));
    }
    out
}

/// A breakdown entry with the label's value as its name.
pub open spec fn short_count(e: (Seq<char>, Number)) -> Seq<Glyph> {
    ink(behind_last(e.0, '=')) + ink(":"@) + num_ink(e.1)
}

pub open spec fn short_counts(m: Seq<(Seq<char>, Number)>) -> Seq<Seq<Glyph>> {
    Seq::new(m.len(), |i: int| short_count(m[i]))
}

/// A counter of a phase: its total, and its breakdown where it has one.
pub open spec fn counter_cell(p: PhaseSummaryModel, name: Seq<char>) -> Seq<Glyph> {
    num_ink(or_number(lookup(p.counters, name), zero(false))) + (match lookup(p.counter_labels, name) {
        Some(m) => if m.len() == 0 {
            Seq::empty()
        } else {
            ink(" ("@) + joined(short_counts(m), ", "@) + ink(")"@)
        },
        None => Seq::empty(),
    }) + ink(" | "@)
}

fn short_counts_doc(m: &SortedMap<Number>) -> (r: Doc)
    ensures
        r@ == joined(short_counts(m@), ", "@),
{
    let ghost parts = short_counts(m@);
    let mut docs: Vec<Doc> = Vec::new();
    let mut i: usize = 0;
    while i < m.len()
        invariant
            i <= m@.len(),
            parts == short_counts(m@),
            docs@.len() == i,
            forall|j: int| 0 <= j < i ==> (#[trigger] docs@[j])@ == parts[j],
        decreases m@.len() - i,
    {
        let mut one = Doc::of(after_last(m.key(i).as_str(), '=').as_str());
        one.text(":");
        one.append(&fmt_num(*m.value(i)));
        docs.push(one);
        i = i + 1;
    }
    assert(docs.deep_view() =~= parts);
    join_docs(&docs, ", ")
}

fn counter_doc(p: &PhaseSummary, name: &str) -> (r: Doc)
    ensures
        r@ == counter_cell(p.deep_view(), name@),
{
    let total: Number = match p.counters.get(name) {
        Some(v) => *v,
        None => Number { bits: 0 },
    };
    let mut out = fmt_num(total);
    let labels = match p.counter_labels.get(name) {
        Some(m) => if m.is_empty() {
            Doc::new()
        } else {
            let mut one = Doc::of(" (");
            one.append(&short_counts_doc(m));
            one.text(")");
            one
        },
        None => Doc::new(),
    };
    out.append(&labels);
    out.text(" | ");
    out
}

/// The unit of a metric, where it has one.
pub open spec fn unit_of(ms: Seq<(Seq<char>, MetricSummaryModel)>, name: Seq<char>) -> Seq<char> {
    match lookup(ms, name) {
        Some(m) => or_empty(m.unit),
        None => ""@,
    }
}

/// A histogram of a phase, or a dash.
pub open spec fn hist_cell(p: PhaseSummaryModel, name: Seq<char>, unit: Seq<char>) -> Seq<Glyph> {
    (match lookup(p.histograms, name) {
        Some(h) => md_percentiles(h, unit),
        None => ink("–"@),
    }) + ink(" | "@)
}

fn hist_doc(p: &PhaseSummary, name: &str, unit: &str) -> (r: Doc)
    ensures
        r@ == hist_cell(p.deep_view(), name@, unit@),
{
    let mut out = match p.histograms.get(name) {
        Some(h) => md_hist(h, unit),
        None => Doc::of("–"),
    };
    out.text(" | ");
    out
}

/// A gauge of a phase: its maximum and its slope with its sign, or a dash.
pub open spec fn gauge_cell(p: PhaseSummaryModel, name: Seq<char>) -> Seq<Glyph> {
    (match lookup(p.gauges, name) {
        Some(g) => num_ink(g.max) + ink(" / "@) + ink(
            if zero(false).below(g.slope) {
                "+"@
            } else {
                ""@
            },
        ) + num_ink(g.slope),
        None => ink("–"@),
    }) + ink(" | "@)
}

fn gauge_doc(p: &PhaseSummary, name: &str) -> (r: Doc)
    ensures
        r@ == gauge_cell(p.deep_view(), name@),
{
    let mut out = match p.gauges.get(name) {
        Some(g) => {
            let mut one = fmt_num(g.max);
            one.text(" / ");
            one.text(if (Number { bits: 0 }).lt(g.slope) { "+" } else { "" });
            one.append(&fmt_num(g.slope));
            one
        },
        None => Doc::of("–"),
    };
    out.text(" | ");
    out
}

pub open spec fn counter_cells(p: PhaseSummaryModel, names: Seq<Seq<char>>) -> Seq<Seq<Glyph>> {
    Seq::new(names.len(), |i: int| counter_cell(p, names[i]))
}

pub open spec fn hist_cells(
    ms: Seq<(Seq<char>, MetricSummaryModel)>,
    p: PhaseSummaryModel,
    names: Seq<Seq<char>>,
) -> Seq<Seq<Glyph>> {
    Seq::new(names.len(), |i: int| hist_cell(p, names[i], unit_of(ms, names[i])))
}

pub open spec fn gauge_cells(p: PhaseSummaryModel, names: Seq<Seq<char>>) -> Seq<Seq<Glyph>> {
    Seq::new(names.len(), |i: int| gauge_cell(p, names[i]))
}

/// The row of a phase.
pub open spec fn phase_row(s: RunSummaryModel, p: PhaseSummaryModel) -> Seq<Glyph> {
    ink("| "@) + ink(p.name) + ink(" | "@) + count_ink(lasted(p, s.duration_seconds)) + ink("s | "@) + concat(
        counter_cells(p, names_of_kind(s.metrics, "counter"@)),
    ) + concat(hist_cells(s.metrics, p, names_of_kind(s.metrics, "histogram"@))) + concat(
        gauge_cells(p, names_of_kind(s.metrics, "gauge"@)),
    ) + ink("\n"@)
}

fn counter_cells_doc(p: &PhaseSummary, names: &Vec<String>) -> (r: Doc)
    ensures
        r@ == concat(counter_cells(p.deep_view(), names.deep_view())),
{
    let ghost parts = counter_cells(p.deep_view(), names.deep_view());
    let mut out = Doc::new();
    let ghost base = out@;
    let mut i: usize = 0;
    proof {
        lemma_concat_ends(base, parts);
    }
    while i < names.len()
        invariant
            i <= names@.len() == parts.len(),
            parts == counter_cells(p.deep_view(), names.deep_view()),
            out@ == base + concat(parts.take(i as int)),
        decreases names@.len() - i,
    {
        proof {
            lemma_concat_step(base, parts, i as int);
        }
        out.append(&counter_doc(p, names[i].as_str()));
        i = i + 1;
    }
    proof {
        lemma_concat_ends(base, parts);
        assert(base + concat(parts) =~= concat(parts));
    }
    out
}

fn hist_cells_doc(ms: &SortedMap<MetricSummary>, p: &PhaseSummary, names: &Vec<String>) -> (r: Doc)
    ensures
        r@ == concat(hist_cells(ms@, p.deep_view(), names.deep_view())),
{
    let ghost parts = hist_cells(ms@, p.deep_view(), names.deep_view());
    let mut out = Doc::new();
    let ghost base = out@;
    let mut i: usize = 0;
    proof {
        lemma_concat_ends(base, parts);
    }
    while i < names.len()
        invariant
            i <= names@.len() == parts.len(),
            parts == hist_cells(ms@, p.deep_view(), names.deep_view()),
            out@ == base + concat(parts.take(i as int)),
        decreases names@.len() - i,
    {
        proof {
            lemma_concat_step(base, parts, i as int);
        }
        let name = names[i].as_str();
        let unit = match ms.get(name) {
            Some(m) => or_blank(&m.unit),
            None => "",
        };
        out.append(&hist_doc(p, name, unit));
        i = i + 1;
    }
    proof {
        lemma_concat_ends(base, parts);
        assert(base + concat(parts) =~= concat(parts));
    }
    out
}

fn gauge_cells_doc(p: &PhaseSummary, names: &Vec<String>) -> (r: Doc)
    ensures
        r@ == concat(gauge_cells(p.deep_view(), names.deep_view())),
{
    let ghost parts = gauge_cells(p.deep_view(), names.deep_view());
    let mut out = Doc::new();
    let ghost base = out@;
    let mut i: usize = 0;
    proof {
        lemma_concat_ends(base, parts);
    }
    while i < names.len()
        invariant
            i <= names@.len() == parts.len(),
            parts == gauge_cells(p.deep_view(), names.deep_view()),
            out@ == base + concat(parts.take(i as int)),
        decreases names@.len() - i,
    {
        proof {
            lemma_concat_step(base, parts, i as int);
        }
        out.append(&gauge_doc(p, names[i].as_str()));
        i = i + 1;
    }
    proof {
        lemma_concat_ends(base, parts);
        assert(base + concat(parts) =~= concat(parts));
    }
    out
}

pub open spec fn phase_rows(s: RunSummaryModel) -> Seq<Seq<Glyph>> {
    Seq::new(s.phases.len(), |i: int| phase_row(s, s.phases[i]))
}

/// The table of phases.
pub open spec fn md_phases(s: RunSummaryModel) -> Seq<Glyph> {
    let counters = names_of_kind(s.metrics, "counter"@);
    let hists = names_of_kind(s.metrics, "histogram"@);
    let gauges = names_of_kind(s.metrics, "gauge"@);
    if s.phases.len() == 0 {
        Seq::empty()
    } else {
        ink("### Phases\n\n| phase | duration | "@) + concat(title_cells(counters, " | "@)) + concat(
            title_cells(hists, " | "@),
        ) + concat(title_cells(gauges, " (max / slope) | "@)) + ink("\n|---|---|"@) + concat(
            column_rules(counters.len()),
        ) + concat(column_rules(hists.len())) + concat(column_rules(gauges.len())) + ink("\n"@) + concat(phase_rows(s))
            + ink("\n"@)
    }
}

fn phase_row_doc(
    s: &RunSummary,
    p: &PhaseSummary,
    counters: &Vec<String>,
    hists: &Vec<String>,
    gauges: &Vec<String>,
) -> (r: Doc)
    requires
        p.end_second is Some ==> p.start_second <= p.end_second->0,
        counters.deep_view() == names_of_kind(s.metrics@, "counter"@),
        hists.deep_view() == names_of_kind(s.metrics@, "histogram"@),
        gauges.deep_view() == names_of_kind(s.metrics@, "gauge"@),
    ensures
        r@ == phase_row(s.deep_view(), p.deep_view()),
{
    let mut out = Doc::of("| ");
    out.text(p.name.as_str());
    out.text(" | ");
    out.count(phase_length(p, s.duration_seconds));
    out.text("s | ");
    out.append(&counter_cells_doc(p, counters));
    out.append(&hist_cells_doc(&s.metrics, p, hists));
    out.append(&gauge_cells_doc(p, gauges));
    out.text("\n");
    out
}

fn phases_table(s: &RunSummary) -> (r: Doc)
    requires
        phases_in_time(s.deep_view().phases),
    ensures
        r@ == md_phases(s.deep_view()),
{
    if s.phases.len() == 0 {
        return Doc::new();
    }
    let counters = kind_names(&s.metrics, "counter");
    let hists = kind_names(&s.metrics, "histogram");
    let gauges = kind_names(&s.metrics, "gauge");
    let mut out = Doc::of("### Phases\n\n| phase | duration | ");
    out.append(&title_doc(&counters, " | "));
    out.append(&title_doc(&hists, " | "));
    out.append(&title_doc(&gauges, " (max / slope) | "));
    out.text("\n|---|---|");
    out.append(&rules_doc(counters.len()));
    out.append(&rules_doc(hists.len()));
    out.append(&rules_doc(gauges.len()));
    out.text("\n");
    let ghost parts = phase_rows(s.deep_view());
    let ghost base = out@;
    let mut i: usize = 0;
    proof {
        lemma_concat_ends(base, parts);
    }
    while i < s.phases.len()
        invariant
            i <= s.phases@.len() == parts.len(),
            parts == phase_rows(s.deep_view()),
            phases_in_time(s.deep_view().phases),
            counters.deep_view() == names_of_kind(s.metrics@, "counter"@),
            hists.deep_view() == names_of_kind(s.metrics@, "histogram"@),
            gauges.deep_view() == names_of_kind(s.metrics@, "gauge"@),
            out@ == base + concat(parts.take(i as int)),
        decreases s.phases@.len() - i,
    {
        proof {
            lemma_concat_step(base, parts, i as int);
            assert(s.deep_view().phases[i as int] == s.phases@[i as int].deep_view());
        }
        out.append(&phase_row_doc(s, &s.phases[i], &counters, &hists, &gauges));
        i = i + 1;
    }
    proof {
        lemma_concat_ends(base, parts);
    }
    out.text("\n");
    out
}

pub open spec fn sum_entry(e: (Seq<char>, LabelValueModel)) -> Seq<Glyph> {
    ink(e.0) + ink(": "@) + label_value_ink(e.1)
}

pub open spec fn sum_entries(m: Seq<(Seq<char>, LabelValueModel)>) -> Seq<Seq<Glyph>> {
    Seq::new(m.len(), |i: int| sum_entry(m[i]))
}

/// What a metric came to, in one cell.
pub open spec fn md_value(m: MetricSummaryModel) -> Seq<Glyph> {
    if m.kind == "counter"@ {
        ink("total "@) + num_ink(or_number(m.total, zero(false))) + ink(" · mean "@) + seq![
            Glyph::Fixed(or_number(m.mean_rate_per_second, zero(false)), 2),
        ] + ink("/s"@) + (if m.by_label.len() == 0 {
            Seq::empty()
        } else {
            ink(" · "@) + joined(sum_entries(m.by_label), ", "@)
        })
    } else if m.kind == "gauge"@ {
        ink("last "@) + md_number(m.last) + ink(" · max "@) + md_number(m.max)
    } else {
        match m.percentiles {
            Some(p) => md_percentiles(p, or_empty(m.unit)),
            None => ink("–"@),
        }
    }
}

fn value_doc(m: &MetricSummary) -> (r: Doc)
    ensures
        r@ == md_value(m.deep_view()),
{
    if str_same(m.kind.as_str(), "counter") {
        let mut out = Doc::of("total ");
        out.append(&fmt_num(number_or(m.total, Number { bits: 0 })));
        out.text(" · mean ");
        out.fixed(number_or(m.mean_rate_per_second, Number { bits: 0 }), 2);
        out.text("/s");
        if m.by_label.is_empty() {
            out.append(&Doc::new());
        } else {
            let ghost parts = sum_entries(m.by_label@);
            let mut docs: Vec<Doc> = Vec::new();
            let mut i: usize = 0;
            while i < m.by_label.len()
                invariant
                    i <= m.by_label@.len(),
                    parts == sum_entries(m.by_label@),
                    docs@.len() == i,
                    forall|j: int| 0 <= j < i ==> (#[trigger] docs@[j])@ == parts[j],
                decreases m.by_label@.len() - i,
            {
                let mut one = Doc::of(m.by_label.key(i).as_str());
                one.text(": ");
                put_label_value(&mut one, m.by_label.value(i));
                docs.push(one);
                i = i + 1;
            }
            assert(docs.deep_view() =~= parts);
            let mut tail = Doc::of(" · ");
            tail.append(&join_docs(&docs, ", "));
            out.append(&tail);
        }
        out
    } else if str_same(m.kind.as_str(), "gauge") {
        let mut out = Doc::of("last ");
        out.append(&md_num(m.last));
        out.text(" · max ");
        out.append(&md_num(m.max));
        out
    } else {
        match &m.percentiles {
            Some(p) => md_hist(p, or_blank(&m.unit)),
            None => Doc::of("–"),
        }
    }
}

pub open spec fn metric_row(name: Seq<char>, m: MetricSummaryModel) -> Seq<Glyph> {
    ink("| `"@) + ink(name) + ink("` | "@) + ink(m.kind) + ink(" | "@) + md_value(m) + ink(" |\n"@)
}

pub open spec fn metric_rows(ms: Seq<(Seq<char>, MetricSummaryModel)>) -> Seq<Seq<Glyph>> {
    Seq::new(ms.len(), |i: int| metric_row(ms[i].0, ms[i].1))
}

/// The table of metrics over the whole run.
pub open spec fn md_metrics(s: RunSummaryModel) -> Seq<Glyph> {
    ink("### Metrics (whole run)\n\n| metric | kind | value |\n|---|---|---|\n"@) + concat(metric_rows(s.metrics)) + ink(
        "\n"@,
    )
}

fn metrics_table(ms: &SortedMap<MetricSummary>) -> (r: Doc)
    ensures
        r@ == ink("### Metrics (whole run)\n\n| metric | kind | value |\n|---|---|---|\n"@) + concat(metric_rows(ms@))
            + ink("\n"@),
{
    let ghost parts = metric_rows(ms@);
    let mut out = Doc::of("### Metrics (whole run)\n\n| metric | kind | value |\n|---|---|---|\n");
    let ghost base = out@;
    let mut i: usize = 0;
    proof {
        lemma_concat_ends(base, parts);
    }
    while i < ms.len()
        invariant
            i <= ms@.len() == parts.len(),
            parts == metric_rows(ms@),
            out@ == base + concat(parts.take(i as int)),
        decreases ms@.len() - i,
    {
        let m = ms.value(i);
        let mut row = Doc::of("| `");
        row.text(ms.key(i).as_str());
        row.text("` | ");
        row.text(m.kind.as_str());
        row.text(" | ");
        row.append(&value_doc(m));
        row.text(" |\n");
        proof {
            lemma_concat_step(base, parts, i as int);
            assert(row@ == parts[i as int]);
        }
        out.append(&row);
        i = i + 1;
    }
    proof {
        lemma_concat_ends(base, parts);
    }
    out.text("\n");
    out
}

/// The scenario's own summary, folded away, given its laid-out text.
pub open spec fn md_details(pretty: Seq<char>) -> Seq<Glyph> {
    ink("<details><summary>scenario summary</summary>\n\n```json\n"@) + ink(pretty) + ink("\n```\n</details>\n\n"@)
}

pub fn details_doc(pretty: &str) -> (r: Doc)
    ensures
        r@ == md_details(pretty@),
{
    let mut out = Doc::of("<details><summary>scenario summary</summary>\n\n```json\n");
    out.text(pretty);
    out.text("\n```\n</details>\n\n");
    out
}

/// The report of one run, given the laid-out text of the scenario's own summary.
pub open spec fn md_report(s: RunSummaryModel, pretty: Seq<char>) -> Seq<Glyph> {
    md_head(s) + md_thresholds(s) + md_phases(s) + md_metrics(s) + (if s.scenario_summary == "null"@ {
        Seq::empty()
    } else {
        md_details(pretty)
    })
}

/// The report of one run, given the laid-out text of the scenario's own summary.
pub fn render_markdown_with(s: &RunSummary, pretty: &str) -> (r: Doc)
    requires
        phases_in_time(s.deep_view().phases),
    ensures
        r@ == md_report(s.deep_view(), pretty@),
{
    let mut out = head_doc(s);
    out.append(&thresholds_doc(s));
    out.append(&phases_table(s));
    out.append(&metrics_table(&s.metrics));
    if json_is_null(&s.scenario_summary) {
        out.append(&Doc::new());
    } else {
        out.append(&details_doc(pretty));
    }
    out
}

/// The laid-out text of the scenario's own summary.
pub open spec fn pretty_of(s: RunSummaryModel) -> Seq<char> {
    or_empty(json_pretty_text(s.scenario_summary))
}

/// The report of one run.
pub fn render_markdown(s: &RunSummary) -> (r: Doc)
    requires
        phases_in_time(s.deep_view().phases),
    ensures
        r@ == md_report(s.deep_view(), pretty_of(s.deep_view())),
{
    let pretty = json_pretty(&s.scenario_summary);
    render_markdown_with(s, or_blank(&pretty))
}

/// The row of a run in the overview of several.
pub open spec fn run_row(s: RunSummaryModel) -> Seq<Glyph> {
    ink("| "@) + ink(s.run) + ink(" | "@) + ink(s.status) + ink(" | "@) + ink(
        match s.verdicts.overall {
            Some(o) => match o.pass {
                Some(true) => "✅"@,
                Some(false) => "❌"@,
                None => "–"@,
            },
            None => "–"@,
        },
    ) + ink(" | "@) + ink(
        match s.verdicts.ceiling {
            Some(c) => c,
            None => "–"@,
        },
    ) + ink(" |\n"@)
}

pub open spec fn run_rows(runs: Seq<RunSummaryModel>) -> Seq<Seq<Glyph>> {
    Seq::new(runs.len(), |i: int| run_row(runs[i]))
}

pub open spec fn run_reports(runs: Seq<RunSummaryModel>) -> Seq<Seq<Glyph>> {
    Seq::new(runs.len(), |i: int| md_report(runs[i], pretty_of(runs[i])))
}

/// The report of some runs, with an overview where there is more than one.
pub open spec fn md_reports(runs: Seq<RunSummaryModel>) -> Seq<Glyph> {
    ink("# Load test report\n\n"@) + (if runs.len() > 1 {
        ink("| run | status | verdict | ceiling |\n|---|---|---|---|\n"@) + concat(run_rows(runs)) + ink("\n"@)
    } else {
        Seq::empty()
    }) + concat(run_reports(runs))
}

fn run_row_doc(s: &RunSummary) -> (r: Doc)
    ensures
        r@ == run_row(s.deep_view()),
{
    let mut out = Doc::of("| ");
    out.text(s.run.as_str());
    out.text(" | ");
    out.text(s.status.as_str());
    out.text(" | ");
    out.text(
        match &s.verdicts.overall {
            Some(o) => match o.pass {
                Some(true) => "✅",
                Some(false) => "❌",
                None => "–",
            },
            None => "–",
        },
    );
    out.text(" | ");
    out.text(
        match &s.verdicts.ceiling {
            Some(c) => c.as_str(),
            None => "–",
        },
    );
    out.text(" |\n");
    out
}

fn overview_doc(runs: &[RunSummary]) -> (r: Doc)
    ensures
        r@ == ink("| run | status | verdict | ceiling |\n|---|---|---|---|\n"@) + concat(run_rows(runs.deep_view()))
            + ink("\n"@),
{
    let ghost parts = run_rows(runs.deep_view());
    let mut out = Doc::of("| run | status | verdict | ceiling |\n|---|---|---|---|\n");
    let ghost base = out@;
    let mut i: usize = 0;
    proof {
        lemma_concat_ends(base, parts);
    }
    while i < runs.len()
        invariant
            i <= runs@.len() == parts.len(),
            parts == run_rows(runs.deep_view()),
            out@ == base + concat(parts.take(i as int)),
        decreases runs@.len() - i,
    {
        proof {
            lemma_concat_step(base, parts, i as int);
            assert(runs.deep_view()[i as int] == runs@[i as int].deep_view());
        }
        out.append(&run_row_doc(&runs[i]));
        i = i + 1;
    }
    proof {
        lemma_concat_ends(base, parts);
    }
    out.text("\n");
    out
}

#[verifier::spinoff_prover]
#[verifier::rlimit(40)]
fn reports_doc(runs: &[RunSummary]) -> (r: Doc)
    requires
        forall|i: int| 0 <= i < runs@.len() ==> phases_in_time((#[trigger] runs@[i]).deep_view().phases),
    ensures
        r@ == concat(run_reports(runs.deep_view())),
{
    let ghost parts = run_reports(runs.deep_view());
    let mut out = Doc::new();
    let ghost base = out@;
    let mut i: usize = 0;
    proof {
        lemma_concat_ends(base, parts);
    }
    while i < runs.len()
        invariant
            i <= runs@.len() == parts.len(),
            parts == run_reports(runs.deep_view()),
            forall|i: int| 0 <= i < runs@.len() ==> phases_in_time((#[trigger] runs@[i]).deep_view().phases),
            out@ == base + concat(parts.take(i as int)),
        decreases runs@.len() - i,
    {
        let one = render_markdown(&runs[i]);
        proof {
            lemma_concat_step(base, parts, i as int);
            assert(runs.deep_view()[i as int] == runs@[i as int].deep_view());
            assert(one@ == parts[i as int]);
        }
        out.append(&one);
        i = i + 1;
    }
    proof {
        lemma_concat_ends(base, parts);
        assert(base + concat(parts) =~= concat(parts));
    }
    out
}

/// The report of some runs, with an overview where there is more than one.
pub fn render_markdown_many(runs: &[RunSummary]) -> (r: Doc)
    requires
        forall|i: int| 0 <= i < runs@.len() ==> phases_in_time((#[trigger] runs@[i]).deep_view().phases),
    ensures
        r@ == md_reports(runs.deep_view()),
{
    let mut out = Doc::of("# Load test report\n\n");
    let overview = if runs.len() > 1 {
        overview_doc(runs)
    } else {
        Doc::new()
    };
    out.append(&overview);
    out.append(&reports_doc(runs));
    out
}

} // verus!
