//! Reports in plain text and Markdown.

use vstd::prelude::*;
use crate::doc::{
    concat, count_ink, fmt_num, ink, join_docs, joined, json_ink, lemma_concat_ends, lemma_concat_step, num_ink, Doc,
    Glyph,
};
use crate::metrics::{or_blank, or_empty, Percentiles, PhaseSummary, PhaseSummaryModel};
use crate::number::{not_a_number, zero, Number, QUIET};
use crate::report::{LabelValue, LabelValueModel, MetricSummary, MetricSummaryModel, RunSummary, RunSummaryModel};
use crate::sorted::{lookup, SortedMap};
use crate::text::{debug_text, quoted, str_same};
use crate::verdict::{Check, CheckModel, PhaseVerdict, PhaseVerdictModel, Verdicts, VerdictsModel};

verus! {

/// No phase of the summary ends before it starts.
pub open spec fn phases_in_time(phases: Seq<PhaseSummaryModel>) -> bool {
    forall|i: int|
        0 <= i < phases.len() && (#[trigger] phases[i]).end_second is Some ==> phases[i].start_second
            <= phases[i].end_second->0
}

/// Whether no phase of a summary ends before it starts.
pub fn is_in_time(summary: &RunSummary) -> (r: bool)
    ensures
        r == phases_in_time(summary.deep_view().phases),
{
    let ghost models = summary.deep_view().phases;
    let mut i: usize = 0;
    while i < summary.phases.len()
        invariant
            i <= summary.phases@.len(),
            models == summary.deep_view().phases,
            forall|j: int|
                0 <= j < i && (#[trigger] models[j]).end_second is Some ==> models[j].start_second
                    <= models[j].end_second->0,
        decreases summary.phases@.len() - i,
    {
        let p = &summary.phases[i];
        assert(models[i as int] == p.deep_view());
        if let Some(end) = p.end_second {
            if end < p.start_second {
                return false;
            }
        }
        i = i + 1;
    }
    true
}

/// The number, or `v` where there is none.
pub open spec fn or_number(n: Option<Number>, v: Number) -> Number {
    match n {
        Some(x) => x,
        None => v,
    }
}

pub(crate) fn number_or(n: Option<Number>, v: Number) -> (r: Number)
    ensures
        r == or_number(n, v),
{
    match n {
        Some(x) => x,
        None => v,
    }
}

/// The verdict on a run in one line: the word, the ceiling and the first failure.
pub open spec fn verdict_text(v: VerdictsModel) -> Option<Seq<char>> {
    match v.overall {
        None => None,
        Some(o) => {
            let word = match o.pass {
                Some(true) => "PASS"@,
                Some(false) => "FAIL"@,
                None => "not judged"@,
            };
            let ceiling = match v.ceiling {
                Some(c) => "  ceiling = "@ + c,
                None => ""@,
            };
            let failure = match v.first_failure {
                Some(f) => "  first failure = "@ + f,
                None => ""@,
            };
            Some("verdict "@ + word + ceiling + failure)
        },
    }
}

pub fn verdict_line(v: &Verdicts) -> (r: Option<String>)
    ensures
        r.deep_view() == verdict_text(v.deep_view()),
{
    let overall = match &v.overall {
        Some(o) => o,
        None => return None,
    };
    let word = match overall.pass {
        Some(true) => "PASS",
        Some(false) => "FAIL",
        None => "not judged",
    };
    let ceiling = match &v.ceiling {
        Some(c) => {
            let mut s = "  ceiling = ".to_owned();
            s.append(c.as_str());
            s
        },
        None => "".to_owned(),
    };
    let failure = match &v.first_failure {
        Some(f) => {
            let mut s = "  first failure = ".to_owned();
            s.append(f.as_str());
            s
        },
        None => "".to_owned(),
    };
    let mut s = "verdict ".to_owned();
    s.append(word);
    s.append(ceiling.as_str());
    s.append(failure.as_str());
    Some(s)
}

/// A failed check in a line of its own; a check that passed has none.
pub open spec fn failed_line(phase: Seq<char>, c: CheckModel) -> Seq<Glyph> {
    if c.pass {
        Seq::empty()
    } else {
        ink("  ✗ ["@) + ink(phase) + ink("] "@) + ink(c.rule) + ink("  actual "@) + (match c.value {
            Some(v) => num_ink(v),
            None => Seq::empty(),
        }) + ink("\n"@)
    }
}

pub open spec fn failed_lines(v: PhaseVerdictModel) -> Seq<Seq<Glyph>> {
    Seq::new(v.checks.len(), |i: int| failed_line(v.phase, v.checks[i]))
}

fn failed_doc(phase: &str, c: &Check) -> (r: Doc)
    ensures
        r@ == failed_line(phase@, c.deep_view()),
{
    if c.pass {
        return Doc::new();
    }
    let mut out = Doc::of("  ✗ [");
    out.text(phase);
    out.text("] ");
    out.text(c.rule.as_str());
    out.text("  actual ");
    match c.value {
        Some(v) => out.append(&fmt_num(v)),
        None => out.append(&Doc::new()),
    }
    out.text("\n");
    out
}

fn failed_docs(v: &PhaseVerdict) -> (r: Doc)
    ensures
        r@ == concat(failed_lines(v.deep_view())),
{
    let ghost parts = failed_lines(v.deep_view());
    let mut out = Doc::new();
    let ghost base = out@;
    let mut i: usize = 0;
    proof {
        lemma_concat_ends(base, parts);
    }
    while i < v.checks.len()
        invariant
            i <= v.checks@.len() == parts.len(),
            parts == failed_lines(v.deep_view()),
            out@ == base + concat(parts.take(i as int)),
        decreases v.checks@.len() - i,
    {
        proof {
            lemma_concat_step(base, parts, i as int);
        }
        out.append(&failed_doc(v.phase.as_str(), &v.checks[i]));
        i = i + 1;
    }
    proof {
        lemma_concat_ends(base, parts);
        assert(base + concat(parts) =~= concat(parts));
    }
    out
}

pub open spec fn all_failed_lines(vs: Seq<PhaseVerdictModel>) -> Seq<Seq<Glyph>> {
    Seq::new(vs.len(), |i: int| concat(failed_lines(vs[i])))
}

/// The verdict line and every failed check of every phase.
pub open spec fn verdict_block(v: VerdictsModel) -> Seq<Glyph> {
    match verdict_text(v) {
        None => Seq::empty(),
        Some(line) => ink(line) + ink("\n"@) + concat(all_failed_lines(v.phases)),
    }
}

fn verdict_doc(v: &Verdicts) -> (r: Doc)
    ensures
        r@ == verdict_block(v.deep_view()),
{
    match verdict_line(v) {
        None => Doc::new(),
        Some(line) => {
            let ghost parts = all_failed_lines(v.phases.deep_view());
            let mut out = Doc::of(line.as_str());
            out.text("\n");
            let ghost base = out@;
            let mut i: usize = 0;
            proof {
                lemma_concat_ends(base, parts);
            }
            while i < v.phases.len()
                invariant
                    i <= v.phases@.len() == parts.len(),
                    parts == all_failed_lines(v.phases.deep_view()),
                    out@ == base + concat(parts.take(i as int)),
                decreases v.phases@.len() - i,
            {
                proof {
                    lemma_concat_step(base, parts, i as int);
                }
                out.append(&failed_docs(&v.phases[i]));
                i = i + 1;
            }
            proof {
                lemma_concat_ends(base, parts);
            }
            out
        },
    }
}

/// A breakdown value as JSON writes it.
pub open spec fn label_value_ink(v: LabelValueModel) -> Seq<Glyph> {
    match v {
        LabelValueModel::Sum(n) => json_ink(n),
        LabelValueModel::Count(n) => count_ink(n),
        LabelValueModel::Raw(s) => ink(s),
    }
}

pub(crate) fn put_label_value(out: &mut Doc, v: &LabelValue)
    ensures
        final(out)@ == old(out)@ + label_value_ink(v.deep_view()),
{
    match v {
        LabelValue::Sum(n) => out.json(*n),
        LabelValue::Count(n) => out.count(*n),
        LabelValue::Raw(s) => out.text(s.as_str()),
    }
}

pub open spec fn breakdown_line(e: (Seq<char>, LabelValueModel)) -> Seq<Glyph> {
    ink("      "@) + ink(e.0) + ink(": "@) + label_value_ink(e.1) + ink("\n"@)
}

pub open spec fn breakdown_lines(m: Seq<(Seq<char>, LabelValueModel)>) -> Seq<Seq<Glyph>> {
    Seq::new(m.len(), |i: int| breakdown_line(m[i]))
}

/// The numbers of a metric in one line.
pub open spec fn metric_line(name: Seq<char>, m: MetricSummaryModel) -> Seq<Glyph> {
    let head = ink("  "@) + ink(name);
    let unit = ink(or_empty(m.unit));
    if m.kind == "counter"@ {
        head + ink(": total "@) + num_ink(or_number(m.total, zero(false))) + ink("  mean "@) + seq![
            Glyph::Fixed(or_number(m.mean_rate_per_second, zero(false)), 2),
        ] + ink("/s\n"@)
    } else if m.kind == "gauge"@ {
        head + ink(": last "@) + num_ink(or_number(m.last, not_a_number())) + ink("  max "@) + num_ink(
            or_number(m.max, not_a_number()),
        ) + ink("\n"@)
    } else {
        match m.percentiles {
            Some(p) => head + ink(": n="@) + count_ink(p.count) + ink(" p50 "@) + num_ink(p.p50) + unit + ink(" p90 "@)
                + num_ink(p.p90) + unit + ink(" p95 "@) + num_ink(p.p95) + unit + ink(" p99 "@) + num_ink(p.p99) + unit
                + ink(" max "@) + num_ink(p.max) + unit + ink(" mean "@) + num_ink(p.mean) + unit + ink("\n"@),
            None => Seq::empty(),
        }
    }
}

fn metric_doc(name: &str, m: &MetricSummary) -> (r: Doc)
    ensures
        r@ == metric_line(name@, m.deep_view()),
{
    let unit = or_blank(&m.unit);
    let mut out = Doc::of("  ");
    out.text(name);
    if str_same(m.kind.as_str(), "counter") {
        out.text(": total ");
        out.append(&fmt_num(number_or(m.total, Number { bits: 0 })));
        out.text("  mean ");
        out.fixed(number_or(m.mean_rate_per_second, Number { bits: 0 }), 2);
        out.text("/s\n");
        out
    } else if str_same(m.kind.as_str(), "gauge") {
        out.text(": last ");
        out.append(&fmt_num(number_or(m.last, Number { bits: QUIET })));
        out.text("  max ");
        out.append(&fmt_num(number_or(m.max, Number { bits: QUIET })));
        out.text("\n");
        out
    } else {
        match &m.percentiles {
            Some(p) => {
                out.text(": n=");
                out.count(p.count);
                out.text(" p50 ");
                out.append(&fmt_num(p.p50));
                out.text(unit);
                out.text(" p90 ");
                out.append(&fmt_num(p.p90));
                out.text(unit);
                out.text(" p95 ");
                out.append(&fmt_num(p.p95));
                out.text(unit);
                out.text(" p99 ");
                out.append(&fmt_num(p.p99));
                out.text(unit);
                out.text(" max ");
                out.append(&fmt_num(p.max));
                out.text(unit);
                out.text(" mean ");
                out.append(&fmt_num(p.mean));
                out.text(unit);
                out.text("\n");
                out
            },
            None => Doc::new(),
        }
    }
}

/// A metric with its breakdown.
pub open spec fn metric_block(name: Seq<char>, m: MetricSummaryModel) -> Seq<Glyph> {
    metric_line(name, m) + concat(breakdown_lines(m.by_label))
}

pub open spec fn metric_blocks(ms: Seq<(Seq<char>, MetricSummaryModel)>) -> Seq<Seq<Glyph>> {
    Seq::new(ms.len(), |i: int| metric_block(ms[i].0, ms[i].1))
}

fn metric_block_doc(name: &str, m: &MetricSummary) -> (r: Doc)
    ensures
        r@ == metric_block(name@, m.deep_view()),
{
    let ghost parts = breakdown_lines(m.by_label@);
    let mut out = metric_doc(name, m);
    let ghost base = out@;
    let mut i: usize = 0;
    proof {
        lemma_concat_ends(base, parts);
    }
    while i < m.by_label.len()
        invariant
            i <= m.by_label@.len() == parts.len(),
            parts == breakdown_lines(m.by_label@),
            out@ == base + concat(parts.take(i as int)),
        decreases m.by_label@.len() - i,
    {
        let mut line = Doc::of("      ");
        line.text(m.by_label.key(i).as_str());
        line.text(": ");
        put_label_value(&mut line, m.by_label.value(i));
        line.text("\n");
        proof {
            lemma_concat_step(base, parts, i as int);
            assert(line@ == parts[i as int]);
        }
        out.append(&line);
        i = i + 1;
    }
    proof {
        lemma_concat_ends(base, parts);
    }
    out
}

/// The seconds that a phase lasted; an open phase has lasted until the end of the run so far.
pub open spec fn lasted(p: PhaseSummaryModel, duration: u64) -> u64 {
    match p.end_second {
        Some(e) => (e - p.start_second) as u64,
        None => if duration > p.start_second {
            (duration - p.start_second) as u64
        } else {
            0
        },
    }
}

pub(crate) fn phase_length(p: &PhaseSummary, duration: u64) -> (r: u64)
    requires
        p.end_second is Some ==> p.start_second <= p.end_second->0,
    ensures
        r == lasted(p.deep_view(), duration),
{
    match p.end_second {
        Some(e) => e - p.start_second,
        None => if duration > p.start_second {
            duration - p.start_second
        } else {
            0
        },
    }
}

pub open spec fn label_count(e: (Seq<char>, Number)) -> Seq<Glyph> {
    ink(e.0) + ink(":"@) + seq![Glyph::Plain(e.1)]
}

pub open spec fn label_counts(m: Seq<(Seq<char>, Number)>) -> Seq<Seq<Glyph>> {
    Seq::new(m.len(), |i: int| label_count(m[i]))
}

/// The breakdown of a counter within a phase.
pub open spec fn phase_labels(labels: Seq<(Seq<char>, Seq<(Seq<char>, Number)>)>, metric: Seq<char>) -> Seq<Glyph> {
    match lookup(labels, metric) {
        Some(m) => joined(label_counts(m), " "@),
        None => Seq::empty(),
    }
}

fn phase_labels_doc(labels: &SortedMap<SortedMap<Number>>, metric: &str) -> (r: Doc)
    ensures
        r@ == phase_labels(labels@, metric@),
{
    match labels.get(metric) {
        Some(m) => {
            let ghost parts = label_counts(m@);
            let mut docs: Vec<Doc> = Vec::new();
            let mut i: usize = 0;
            while i < m.len()
                invariant
                    i <= m@.len(),
                    parts == label_counts(m@),
                    docs@.len() == i,
                    forall|j: int| 0 <= j < i ==> (#[trigger] docs@[j])@ == parts[j],
                decreases m@.len() - i,
            {
                let mut one = Doc::of(m.key(i).as_str());
                one.text(":");
                one.plain(*m.value(i));
                docs.push(one);
                i = i + 1;
            }
            assert(docs.deep_view() =~= parts);
            join_docs(&docs, " ")
        },
        None => Doc::new(),
    }
}

pub open spec fn phase_counter_line(
    e: (Seq<char>, Number),
    labels: Seq<(Seq<char>, Seq<(Seq<char>, Number)>)>,
) -> Seq<Glyph> {
    ink("      "@) + ink(e.0) + ink(": "@) + num_ink(e.1) + ink("  "@) + phase_labels(labels, e.0) + ink("\n"@)
}

pub open spec fn phase_counter_lines(p: PhaseSummaryModel) -> Seq<Seq<Glyph>> {
    Seq::new(p.counters.len(), |i: int| phase_counter_line(p.counters[i], p.counter_labels))
}

pub open spec fn phase_hist_line(e: (Seq<char>, Percentiles)) -> Seq<Glyph> {
    ink("      "@) + ink(e.0) + ink(": n="@) + count_ink(e.1.count) + ink(" p50 "@) + num_ink(e.1.p50) + ink(" p95 "@)
        + num_ink(e.1.p95) + ink(" p99 "@) + num_ink(e.1.p99) + ink(" max "@) + num_ink(e.1.max) + ink("\n"@)
}

pub open spec fn phase_hist_lines(p: PhaseSummaryModel) -> Seq<Seq<Glyph>> {
    Seq::new(p.histograms.len(), |i: int| phase_hist_line(p.histograms[i]))
}

/// A phase with its counters and histograms.
pub open spec fn phase_block(p: PhaseSummaryModel, duration: u64) -> Seq<Glyph> {
    ink("  ["@) + ink(p.name) + ink("] "@) + count_ink(lasted(p, duration)) + ink(
        if p.end_second is Some {
            "s\n"@
        } else {
            "s+\n"@
        },
    ) + concat(phase_counter_lines(p)) + concat(phase_hist_lines(p))
}

fn phase_doc(p: &PhaseSummary, duration: u64) -> (r: Doc)
    requires
        p.end_second is Some ==> p.start_second <= p.end_second->0,
    ensures
        r@ == phase_block(p.deep_view(), duration),
{
    let mut out = Doc::of("  [");
    out.text(p.name.as_str());
    out.text("] ");
    out.count(phase_length(p, duration));
    out.text(if p.end_second.is_some() { "s\n" } else { "s+\n" });
    let ghost base = out@;
    let ghost parts = phase_counter_lines(p.deep_view());
    let mut i: usize = 0;
    proof {
        lemma_concat_ends(base, parts);
    }
    while i < p.counters.len()
        invariant
            i <= p.counters@.len() == parts.len(),
            parts == phase_counter_lines(p.deep_view()),
            out@ == base + concat(parts.take(i as int)),
        decreases p.counters@.len() - i,
    {
        let name = p.counters.key(i).as_str();
        let mut line = Doc::of("      ");
        line.text(name);
        line.text(": ");
        line.append(&fmt_num(*p.counters.value(i)));
        line.text("  ");
        line.append(&phase_labels_doc(&p.counter_labels, name));
        line.text("\n");
        proof {
            lemma_concat_step(base, parts, i as int);
            assert(line@ == parts[i as int]);
        }
        out.append(&line);
        i = i + 1;
    }
    proof {
        lemma_concat_ends(base, parts);
    }
    let ghost base2 = out@;
    let ghost parts2 = phase_hist_lines(p.deep_view());
    let mut k: usize = 0;
    proof {
        lemma_concat_ends(base2, parts2);
    }
    while k < p.histograms.len()
        invariant
            k <= p.histograms@.len() == parts2.len(),
            parts2 == phase_hist_lines(p.deep_view()),
            out@ == base2 + concat(parts2.take(k as int)),
        decreases p.histograms@.len() - k,
    {
        let h = p.histograms.value(k);
        let mut line = Doc::of("      ");
        line.text(p.histograms.key(k).as_str());
        line.text(": n=");
        line.count(h.count);
        line.text(" p50 ");
        line.append(&fmt_num(h.p50));
        line.text(" p95 ");
        line.append(&fmt_num(h.p95));
        line.text(" p99 ");
        line.append(&fmt_num(h.p99));
        line.text(" max ");
        line.append(&fmt_num(h.max));
        line.text("\n");
        proof {
            lemma_concat_step(base2, parts2, k as int);
            assert(line@ == parts2[k as int]);
        }
        out.append(&line);
        k = k + 1;
    }
    proof {
        lemma_concat_ends(base2, parts2);
    }
    out
}

pub open spec fn phase_blocks(ps: Seq<PhaseSummaryModel>, duration: u64) -> Seq<Seq<Glyph>> {
    Seq::new(ps.len(), |i: int| phase_block(ps[i], duration))
}

/// The undeclared metrics with their counts, names quoted.
pub open spec fn unknown_entries(m: Seq<(Seq<char>, u64)>) -> Seq<Seq<Glyph>> {
    Seq::new(m.len(), |i: int| ink(quoted(m[i].0)) + ink(": "@) + count_ink(m[i].1))
}

fn unknown_doc(m: &SortedMap<u64>) -> (r: Doc)
    ensures
        r@ == joined(unknown_entries(m@), ", "@),
{
    let ghost parts = unknown_entries(m@);
    let mut docs: Vec<Doc> = Vec::new();
    let mut i: usize = 0;
    while i < m.len()
        invariant
            i <= m@.len(),
            parts == unknown_entries(m@),
            docs@.len() == i,
            forall|j: int| 0 <= j < i ==> (#[trigger] docs@[j])@ == parts[j],
        decreases m@.len() - i,
    {
        let mut one = Doc::of(debug_text(m.key(i).as_str()).as_str());
        one.text(": ");
        one.count(*m.value(i));
        docs.push(one);
        i = i + 1;
    }
    assert(docs.deep_view() =~= parts);
    join_docs(&docs, ", ")
}

/// The plain-text report: the run, its verdict, its metrics, its phases, and what was undeclared.
pub open spec fn text_report(s: RunSummaryModel) -> Seq<Glyph> {
    ink("run "@) + ink(s.run) + ink(" ("@) + ink(s.scenario) + ink(") — "@) + ink(s.status) + ink(" — "@) + count_ink(
        s.duration_seconds,
    ) + ink("s\n"@) + verdict_block(s.verdicts) + concat(metric_blocks(s.metrics)) + (if s.phases.len() == 0 {
        Seq::empty()
    } else {
        ink("\nphases:\n"@) + concat(phase_blocks(s.phases, s.duration_seconds))
    }) + (if s.unknown_metrics.len() == 0 {
        Seq::empty()
    } else {
        ink("\nundeclared metrics ignored: {"@) + joined(unknown_entries(s.unknown_metrics), ", "@) + ink("}\n"@)
    })
}

fn metric_blocks_doc(ms: &SortedMap<MetricSummary>) -> (r: Doc)
    ensures
        r@ == concat(metric_blocks(ms@)),
{
    let ghost parts = metric_blocks(ms@);
    let mut out = Doc::new();
    let ghost base = out@;
    let mut i: usize = 0;
    proof {
        lemma_concat_ends(base, parts);
    }
    while i < ms.len()
        invariant
            i <= ms@.len() == parts.len(),
            parts == metric_blocks(ms@),
            out@ == base + concat(parts.take(i as int)),
        decreases ms@.len() - i,
    {
        proof {
            lemma_concat_step(base, parts, i as int);
        }
        out.append(&metric_block_doc(ms.key(i).as_str(), ms.value(i)));
        i = i + 1;
    }
    proof {
        lemma_concat_ends(base, parts);
        assert(base + concat(parts) =~= concat(parts));
    }
    out
}

fn phases_doc(ps: &Vec<PhaseSummary>, duration: u64) -> (r: Doc)
    requires
        phases_in_time(ps.deep_view()),
    ensures
        r@ == ink("\nphases:\n"@) + concat(phase_blocks(ps.deep_view(), duration)),
{
    let ghost parts = phase_blocks(ps.deep_view(), duration);
    let mut out = Doc::of("\nphases:\n");
    let ghost base = out@;
    let mut i: usize = 0;
    proof {
        lemma_concat_ends(base, parts);
    }
    while i < ps.len()
        invariant
            i <= ps@.len() == parts.len(),
            parts == phase_blocks(ps.deep_view(), duration),
            phases_in_time(ps.deep_view()),
            out@ == base + concat(parts.take(i as int)),
        decreases ps@.len() - i,
    {
        proof {
            lemma_concat_step(base, parts, i as int);
            assert(ps.deep_view()[i as int].end_second == ps@[i as int].end_second);
        }
        out.append(&phase_doc(&ps[i], duration));
        i = i + 1;
    }
    proof {
        lemma_concat_ends(base, parts);
    }
    out
}

/// Plain-text rendering printed after the dashboard exits, so results survive in scrollback.
pub fn render_text(summary: &RunSummary) -> (r: Doc)
    requires
        phases_in_time(summary.deep_view().phases),
    ensures
        r@ == text_report(summary.deep_view()),
{
    let mut out = Doc::of("run ");
    out.text(summary.run.as_str());
    out.text(" (");
    out.text(summary.scenario.as_str());
    out.text(") — ");
    out.text(summary.status.as_str());
    out.text(" — ");
    out.count(summary.duration_seconds);
    out.text("s\n");
    out.append(&verdict_doc(&summary.verdicts));
    out.append(&metric_blocks_doc(&summary.metrics));
    if summary.phases.len() > 0 {
        out.append(&phases_doc(&summary.phases, summary.duration_seconds));
    } else {
        out.append(&Doc::new());
    }
    if summary.unknown_metrics.is_empty() {
        out.append(&Doc::new());
    } else {
        let mut tail = Doc::of("\nundeclared metrics ignored: {");
        tail.append(&unknown_doc(&summary.unknown_metrics));
        tail.text("}\n");
        out.append(&tail);
    }
    out
}

} // verus!
