//! Texts: what stands in a report, and under which name each number stands.

use vstd::prelude::*;
use crate::doc::{concat, count_ink, ink, num_ink, Glyph};
use crate::laws::numbers::{order_is_that_of_the_values, whole_numbers_are_exact};
use crate::markdown::{
    column_rules, gauge_cell, md_head, md_metrics, md_percentiles, md_phases, md_report, md_reports, md_thresholds,
    md_value, metric_row, metric_rows, names_of_kind, phase_row, phase_rows, phase_titles, rule_row, rule_rows,
    run_reports, run_row, run_rows, title_cells,
};
use crate::metrics::{
    headline_ink, or_empty, percentiles_of, recent_rate, AggregateModel, MetricModel, Percentiles, PhaseSummaryModel,
};
use crate::number::{of_nat, one_unit, zero, Number};
use crate::render::{
    all_failed_lines, breakdown_lines, failed_line, failed_lines, metric_blocks, metric_line, phase_block,
    phase_blocks, phase_counter_line, phase_counter_lines, phase_hist_line, phase_hist_lines, text_report,
    verdict_block, verdict_text,
};
use crate::report::{MetricSummaryModel, RunSummaryModel};
use crate::sorted::lookup;
use crate::ui::chart::{label_row, overall_row};
use crate::verdict::VerdictsModel;

verus! {

/// The part stands somewhere in the text.
pub open spec fn holds<T>(text: Seq<T>, part: Seq<T>) -> bool {
    exists|at: int| 0 <= at <= text.len() - part.len() && #[trigger] text.subrange(at, at + part.len()) == part
}

/// The text gives a number under a name.
pub open spec fn says(text: Seq<Glyph>, name: Seq<char>, number: Seq<Glyph>) -> bool {
    holds(text, ink(name) + number)
}

proof fn lemma_holds<T>(front: Seq<T>, part: Seq<T>, back: Seq<T>)
    ensures
        holds(front + part + back, part),
        holds(front + part, part),
        holds(part + back, part),
        holds(part, part),
{
    let all = front + part + back;
    let at = front.len() as int;
    assert(all.subrange(at, at + part.len()) =~= part);
    assert((front + part).subrange(at, at + part.len()) =~= part);
    assert((part + back).subrange(0, 0int + part.len()) =~= part);
    assert(part.subrange(0, 0int + part.len()) =~= part);
}

/// What stands in a text stands in a longer one.
proof fn lemma_longer<T>(front: Seq<T>, text: Seq<T>, back: Seq<T>)
    ensures
        forall|part: Seq<T>| #[trigger] holds(text, part) ==> holds(front + text, part),
        forall|part: Seq<T>| #[trigger] holds(text, part) ==> holds(text + back, part),
        forall|part: Seq<T>| #[trigger] holds(text, part) ==> holds(front + text + back, part),
{
    assert forall|part: Seq<T>| #[trigger] holds(text, part) implies holds(front + text, part) && holds(
        text + back,
        part,
    ) && holds(front + text + back, part) by {
        let at = choose|at: int|
            0 <= at <= text.len() - part.len() && #[trigger] text.subrange(at, at + part.len()) == part;
        let there = at + front.len();
        assert((front + text).subrange(there, there + part.len()) =~= text.subrange(at, at + part.len()));
        assert((text + back).subrange(at, at + part.len()) =~= text.subrange(at, at + part.len()));
        assert((front + text + back).subrange(there, there + part.len()) =~= text.subrange(at, at + part.len()));
    }
}

/// One more number under a name.
proof fn lemma_said(text: Seq<Glyph>, name: Seq<char>, number: Seq<Glyph>)
    ensures
        says(text + ink(name) + number, name, number),
        forall|part: Seq<Glyph>| #[trigger] holds(text, part) ==> holds(text + ink(name) + number, part),
{
    assert(text + ink(name) + number =~= text + (ink(name) + number));
    lemma_holds(text, ink(name) + number, Seq::empty());
    lemma_longer(Seq::empty(), text, ink(name) + number);
}

/// One more number under a name, with a unit behind it.
proof fn lemma_said_with(text: Seq<Glyph>, name: Seq<char>, number: Seq<Glyph>, unit: Seq<Glyph>)
    ensures
        says(text + ink(name) + number + unit, name, number),
        forall|part: Seq<Glyph>| #[trigger] holds(text, part) ==> holds(text + ink(name) + number + unit, part),
{
    lemma_said(text, name, number);
    lemma_longer(Seq::empty(), text + ink(name) + number, unit);
}

proof fn lemma_first(name: Seq<char>, number: Seq<Glyph>)
    ensures
        says(ink(name) + number, name, number),
{
    lemma_holds(Seq::empty(), ink(name) + number, Seq::empty());
}

/// Each of some stretches stands in all of them together.
proof fn lemma_stretch(parts: Seq<Seq<Glyph>>, i: int)
    requires
        0 <= i < parts.len(),
    ensures
        holds(concat(parts), parts[i]),
        forall|part: Seq<Glyph>| #[trigger] holds(parts[i], part) ==> holds(concat(parts), part),
    decreases parts.len(),
{
    let rest = parts.drop_last();
    if i < rest.len() {
        lemma_stretch(rest, i);
        assert(rest[i] == parts[i]);
        lemma_longer(Seq::empty(), concat(rest), parts.last());
    } else {
        lemma_holds(concat(rest), parts.last(), Seq::empty());
        lemma_longer(concat(rest), parts.last(), Seq::empty());
    }
}

/// The row of a whole histogram gives each of its numbers under its own name.
pub proof fn the_overall_row_names_its_numbers(p: Percentiles, unit: Seq<char>)
    ensures
        ({
            let text = overall_row(p, unit).value;
            &&& says(text, "n="@, count_ink(p.count))
            &&& says(text, "  min "@, num_ink(p.min))
            &&& says(text, "  p50 "@, num_ink(p.p50))
            &&& says(text, "  p90 "@, num_ink(p.p90))
            &&& says(text, "  p95 "@, num_ink(p.p95))
            &&& says(text, "  p99 "@, num_ink(p.p99))
            &&& says(text, "  max "@, num_ink(p.max))
            &&& says(text, "  mean "@, num_ink(p.mean))
        }),
{
    let t0 = ink("n="@) + count_ink(p.count);
    lemma_first("n="@, count_ink(p.count));
    lemma_said(t0, "  min "@, num_ink(p.min));
    let t1 = t0 + ink("  min "@) + num_ink(p.min);
    lemma_said(t1, "  p50 "@, num_ink(p.p50));
    let t2 = t1 + ink("  p50 "@) + num_ink(p.p50);
    lemma_said(t2, "  p90 "@, num_ink(p.p90));
    let t3 = t2 + ink("  p90 "@) + num_ink(p.p90);
    lemma_said(t3, "  p95 "@, num_ink(p.p95));
    let t4 = t3 + ink("  p95 "@) + num_ink(p.p95);
    lemma_said(t4, "  p99 "@, num_ink(p.p99));
    let t5 = t4 + ink("  p99 "@) + num_ink(p.p99);
    lemma_said(t5, "  max "@, num_ink(p.max));
    let t6 = t5 + ink("  max "@) + num_ink(p.max);
    lemma_said(t6, "  mean "@, num_ink(p.mean));
    let t7 = t6 + ink("  mean "@) + num_ink(p.mean);
    lemma_said(t7, " "@, ink(unit));
}

/// The row of a label gives each of its numbers under its own name.
pub proof fn a_label_row_names_its_numbers(label: Seq<char>, p: Percentiles, unit: Seq<char>)
    ensures
        ({
            let text = label_row(label, p, unit).value;
            &&& label_row(label, p, unit).label == label
            &&& says(text, "n="@, count_ink(p.count))
            &&& says(text, "  p50 "@, num_ink(p.p50))
            &&& says(text, "  p95 "@, num_ink(p.p95))
            &&& says(text, "  p99 "@, num_ink(p.p99))
        }),
{
    let t0 = ink("n="@) + count_ink(p.count);
    lemma_first("n="@, count_ink(p.count));
    lemma_said(t0, "  p50 "@, num_ink(p.p50));
    let t1 = t0 + ink("  p50 "@) + num_ink(p.p50);
    lemma_said(t1, "  p95 "@, num_ink(p.p95));
    let t2 = t1 + ink("  p95 "@) + num_ink(p.p95);
    lemma_said(t2, "  p99 "@, num_ink(p.p99));
    let t3 = t2 + ink("  p99 "@) + num_ink(p.p99);
    lemma_said(t3, " "@, ink(unit));
}

/// A histogram in a table gives each of its numbers under its own name.
pub proof fn a_histogram_cell_names_its_numbers(p: Percentiles, unit: Seq<char>)
    ensures
        ({
            let text = md_percentiles(p, unit);
            &&& says(text, "n="@, count_ink(p.count))
            &&& says(text, " · p50 "@, num_ink(p.p50))
            &&& says(text, " · p95 "@, num_ink(p.p95))
            &&& says(text, " · p99 "@, num_ink(p.p99))
            &&& says(text, " · max "@, num_ink(p.max))
        }),
{
    let u = ink(unit);
    let t0 = ink("n="@) + count_ink(p.count);
    lemma_first("n="@, count_ink(p.count));
    lemma_said_with(t0, " · p50 "@, num_ink(p.p50), u);
    let t1 = t0 + ink(" · p50 "@) + num_ink(p.p50) + u;
    lemma_said_with(t1, " · p95 "@, num_ink(p.p95), u);
    let t2 = t1 + ink(" · p95 "@) + num_ink(p.p95) + u;
    lemma_said_with(t2, " · p99 "@, num_ink(p.p99), u);
    let t3 = t2 + ink(" · p99 "@) + num_ink(p.p99) + u;
    lemma_said_with(t3, " · max "@, num_ink(p.max), u);
}

/// A histogram of a phase gives each of its numbers under its own name, behind the name of the metric.
pub proof fn a_phase_names_the_numbers_of_a_histogram(name: Seq<char>, p: Percentiles)
    ensures
        ({
            let text = phase_hist_line((name, p));
            &&& holds(text, ink(name) + ink(": n="@) + count_ink(p.count))
            &&& says(text, " p50 "@, num_ink(p.p50))
            &&& says(text, " p95 "@, num_ink(p.p95))
            &&& says(text, " p99 "@, num_ink(p.p99))
            &&& says(text, " max "@, num_ink(p.max))
        }),
{
    let t0 = ink("      "@) + ink(name) + ink(": n="@) + count_ink(p.count);
    assert(t0 =~= ink("      "@) + (ink(name) + ink(": n="@) + count_ink(p.count)));
    lemma_holds(ink("      "@), ink(name) + ink(": n="@) + count_ink(p.count), Seq::empty());
    lemma_said(t0, " p50 "@, num_ink(p.p50));
    let t1 = t0 + ink(" p50 "@) + num_ink(p.p50);
    lemma_said(t1, " p95 "@, num_ink(p.p95));
    let t2 = t1 + ink(" p95 "@) + num_ink(p.p95);
    lemma_said(t2, " p99 "@, num_ink(p.p99));
    let t3 = t2 + ink(" p99 "@) + num_ink(p.p99);
    lemma_said(t3, " max "@, num_ink(p.max));
    let t4 = t3 + ink(" max "@) + num_ink(p.max);
    lemma_longer(Seq::empty(), t4, ink("\n"@));
}

/// The line of a metric gives each of its numbers under its own name: of a counter the total and the
/// rate, of a gauge the last value and the greatest, of a histogram the count and the percentiles.
pub proof fn a_metric_line_names_its_numbers(name: Seq<char>, m: MetricSummaryModel)
    ensures
        ({
            let text = metric_line(name, m);
            &&& m.kind == "counter"@ && m.total is Some && m.mean_rate_per_second is Some ==> {
                &&& holds(text, ink(name) + ink(": total "@) + num_ink(m.total->0))
                &&& says(text, "  mean "@, seq![Glyph::Fixed(m.mean_rate_per_second->0, 2)])
            }
            &&& m.kind == "gauge"@ && m.kind != "counter"@ && m.last is Some && m.max is Some ==> {
                &&& holds(text, ink(name) + ink(": last "@) + num_ink(m.last->0))
                &&& says(text, "  max "@, num_ink(m.max->0))
            }
            &&& m.kind != "gauge"@ && m.kind != "counter"@ && m.percentiles is Some ==> {
                let p = m.percentiles->0;
                &&& holds(text, ink(name) + ink(": n="@) + count_ink(p.count))
                &&& says(text, " p50 "@, num_ink(p.p50))
                &&& says(text, " p90 "@, num_ink(p.p90))
                &&& says(text, " p95 "@, num_ink(p.p95))
                &&& says(text, " p99 "@, num_ink(p.p99))
                &&& says(text, " max "@, num_ink(p.max))
                &&& says(text, " mean "@, num_ink(p.mean))
            }
        }),
{
    let front = ink("  "@);
    let head = front + ink(name);
    if m.kind == "counter"@ {
        if m.total is Some && m.mean_rate_per_second is Some {
            let t0 = head + ink(": total "@) + num_ink(m.total->0);
            let first = ink(name) + ink(": total "@) + num_ink(m.total->0);
            assert(t0 =~= front + first);
            lemma_holds(front, first, Seq::empty());
            let rate = seq![Glyph::Fixed(m.mean_rate_per_second->0, 2)];
            lemma_said(t0, "  mean "@, rate);
            lemma_longer(Seq::empty(), t0 + ink("  mean "@) + rate, ink("/s\n"@));
        }
    } else if m.kind == "gauge"@ {
        if m.last is Some && m.max is Some {
            let t0 = head + ink(": last "@) + num_ink(m.last->0);
            let first = ink(name) + ink(": last "@) + num_ink(m.last->0);
            assert(t0 =~= front + first);
            lemma_holds(front, first, Seq::empty());
            lemma_said(t0, "  max "@, num_ink(m.max->0));
            lemma_longer(Seq::empty(), t0 + ink("  max "@) + num_ink(m.max->0), ink("\n"@));
        }
    } else if m.percentiles is Some {
        let p = m.percentiles->0;
        let u = ink(or_empty(m.unit));
        let t0 = head + ink(": n="@) + count_ink(p.count);
        let first = ink(name) + ink(": n="@) + count_ink(p.count);
        assert(t0 =~= front + first);
        lemma_holds(front, first, Seq::empty());
        lemma_said_with(t0, " p50 "@, num_ink(p.p50), u);
        let t1 = t0 + ink(" p50 "@) + num_ink(p.p50) + u;
        lemma_said_with(t1, " p90 "@, num_ink(p.p90), u);
        let t2 = t1 + ink(" p90 "@) + num_ink(p.p90) + u;
        lemma_said_with(t2, " p95 "@, num_ink(p.p95), u);
        let t3 = t2 + ink(" p95 "@) + num_ink(p.p95) + u;
        lemma_said_with(t3, " p99 "@, num_ink(p.p99), u);
        let t4 = t3 + ink(" p99 "@) + num_ink(p.p99) + u;
        lemma_said_with(t4, " max "@, num_ink(p.max), u);
        let t5 = t4 + ink(" max "@) + num_ink(p.max) + u;
        lemma_said_with(t5, " mean "@, num_ink(p.mean), u);
        let t6 = t5 + ink(" mean "@) + num_ink(p.mean) + u;
        lemma_longer(Seq::empty(), t6, ink("\n"@));
    }
}

/// What stands beside a metric in the list: of a counter its total and its recent rate, of a gauge its
/// last value, of a histogram its count, p50 and p95.
pub proof fn a_headline_names_its_numbers(m: MetricModel)
    ensures
        ({
            let text = headline_ink(m);
            match m.aggregate {
                AggregateModel::Counter { total, per_second, .. } => holds(text, num_ink(total) + ink(" total  "@))
                    && holds(text, seq![Glyph::Fixed(recent_rate(per_second), 1)] + ink("/s"@)),
                AggregateModel::Gauge { last, .. } => text == num_ink(last),
                AggregateModel::Histogram { all, .. } => all.len() > 0 ==> {
                    &&& says(text, "n="@, count_ink(percentiles_of(all).count))
                    &&& says(text, "  p50 "@, num_ink(percentiles_of(all).p50))
                    &&& says(text, "  p95 "@, num_ink(percentiles_of(all).p95))
                },
            }
        }),
{
    match m.aggregate {
        AggregateModel::Counter { total, per_second, .. } => {
            let t = num_ink(total) + ink(" total  "@);
            let r = seq![Glyph::Fixed(recent_rate(per_second), 1)] + ink("/s"@);
            assert(headline_ink(m) =~= t + r);
            lemma_holds(t, r, Seq::empty());
            lemma_holds(Seq::empty(), t, r);
        },
        AggregateModel::Gauge { .. } => {},
        AggregateModel::Histogram { all, .. } => {
            if all.len() > 0 {
                let p = percentiles_of(all);
                let u = ink(or_empty(m.spec.unit));
                let t0 = ink("n="@) + count_ink(p.count);
                lemma_first("n="@, count_ink(p.count));
                lemma_said_with(t0, "  p50 "@, num_ink(p.p50), u);
                let t1 = t0 + ink("  p50 "@) + num_ink(p.p50) + u;
                lemma_said_with(t1, "  p95 "@, num_ink(p.p95), u);
            }
        },
    }
}

/// The cell of a histogram on the screen gives p50, p95 and p99 in this order.
pub proof fn a_screen_cell_gives_three_percentiles(p: PhaseSummaryModel, name: Seq<char>)
    requires
        lookup(p.histograms, name) is Some,
    ensures
        ({
            let h = lookup(p.histograms, name)->0;
            let text = crate::ui::phases::hist_cell(p, name);
            &&& holds(text, num_ink(h.p50) + ink("/"@) + num_ink(h.p95))
            &&& holds(text, num_ink(h.p95) + ink("/"@) + num_ink(h.p99))
            &&& text.len() == num_ink(h.p50).len() + num_ink(h.p95).len() + num_ink(h.p99).len() + 2 * ink("/"@).len()
        }),
{
    let h = lookup(p.histograms, name)->0;
    let low = num_ink(h.p50) + ink("/"@) + num_ink(h.p95);
    let high = num_ink(h.p95) + ink("/"@) + num_ink(h.p99);
    let text = crate::ui::phases::hist_cell(p, name);
    assert(text =~= low + (ink("/"@) + num_ink(h.p99)));
    lemma_holds(Seq::empty(), low, ink("/"@) + num_ink(h.p99));
    assert(text =~= (num_ink(h.p50) + ink("/"@)) + high);
    lemma_holds(num_ink(h.p50) + ink("/"@), high, Seq::empty());
}

/// The cell of a gauge in a table gives its greatest value before its slope, with a plus in front of
/// one that rises.
pub proof fn a_gauge_cell_gives_its_maximum_and_slope(p: PhaseSummaryModel, name: Seq<char>)
    requires
        lookup(p.gauges, name) is Some,
    ensures
        ({
            let g = lookup(p.gauges, name)->0;
            let text = gauge_cell(p, name);
            &&& holds(text, num_ink(g.max) + ink(" / "@))
            &&& holds(text, num_ink(g.slope) + ink(" | "@))
            &&& zero(false).below(g.slope) ==> holds(text, ink("+"@) + num_ink(g.slope))
        }),
{
    let g = lookup(p.gauges, name)->0;
    let sign = ink(
        if zero(false).below(g.slope) {
            "+"@
        } else {
            ""@
        },
    );
    lemma_five(num_ink(g.max), ink(" / "@), sign, num_ink(g.slope), ink(" | "@));
}

proof fn lemma_five(a: Seq<Glyph>, b: Seq<Glyph>, c: Seq<Glyph>, d: Seq<Glyph>, e: Seq<Glyph>)
    ensures
        holds(a + b + c + d + e, a + b),
        holds(a + b + c + d + e, c + d),
        holds(a + b + c + d + e, d + e),
{
    let text = a + b + c + d + e;
    assert(text =~= (a + b) + (c + d) + e);
    lemma_holds(a + b, c + d, e);
    assert(text =~= (a + b) + (c + d + e));
    lemma_holds(Seq::empty(), a + b, c + d + e);
    assert(text =~= (a + b + c) + (d + e));
    lemma_holds(a + b + c, d + e, Seq::empty());
}

/// The cell of a metric in a table gives each of its numbers under its own name.
pub proof fn a_metric_cell_names_its_numbers(m: MetricSummaryModel)
    ensures
        m.kind == "counter"@ && m.total is Some && m.mean_rate_per_second is Some ==> {
            &&& says(md_value(m), "total "@, num_ink(m.total->0))
            &&& says(md_value(m), " · mean "@, seq![Glyph::Fixed(m.mean_rate_per_second->0, 2)])
        },
        m.kind != "counter"@ && m.kind == "gauge"@ && m.last is Some && m.max is Some ==> {
            &&& says(md_value(m), "last "@, num_ink(m.last->0))
            &&& says(md_value(m), " · max "@, num_ink(m.max->0))
        },
        m.kind != "counter"@ && m.kind != "gauge"@ && m.percentiles is Some ==> md_value(m) == md_percentiles(
            m.percentiles->0,
            or_empty(m.unit),
        ),
{
    if m.kind == "counter"@ && m.total is Some && m.mean_rate_per_second is Some {
        let t0 = ink("total "@) + num_ink(m.total->0);
        let rate = seq![Glyph::Fixed(m.mean_rate_per_second->0, 2)];
        lemma_first("total "@, num_ink(m.total->0));
        lemma_said_with(t0, " · mean "@, rate, ink("/s"@));
        let t1 = t0 + ink(" · mean "@) + rate + ink("/s"@);
        let rows = if m.by_label.len() == 0 {
            Seq::empty()
        } else {
            ink(" · "@) + crate::doc::joined(crate::markdown::sum_entries(m.by_label), ", "@)
        };
        lemma_longer(Seq::empty(), t1, rows);
    }
    if m.kind != "counter"@ && m.kind == "gauge"@ && m.last is Some && m.max is Some {
        lemma_first("last "@, num_ink(m.last->0));
        lemma_said(ink("last "@) + num_ink(m.last->0), " · max "@, num_ink(m.max->0));
    }
}

/// A phase of the text report holds a line for each of its counters and histograms.
pub proof fn a_phase_block_holds_its_metrics(p: PhaseSummaryModel, duration: u64)
    ensures
        forall|i: int|
            0 <= i < p.counters.len() ==> holds(
                phase_block(p, duration),
                #[trigger] phase_counter_line(p.counters[i], p.counter_labels),
            ),
        forall|i: int|
            0 <= i < p.histograms.len() ==> holds(phase_block(p, duration), #[trigger] phase_hist_line(p.histograms[i])),
{
    let text = phase_block(p, duration);
    let counters = concat(phase_counter_lines(p));
    let hists = concat(phase_hist_lines(p));
    let head = ink("  ["@) + ink(p.name) + ink("] "@) + count_ink(crate::render::lasted(p, duration)) + ink(
        if p.end_second is Some {
            "s\n"@
        } else {
            "s+\n"@
        },
    );
    assert forall|i: int| 0 <= i < p.counters.len() implies holds(
        text,
        #[trigger] phase_counter_line(p.counters[i], p.counter_labels),
    ) by {
        lemma_stretch(phase_counter_lines(p), i);
        lemma_longer(head, counters, hists);
    }
    assert forall|i: int| 0 <= i < p.histograms.len() implies holds(
        text,
        #[trigger] phase_hist_line(p.histograms[i]),
    ) by {
        lemma_stretch(phase_hist_lines(p), i);
        lemma_longer(head + counters, hists, Seq::empty());
    }
}

/// The text report holds the verdict, the line of every metric, and every phase.
pub proof fn a_text_report_holds_everything(s: RunSummaryModel)
    ensures
        holds(text_report(s), verdict_block(s.verdicts)),
        forall|i: int|
            0 <= i < s.metrics.len() ==> holds(text_report(s), #[trigger] metric_line(s.metrics[i].0, s.metrics[i].1)),
        forall|i: int|
            0 <= i < s.phases.len() ==> holds(text_report(s), #[trigger] phase_block(s.phases[i], s.duration_seconds)),
{
    let text = text_report(s);
    let head = ink("run "@) + ink(s.run) + ink(" ("@) + ink(s.scenario) + ink(") — "@) + ink(s.status) + ink(" — "@)
        + count_ink(s.duration_seconds) + ink("s\n"@);
    let verdict = verdict_block(s.verdicts);
    let metrics = concat(metric_blocks(s.metrics));
    let phases = if s.phases.len() == 0 {
        Seq::empty()
    } else {
        ink("\nphases:\n"@) + concat(phase_blocks(s.phases, s.duration_seconds))
    };
    let unknown = if s.unknown_metrics.len() == 0 {
        Seq::empty()
    } else {
        ink("\nundeclared metrics ignored: {"@) + crate::doc::joined(
            crate::render::unknown_entries(s.unknown_metrics),
            ", "@,
        ) + ink("}\n"@)
    };
    assert(text == head + verdict + metrics + phases + unknown);
    lemma_holds(head, verdict, metrics);
    lemma_longer(Seq::empty(), head + verdict + metrics, phases);
    lemma_longer(Seq::empty(), head + verdict + metrics + phases, unknown);
    assert forall|i: int| 0 <= i < s.metrics.len() implies holds(
        text,
        #[trigger] metric_line(s.metrics[i].0, s.metrics[i].1),
    ) by {
        let line = metric_line(s.metrics[i].0, s.metrics[i].1);
        lemma_holds(Seq::empty(), line, concat(breakdown_lines(s.metrics[i].1.by_label)));
        assert(holds(metric_blocks(s.metrics)[i], line));
        lemma_stretch(metric_blocks(s.metrics), i);
        lemma_longer(head + verdict, metrics, phases);
    }
    assert forall|i: int| 0 <= i < s.phases.len() implies holds(
        text,
        #[trigger] phase_block(s.phases[i], s.duration_seconds),
    ) by {
        lemma_stretch(phase_blocks(s.phases, s.duration_seconds), i);
        lemma_longer(ink("\nphases:\n"@), concat(phase_blocks(s.phases, s.duration_seconds)), Seq::empty());
        lemma_longer(head + verdict + metrics, phases, unknown);
    }
}

/// A judged run says its verdict in a word, and names its ceiling and its first failure; a run that was
/// not judged says nothing.
pub proof fn a_verdict_is_said_in_a_word(v: VerdictsModel)
    ensures
        v.overall is None ==> verdict_text(v) is None && verdict_block(v).len() == 0,
        v.overall is Some ==> {
            &&& verdict_text(v) is Some
            &&& holds(verdict_block(v), ink(verdict_text(v)->0))
            &&& v.overall->0.pass == Some(true) ==> holds(verdict_text(v)->0, "verdict "@ + "PASS"@)
            &&& v.overall->0.pass == Some(false) ==> holds(verdict_text(v)->0, "verdict "@ + "FAIL"@)
            &&& v.overall->0.pass is None ==> holds(verdict_text(v)->0, "verdict "@ + "not judged"@)
            &&& v.ceiling is Some ==> holds(verdict_text(v)->0, "  ceiling = "@ + v.ceiling->0)
            &&& v.first_failure is Some ==> holds(verdict_text(v)->0, "  first failure = "@ + v.first_failure->0)
        },
{
    if v.overall is Some {
        let word = "verdict "@ + match v.overall->0.pass {
            Some(true) => "PASS"@,
            Some(false) => "FAIL"@,
            None => "not judged"@,
        };
        let ceiling = match v.ceiling {
            Some(c) => "  ceiling = "@ + c,
            None => ""@,
        };
        let failure = match v.first_failure {
            Some(f) => "  first failure = "@ + f,
            None => ""@,
        };
        let line = word + ceiling + failure;
        assert(verdict_text(v) == Some(line));
        lemma_holds(Seq::empty(), word, ceiling);
        lemma_longer(Seq::empty(), word + ceiling, failure);
        lemma_holds(word, ceiling, failure);
        lemma_holds(word + ceiling, failure, Seq::empty());
        lemma_holds(Seq::empty(), ink(line), ink("\n"@));
        lemma_longer(Seq::empty(), ink(line) + ink("\n"@), concat(all_failed_lines(v.phases)));
    }
}

/// A judged run names every check that failed, with its phase, its rule and the value that it had.
pub proof fn every_failed_check_is_named(v: VerdictsModel, i: int, j: int)
    requires
        v.overall is Some,
        0 <= i < v.phases.len(),
        0 <= j < v.phases[i].checks.len(),
        !v.phases[i].checks[j].pass,
    ensures
        ({
            let c = v.phases[i].checks[j];
            &&& holds(verdict_block(v), ink("  ✗ ["@) + ink(v.phases[i].phase) + ink("] "@) + ink(c.rule))
            &&& c.value is Some ==> says(verdict_block(v), "  actual "@, num_ink(c.value->0))
        }),
{
    let c = v.phases[i].checks[j];
    let phase = v.phases[i].phase;
    let line = failed_line(phase, c);
    let front = ink("  ✗ ["@) + ink(phase) + ink("] "@) + ink(c.rule);
    let value = match c.value {
        Some(n) => num_ink(n),
        None => Seq::empty(),
    };
    assert(line == front + ink("  actual "@) + value + ink("\n"@));
    lemma_holds(Seq::empty(), front, Seq::empty());
    lemma_said_with(front, "  actual "@, value, ink("\n"@));
    assert(failed_lines(v.phases[i])[j] == line);
    lemma_stretch(failed_lines(v.phases[i]), j);
    assert(all_failed_lines(v.phases)[i] == concat(failed_lines(v.phases[i])));
    lemma_stretch(all_failed_lines(v.phases), i);
    let first = ink(verdict_text(v)->0) + ink("\n"@);
    lemma_longer(first, concat(all_failed_lines(v.phases)), Seq::empty());
}

/// The report of a run in Markdown has a row for every metric, every phase and every threshold.
pub proof fn a_markdown_report_holds_everything(s: RunSummaryModel, pretty: Seq<char>)
    ensures
        forall|i: int|
            0 <= i < s.metrics.len() ==> holds(
                md_report(s, pretty),
                #[trigger] metric_row(s.metrics[i].0, s.metrics[i].1),
            ),
        forall|i: int| 0 <= i < s.phases.len() ==> holds(md_report(s, pretty), #[trigger] phase_row(s, s.phases[i])),
        forall|i: int|
            0 <= i < s.thresholds.len() ==> holds(md_report(s, pretty), #[trigger] rule_row(s, s.thresholds[i])),
{
    let text = md_report(s, pretty);
    let a = md_head(s);
    let b = md_thresholds(s);
    let c = md_phases(s);
    let d = md_metrics(s);
    let e = if s.scenario_summary == "null"@ {
        Seq::empty()
    } else {
        crate::markdown::md_details(pretty)
    };
    assert(text == a + b + c + d + e);
    lemma_longer(a, b, c);
    lemma_longer(Seq::empty(), a + b + c, d);
    lemma_longer(Seq::empty(), a + b + c + d, e);
    lemma_longer(a + b, c, d);
    lemma_longer(a + b + c, d, e);
    assert forall|i: int| 0 <= i < s.metrics.len() implies holds(
        text,
        #[trigger] metric_row(s.metrics[i].0, s.metrics[i].1),
    ) by {
        lemma_stretch(metric_rows(s.metrics), i);
        lemma_longer(
            ink("### Metrics (whole run)\n\n| metric | kind | value |\n|---|---|---|\n"@),
            concat(metric_rows(s.metrics)),
            ink("\n"@),
        );
    }
    assert forall|i: int| 0 <= i < s.phases.len() implies holds(text, #[trigger] phase_row(s, s.phases[i])) by {
        lemma_stretch(phase_rows(s), i);
        lemma_phase_rows(s);
    }
    assert forall|i: int| 0 <= i < s.thresholds.len() implies holds(text, #[trigger] rule_row(s, s.thresholds[i])) by {
        lemma_stretch(rule_rows(s), i);
        lemma_rule_rows(s);
    }
}

proof fn lemma_phase_rows(s: RunSummaryModel)
    requires
        s.phases.len() > 0,
    ensures
        forall|part: Seq<Glyph>| #[trigger] holds(concat(phase_rows(s)), part) ==> holds(md_phases(s), part),
{
    let rows = concat(phase_rows(s));
    let counters = names_of_kind(s.metrics, "counter"@);
    let hists = names_of_kind(s.metrics, "histogram"@);
    let gauges = names_of_kind(s.metrics, "gauge"@);
    let front = ink("### Phases\n\n| phase | duration | "@) + concat(title_cells(counters, " | "@)) + concat(
        title_cells(hists, " | "@),
    ) + concat(title_cells(gauges, " (max / slope) | "@)) + ink("\n|---|---|"@) + concat(
        column_rules(counters.len()),
    ) + concat(column_rules(hists.len())) + concat(column_rules(gauges.len())) + ink("\n"@);
    lemma_longer(front, rows, ink("\n"@));
}

proof fn lemma_rule_rows(s: RunSummaryModel)
    requires
        s.thresholds.len() > 0,
    ensures
        forall|part: Seq<Glyph>| #[trigger] holds(concat(rule_rows(s)), part) ==> holds(md_thresholds(s), part),
{
    let rows = concat(rule_rows(s));
    let front = ink("### Thresholds\n\n| rule | overall | "@) + concat(phase_titles(s.verdicts.phases)) + ink(
        "\n|---|---|"@,
    ) + concat(column_rules(s.verdicts.phases.len())) + ink("\n"@);
    lemma_longer(front, rows, ink("\n"@));
}

/// The report of several runs has the report of each, and a row for each in the overview.
pub proof fn every_run_is_in_the_report(runs: Seq<RunSummaryModel>, i: int)
    requires
        0 <= i < runs.len(),
    ensures
        holds(md_reports(runs), md_report(runs[i], crate::markdown::pretty_of(runs[i]))),
        runs.len() > 1 ==> holds(md_reports(runs), run_row(runs[i])),
{
    let title = ink("# Load test report\n\n"@);
    let table = ink("| run | status | verdict | ceiling |\n|---|---|---|---|\n"@);
    let rows = concat(run_rows(runs));
    let overview = if runs.len() > 1 {
        table + rows + ink("\n"@)
    } else {
        Seq::empty()
    };
    let reports = concat(run_reports(runs));
    lemma_stretch(run_reports(runs), i);
    lemma_longer(title + overview, reports, Seq::empty());
    lemma_stretch(run_rows(runs), i);
    lemma_longer(table, rows, ink("\n"@));
    lemma_longer(title, overview, reports);
}

/// A finite number is shown itself, with fewer decimals the larger it is: none from ten thousand on, one
/// from a hundred on, two below that. What is not finite is shown as a dash.
pub proof fn a_number_is_shown_by_its_size(v: Number)
    ensures
        !v.finite() ==> num_ink(v) == ink("-"@),
        v.finite() && v.size() >= 10_000 * one_unit() ==> num_ink(v) == seq![Glyph::Fixed(v, 0)],
        v.finite() && 100 * one_unit() <= v.size() < 10_000 * one_unit() ==> num_ink(v) == seq![Glyph::Fixed(v, 1)],
        v.finite() && v.size() < 100 * one_unit() ==> num_ink(v) == seq![Glyph::Fixed(v, 2)],
{
    whole_numbers_are_exact(10_000);
    whole_numbers_are_exact(100);
    vstd::arithmetic::power2::lemma_pow2_pos(1074);
    if v.finite() {
        let a = v.absolute();
        assert(a.magnitude() == v.magnitude());
        order_is_that_of_the_values(of_nat(10_000), a);
        order_is_that_of_the_values(of_nat(100), a);
    }
}

} // verus!
