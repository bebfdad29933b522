//! The table of phases.

use vstd::prelude::*;
use crate::app::{app_verdicts, App, AppModel};
use crate::doc::{count_ink, fmt_num, ink, join_docs, joined, num_ink, Doc, Glyph};
use crate::metrics::{MetricModel, PhaseSummary, PhaseSummaryModel};
use crate::number::{zero, Number};
use crate::protocol::MetricKind;
use crate::render::or_number;
use crate::sorted::{lookup, SortedMap};
use crate::store::{coherent, summaries, MetricStore};
use crate::text::{after_last, behind_last, str_same};
use crate::ui::{in_color, plain_style, Color, Style};
use crate::verdict::{PhaseVerdict, PhaseVerdictModel};

verus! {

/// A row of the table.
#[derive(Debug)]
pub struct PhaseRow {
    pub cells: Vec<Doc>,
    pub style: Style,
}

pub struct PhaseRowModel {
    pub cells: Seq<Seq<Glyph>>,
    pub style: Style,
}

impl DeepView for PhaseRow {
    type V = PhaseRowModel;

    open spec fn deep_view(&self) -> PhaseRowModel {
        PhaseRowModel { cells: self.cells.deep_view(), style: self.style }
    }
}

#[derive(Debug)]
pub struct PhaseTable {
    pub header: Vec<String>,
    pub rows: Vec<PhaseRow>,
}

pub struct PhaseTableModel {
    pub header: Seq<Seq<char>>,
    pub rows: Seq<PhaseRowModel>,
}

impl DeepView for PhaseTable {
    type V = PhaseTableModel;

    open spec fn deep_view(&self) -> PhaseTableModel {
        PhaseTableModel { header: self.header.deep_view(), rows: self.rows.deep_view() }
    }
}

/// The metric of that name is there and of that kind.
pub open spec fn is_of_kind(metrics: Seq<(Seq<char>, MetricModel)>, name: Seq<char>, kind: MetricKind) -> bool {
    match lookup(metrics, name) {
        Some(m) => m.spec.kind == kind,
        None => false,
    }
}

/// The metrics of a kind, in the order of their declaration.
pub open spec fn declared_of_kind(
    order: Seq<Seq<char>>,
    metrics: Seq<(Seq<char>, MetricModel)>,
    kind: MetricKind,
) -> Seq<Seq<char>> {
    order.filter(|name: Seq<char>| is_of_kind(metrics, name, kind))
}

fn names_of_kind(store: &MetricStore, kind: MetricKind) -> (r: Vec<String>)
    ensures
        r.deep_view() == declared_of_kind(store.deep_view().order, store.deep_view().metrics, kind),
{
    let ghost s = store.deep_view();
    let ghost keep = |name: Seq<char>| is_of_kind(s.metrics, name, kind);
    let names = store.names();
    let mut out: Vec<String> = Vec::new();
    let mut i: usize = 0;
    proof {
        reveal(Seq::filter);
        assert(s.order.take(0) =~= Seq::<Seq<char>>::empty());
        assert(out.deep_view() =~= s.order.take(0).filter(keep));
    }
    while i < names.len()
        invariant
            i <= names@.len(),
            s == store.deep_view(),
            names.deep_view() == s.order,
            keep == (|name: Seq<char>| is_of_kind(s.metrics, name, kind)),
            out.deep_view() == s.order.take(i as int).filter(keep),
        decreases names@.len() - i,
    {
        let ghost before = out.deep_view();
        let wanted: bool = match store.get(names[i].as_str()) {
            Some(m) => m.spec.kind == kind,
            None => false,
        };
        proof {
            reveal(Seq::filter);
            assert(s.order.take(i + 1).drop_last() =~= s.order.take(i as int));
            assert(s.order.take(i + 1).last() == names@[i as int]@);
            assert(wanted == keep(names@[i as int]@));
        }
        if wanted {
            out.push(names[i].clone());
            assert(out.deep_view() =~= before.push(names@[i as int]@));
        }
        i = i + 1;
    }
    assert(s.order.take(i as int) =~= s.order);
    out
}

/// The verdict on the first phase of that name.
pub open spec fn pass_of(vs: Seq<PhaseVerdictModel>, name: Seq<char>) -> Option<bool>
    decreases vs.len(),
{
    if vs.len() == 0 {
        None
    } else if vs.first().phase == name {
        vs.first().pass
    } else {
        pass_of(vs.drop_first(), name)
    }
}

fn find_pass(vs: &Vec<PhaseVerdict>, name: &str) -> (r: Option<bool>)
    ensures
        r == pass_of(vs.deep_view(), name@),
{
    let ghost models = vs.deep_view();
    let mut i: usize = 0;
    assert(models.skip(0) =~= models);
    while i < vs.len()
        invariant
            i <= vs@.len(),
            models == vs.deep_view(),
            pass_of(models, name@) == pass_of(models.skip(i as int), name@),
        decreases vs@.len() - i,
    {
        proof {
            assert(models.skip(i as int).first() == vs@[i as int].deep_view());
            assert(models.skip(i as int).drop_first() =~= models.skip(i + 1));
        }
        if str_same(vs[i].phase.as_str(), name) {
            return vs[i].pass;
        }
        i = i + 1;
    }
    None
}

pub open spec fn short_label(e: (Seq<char>, Number)) -> Seq<Glyph> {
    ink(behind_last(e.0, '=')) + ink(":"@) + seq![Glyph::Plain(e.1)]
}

/// The breakdown of a counter, each label by its value.
pub open spec fn short_labels(m: Seq<(Seq<char>, Number)>) -> Seq<Seq<Glyph>> {
    Seq::new(m.len(), |i: int| short_label(m[i]))
}

/// A counter of a phase: its total and its breakdown.
pub open spec fn counter_cell(p: PhaseSummaryModel, name: Seq<char>) -> Seq<Glyph> {
    num_ink(or_number(lookup(p.counters, name), zero(false))) + ink(" "@) + (match lookup(p.counter_labels, name) {
        Some(m) => joined(short_labels(m), " "@),
        None => Seq::empty(),
    })
}

fn labels_doc(m: &SortedMap<Number>) -> (r: Doc)
    ensures
        r@ == joined(short_labels(m@), " "@),
{
    let ghost parts = short_labels(m@);
    let mut docs: Vec<Doc> = Vec::new();
    let mut i: usize = 0;
    while i < m.len()
        invariant
            i <= m@.len(),
            parts == short_labels(m@),
            docs@.len() == i,
            forall|j: int| 0 <= j < i ==> (#[trigger] docs@[j])@ == parts[j],
        decreases m@.len() - i,
    {
        let mut one = Doc::of(after_last(m.key(i).as_str(), '=').as_str());
        one.text(":");
        one.plain(*m.value(i));
        docs.push(one);
        i = i + 1;
    }
    assert(docs.deep_view() =~= parts);
    join_docs(&docs, " ")
}

fn counter_doc(p: &PhaseSummary, name: &str) -> (r: Doc)
    ensures
        r@ == counter_cell(p.deep_view(), name@),
{
    let total: Number = match p.counters.get(name) {
        Some(v) => *v,
        None => Number { bits: 0 },
    };
    let mut out = fmt_num(total);
    out.text(" ");
    let labels = match p.counter_labels.get(name) {
        Some(m) => labels_doc(m),
        None => Doc::new(),
    };
    out.append(&labels);
    out
}

/// Three percentiles of a phase, or a dash.
pub open spec fn hist_cell(p: PhaseSummaryModel, name: Seq<char>) -> Seq<Glyph> {
    match lookup(p.histograms, name) {
        Some(x) => num_ink(x.p50) + ink("/"@) + num_ink(x.p95) + ink("/"@) + num_ink(x.p99),
        None => ink("-"@),
    }
}

fn hist_doc(p: &PhaseSummary, name: &str) -> (r: Doc)
    ensures
        r@ == hist_cell(p.deep_view(), name@),
{
    match p.histograms.get(name) {
        Some(x) => {
            let mut out = fmt_num(x.p50);
            out.text("/");
            out.append(&fmt_num(x.p95));
            out.text("/");
            out.append(&fmt_num(x.p99));
            out
        },
        None => Doc::of("-"),
    }
}

/// The second in which a phase ended, or the current one while it goes on.
pub open spec fn ended(p: PhaseSummaryModel, now_second: u64) -> u64 {
    match p.end_second {
        Some(e) => e,
        None => now_second,
    }
}

pub open spec fn mark(pass: Option<bool>) -> Seq<char> {
    match pass {
        Some(true) => "✓ "@,
        Some(false) => "✗ "@,
        None => ""@,
    }
}

pub open spec fn row_style(pass: Option<bool>) -> Style {
    match pass {
        Some(true) => in_color(Color::Green),
        Some(false) => in_color(Color::Red),
        None => plain_style(),
    }
}

/// The row of a phase.
pub open spec fn row_of(
    p: PhaseSummaryModel,
    pass: Option<bool>,
    now_second: u64,
    counters: Seq<Seq<char>>,
    hists: Seq<Seq<char>>,
) -> PhaseRowModel {
    PhaseRowModel {
        cells: seq![
            ink(mark(pass)) + ink(p.name),
            count_ink((ended(p, now_second) - p.start_second) as u64) + ink("s"@),
        ] + Seq::new(counters.len(), |i: int| counter_cell(p, counters[i])) + Seq::new(
            hists.len(),
            |i: int| hist_cell(p, hists[i]),
        ),
        style: row_style(pass),
    }
}

fn row(p: &PhaseSummary, pass: Option<bool>, now_second: u64, counters: &Vec<String>, hists: &Vec<String>) -> (r: PhaseRow)
    requires
        p.start_second <= ended(p.deep_view(), now_second),
    ensures
        r.deep_view() == row_of(p.deep_view(), pass, now_second, counters.deep_view(), hists.deep_view()),
{
    let ghost model = row_of(p.deep_view(), pass, now_second, counters.deep_view(), hists.deep_view());
    let (sign, fg): (&str, Option<Color>) = match pass {
        Some(true) => ("✓ ", Some(Color::Green)),
        Some(false) => ("✗ ", Some(Color::Red)),
        None => ("", None),
    };
    let mut name = Doc::of(sign);
    name.text(p.name.as_str());
    let end: u64 = match p.end_second {
        Some(e) => e,
        None => now_second,
    };
    let mut lasted = Doc::new();
    lasted.count(end - p.start_second);
    lasted.text("s");
    assert(lasted@ =~= model.cells[1]);
    let mut cells: Vec<Doc> = Vec::new();
    cells.push(name);
    cells.push(lasted);
    let mut i: usize = 0;
    while i < counters.len()
        invariant
            i <= counters@.len(),
            model == row_of(p.deep_view(), pass, now_second, counters.deep_view(), hists.deep_view()),
            cells@.len() == i + 2,
            forall|j: int| 0 <= j < i + 2 ==> (#[trigger] cells@[j])@ == model.cells[j],
        decreases counters@.len() - i,
    {
        let cell = counter_doc(p, counters[i].as_str());
        assert(cell@ == model.cells[i + 2]);
        cells.push(cell);
        i = i + 1;
    }
    let mut k: usize = 0;
    while k < hists.len()
        invariant
            k <= hists@.len(),
            model == row_of(p.deep_view(), pass, now_second, counters.deep_view(), hists.deep_view()),
            cells@.len() == counters@.len() + 2 + k,
            forall|j: int| 0 <= j < counters@.len() + 2 + k ==> (#[trigger] cells@[j])@ == model.cells[j],
        decreases hists@.len() - k,
    {
        let cell = hist_doc(p, hists[k].as_str());
        assert(cell@ == model.cells[counters@.len() + 2 + k]);
        cells.push(cell);
        k = k + 1;
    }
    assert(cells.deep_view() =~= model.cells);
    PhaseRow { cells, style: Style { fg, bg: None, bold: false } }
}

/// The titles of the columns.
pub open spec fn header_of(counters: Seq<Seq<char>>, hists: Seq<Seq<char>>) -> Seq<Seq<char>> {
    seq!["phase"@, "dur"@] + counters + Seq::new(hists.len(), |i: int| hists[i] + " p50/p95/p99"@)
}

fn header(counters: &Vec<String>, hists: &Vec<String>) -> (r: Vec<String>)
    ensures
        r.deep_view() == header_of(counters.deep_view(), hists.deep_view()),
{
    let ghost model = header_of(counters.deep_view(), hists.deep_view());
    let mut out: Vec<String> = Vec::new();
    out.push("phase".to_owned());
    out.push("dur".to_owned());
    let mut i: usize = 0;
    while i < counters.len()
        invariant
            i <= counters@.len(),
            model == header_of(counters.deep_view(), hists.deep_view()),
            out@.len() == i + 2,
            forall|j: int| 0 <= j < i + 2 ==> (#[trigger] out@[j])@ == model[j],
        decreases counters@.len() - i,
    {
        assert(model[i + 2] == counters@[i as int]@);
        out.push(counters[i].clone());
        i = i + 1;
    }
    let mut k: usize = 0;
    while k < hists.len()
        invariant
            k <= hists@.len(),
            model == header_of(counters.deep_view(), hists.deep_view()),
            out@.len() == counters@.len() + 2 + k,
            forall|j: int| 0 <= j < counters@.len() + 2 + k ==> (#[trigger] out@[j])@ == model[j],
        decreases hists@.len() - k,
    {
        let mut title = hists[k].clone();
        title.append(" p50/p95/p99");
        assert(title@ == model[counters@.len() + 2 + k]);
        out.push(title);
        k = k + 1;
    }
    assert(out.deep_view() =~= model);
    out
}

/// The table of the phases so far, if there are any.
pub open spec fn table_of(a: AppModel) -> Option<PhaseTableModel> {
    let ps = summaries(a.store.phases);
    let counters = declared_of_kind(a.store.order, a.store.metrics, MetricKind::Counter);
    let hists = declared_of_kind(a.store.order, a.store.metrics, MetricKind::Histogram);
    if ps.len() == 0 {
        None
    } else {
        Some(
            PhaseTableModel {
                header: header_of(counters, hists),
                rows: Seq::new(
                    ps.len(),
                    |i: int|
                        row_of(
                            ps[i],
                            pass_of(app_verdicts(a).phases, ps[i].name),
                            a.store.current_second,
                            counters,
                            hists,
                        ),
                ),
            },
        )
    }
}

/// The table of the phases so far, if there are any.
pub fn phase_table(app: &App) -> (r: Option<PhaseTable>)
    requires
        coherent(app.deep_view().store),
    ensures
        r.deep_view() == table_of(app.deep_view()),
{
    let ghost a = app.deep_view();
    let ghost ps = summaries(a.store.phases);
    let phases = app.store.phase_summaries();
    if phases.len() == 0 {
        return None;
    }
    let counters = names_of_kind(&app.store, MetricKind::Counter);
    let hists = names_of_kind(&app.store, MetricKind::Histogram);
    let verdicts = app.verdicts();
    let now: u64 = app.store.current_second();
    let ghost model = table_of(a)->0;
    let mut rows: Vec<PhaseRow> = Vec::new();
    let mut i: usize = 0;
    while i < phases.len()
        invariant
            i <= phases@.len(),
            a == app.deep_view(),
            coherent(a.store),
            ps == summaries(a.store.phases),
            phases.deep_view() == ps,
            ps.len() > 0,
            model == table_of(a)->0,
            counters.deep_view() == declared_of_kind(a.store.order, a.store.metrics, MetricKind::Counter),
            hists.deep_view() == declared_of_kind(a.store.order, a.store.metrics, MetricKind::Histogram),
            verdicts.deep_view() == app_verdicts(a),
            now == a.store.current_second,
            rows@.len() == i,
            forall|j: int| 0 <= j < i ==> (#[trigger] rows@[j]).deep_view() == model.rows[j],
        decreases phases@.len() - i,
    {
        let p = &phases[i];
        proof {
            assert(p.deep_view() == ps[i as int]);
            assert(a.store.phases[i as int].start_second <= now);
            if i + 1 < ps.len() {
                assert(a.store.phases[i as int].start_second <= a.store.phases[i + 1].start_second);
            }
        }
        let pass: Option<bool> = find_pass(&verdicts.phases, p.name.as_str());
        let one = row(p, pass, now, &counters, &hists);
        assert(one.deep_view() == model.rows[i as int]);
        rows.push(one);
        i = i + 1;
    }
    assert(rows.deep_view() =~= model.rows);
    Some(PhaseTable { header: header(&counters, &hists), rows })
}

} // verus!
