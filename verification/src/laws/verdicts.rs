//! Verdicts: which phases are judged, which of them pass, and what the ceiling is.

use vstd::prelude::*;
use crate::metrics::PhaseSummaryModel;
use crate::verdict::{
    ceiling_of, checked, checks_of, evaluated, first_failure_of, in_range, judged_value, no_verdicts, phase_verdict,
    skipped, PhaseVerdictModel, ThresholdModel,
};

verus! {

/// The ceiling is the last phase in which every applicable threshold held; there is none exactly
/// where no phase passed.
pub proof fn the_ceiling_is_the_last_passing_phase(vs: Seq<PhaseVerdictModel>)
    ensures
        match ceiling_of(vs) {
            Some(name) => exists|i: int|
                0 <= i < vs.len() && (#[trigger] vs[i]).phase == name && vs[i].pass == Some(true) && forall|j: int|
                    i < j < vs.len() ==> (#[trigger] vs[j]).pass != Some(true),
            None => forall|j: int| 0 <= j < vs.len() ==> (#[trigger] vs[j]).pass != Some(true),
        },
    decreases vs.len(),
{
    if vs.len() > 0 {
        let n = vs.len() - 1;
        if vs.last().pass == Some(true) {
            assert(vs[n].phase == vs.last().phase);
        } else {
            let rest = vs.drop_last();
            the_ceiling_is_the_last_passing_phase(rest);
            assert(forall|j: int| 0 <= j < n ==> #[trigger] vs[j] == rest[j]);
            if ceiling_of(rest) is Some {
                let name = ceiling_of(rest)->0;
                let i = choose|i: int|
                    0 <= i < rest.len() && (#[trigger] rest[i]).phase == name && rest[i].pass == Some(true)
                        && forall|j: int| i < j < rest.len() ==> (#[trigger] rest[j]).pass != Some(true);
                assert(vs[i].phase == name && vs[i].pass == Some(true));
                assert forall|j: int| i < j < vs.len() implies (#[trigger] vs[j]).pass != Some(true) by {
                    if j < n {
                        assert(rest[j].pass != Some(true));
                    }
                }
            }
        }
    }
}

/// The first failure is the first phase in which a threshold did not hold; there is none exactly
/// where no phase failed.
pub proof fn the_first_failure_is_the_first_failing_phase(vs: Seq<PhaseVerdictModel>)
    ensures
        match first_failure_of(vs) {
            Some(name) => exists|i: int|
                0 <= i < vs.len() && (#[trigger] vs[i]).phase == name && vs[i].pass == Some(false) && forall|j: int|
                    0 <= j < i ==> (#[trigger] vs[j]).pass != Some(false),
            None => forall|j: int| 0 <= j < vs.len() ==> (#[trigger] vs[j]).pass != Some(false),
        },
    decreases vs.len(),
{
    if vs.len() > 0 {
        let n = vs.len() - 1;
        let rest = vs.drop_last();
        the_first_failure_is_the_first_failing_phase(rest);
        assert(forall|j: int| 0 <= j < n ==> #[trigger] vs[j] == rest[j]);
        if first_failure_of(rest) is Some {
            let name = first_failure_of(rest)->0;
            let i = choose|i: int|
                0 <= i < rest.len() && (#[trigger] rest[i]).phase == name && rest[i].pass == Some(false) && forall|
                    j: int,
                |
                    0 <= j < i ==> (#[trigger] rest[j]).pass != Some(false);
            assert(vs[i].phase == name && vs[i].pass == Some(false));
            assert forall|j: int| 0 <= j < i implies (#[trigger] vs[j]).pass != Some(false) by {
                assert(rest[j].pass != Some(false));
            }
        } else {
            assert forall|j: int| 0 <= j < n implies (#[trigger] vs[j]).pass != Some(false) by {
                assert(rest[j].pass != Some(false));
            }
            if vs.last().pass == Some(false) {
                assert(vs[n].phase == vs.last().phase);
            }
        }
    }
}

/// The checks of a phase are those of the thresholds that do not skip it.
proof fn lemma_checks(ts: Seq<ThresholdModel>, p: PhaseSummaryModel, now_second: u64)
    ensures
        forall|i: int|
            0 <= i < ts.len() && !skipped(#[trigger] ts[i], p.name) ==> checks_of(ts, p, now_second).contains(
                checked(ts[i], p, now_second)->0,
            ),
        forall|k: int|
            0 <= k < checks_of(ts, p, now_second).len() ==> exists|i: int|
                0 <= i < ts.len() && !skipped(#[trigger] ts[i], p.name) && checked(ts[i], p, now_second) == Some(
                    #[trigger] checks_of(ts, p, now_second)[k],
                ),
    decreases ts.len(),
{
    if ts.len() > 0 {
        let rest = ts.drop_last();
        let n = ts.len() - 1;
        let cs = checks_of(ts, p, now_second);
        let before = checks_of(rest, p, now_second);
        lemma_checks(rest, p, now_second);
        assert forall|i: int| 0 <= i < ts.len() && !skipped(#[trigger] ts[i], p.name) implies cs.contains(
            checked(ts[i], p, now_second)->0,
        ) by {
            if i < n {
                assert(rest[i] == ts[i]);
                assert(before.contains(checked(rest[i], p, now_second)->0));
                let k = choose|k: int| 0 <= k < before.len() && before[k] == checked(rest[i], p, now_second)->0;
                assert(cs[k] == before[k]);
            } else {
                assert(cs[cs.len() - 1] == checked(ts[i], p, now_second)->0);
            }
        }
        assert forall|k: int| 0 <= k < cs.len() implies exists|i: int|
            0 <= i < ts.len() && !skipped(#[trigger] ts[i], p.name) && checked(ts[i], p, now_second) == Some(
                #[trigger] cs[k],
            ) by {
            if k < before.len() {
                assert(cs[k] == before[k]);
                let i = choose|i: int|
                    0 <= i < rest.len() && !skipped(#[trigger] rest[i], p.name) && checked(rest[i], p, now_second)
                        == Some(before[k]);
                assert(ts[i] == rest[i]);
                assert(!skipped(ts[i], p.name));
            } else {
                assert(!skipped(ts[n], p.name));
            }
        }
    }
}

/// A threshold that applies to a phase: it does not skip the phase, and the phase has data for it.
pub open spec fn applies(t: ThresholdModel, p: PhaseSummaryModel, now_second: u64) -> bool {
    !skipped(t, p.name) && judged_value(t, p, now_second) is Some
}

/// A phase fails if a threshold that applies does not hold, passes if some apply and all of them
/// hold, and is not judged if none applies.
pub proof fn a_phase_passes_when_every_applicable_threshold_holds(
    ts: Seq<ThresholdModel>,
    p: PhaseSummaryModel,
    now_second: u64,
)
    ensures
        (phase_verdict(ts, p, now_second).pass is Some) <==> exists|i: int|
            0 <= i < ts.len() && applies(#[trigger] ts[i], p, now_second),
        (phase_verdict(ts, p, now_second).pass == Some(false)) <==> exists|i: int|
            0 <= i < ts.len() && applies(#[trigger] ts[i], p, now_second) && !in_range(
                ts[i],
                judged_value(ts[i], p, now_second)->0,
            ),
{
    let cs = checks_of(ts, p, now_second);
    lemma_checks(ts, p, now_second);
    let judged = exists|i: int| 0 <= i < ts.len() && applies(#[trigger] ts[i], p, now_second);
    let failed = exists|i: int|
        0 <= i < ts.len() && applies(#[trigger] ts[i], p, now_second) && !in_range(
            ts[i],
            judged_value(ts[i], p, now_second)->0,
        );
    if judged {
        let i = choose|i: int| 0 <= i < ts.len() && applies(#[trigger] ts[i], p, now_second);
        assert(cs.contains(checked(ts[i], p, now_second)->0));
        let k = choose|k: int| 0 <= k < cs.len() && cs[k] == checked(ts[i], p, now_second)->0;
        assert(cs[k].value is Some);
    }
    if exists|k: int| 0 <= k < cs.len() && (#[trigger] cs[k]).value is Some {
        let k = choose|k: int| 0 <= k < cs.len() && (#[trigger] cs[k]).value is Some;
        let i = choose|i: int|
            0 <= i < ts.len() && !skipped(#[trigger] ts[i], p.name) && checked(ts[i], p, now_second) == Some(cs[k]);
        assert(applies(ts[i], p, now_second));
    }
    if failed {
        let i = choose|i: int|
            0 <= i < ts.len() && applies(#[trigger] ts[i], p, now_second) && !in_range(
                ts[i],
                judged_value(ts[i], p, now_second)->0,
            );
        assert(cs.contains(checked(ts[i], p, now_second)->0));
        let k = choose|k: int| 0 <= k < cs.len() && cs[k] == checked(ts[i], p, now_second)->0;
        assert(cs[k].value is Some && !cs[k].pass);
    }
    if exists|k: int| 0 <= k < cs.len() && (#[trigger] cs[k]).value is Some && !cs[k].pass {
        let k = choose|k: int| 0 <= k < cs.len() && (#[trigger] cs[k]).value is Some && !cs[k].pass;
        let i = choose|i: int|
            0 <= i < ts.len() && !skipped(#[trigger] ts[i], p.name) && checked(ts[i], p, now_second) == Some(cs[k]);
        assert(applies(ts[i], p, now_second));
    }
}

/// A phase whose name starts with one of a threshold's prefixes is never judged by it.
pub proof fn a_skipped_phase_is_never_judged(t: ThresholdModel, p: PhaseSummaryModel, now_second: u64, i: int)
    requires
        0 <= i < t.skip_phases.len(),
        crate::text::begins(p.name, t.skip_phases[i]),
    ensures
        checked(t, p, now_second) is None,
{
    assert(crate::text::begins(p.name, t.skip_phases[i]));
}

/// Without thresholds there are no verdicts.
pub proof fn no_thresholds_mean_no_verdicts(
    overall: PhaseSummaryModel,
    phases: Seq<PhaseSummaryModel>,
    now_second: u64,
)
    ensures
        evaluated(Seq::empty(), overall, phases, now_second) == no_verdicts(),
{
}

/// The whole run is judged as a phase with the same numbers is.
pub proof fn the_whole_run_is_judged_like_a_phase(
    ts: Seq<ThresholdModel>,
    p: PhaseSummaryModel,
    phases: Seq<PhaseSummaryModel>,
    other: PhaseSummaryModel,
    i: int,
    now_second: u64,
)
    requires
        ts.len() > 0,
        0 <= i < phases.len(),
        phases[i] == p,
    ensures
        evaluated(ts, p, phases, now_second).overall == Some(evaluated(ts, other, phases, now_second).phases[i]),
{
}

} // verus!
