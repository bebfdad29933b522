//! Keys and screens: what a key does to a run and to the list of configs, and what the screen shows of
//! time, logs and verdicts.

use vstd::prelude::*;
use crate::app::{finished, LogModel, StatusModel};
use crate::cli::{chosen, picked, PickerModel};
use crate::doc::ink;
use crate::markdown::find_check;
use crate::metrics::PhaseSummaryModel;
use crate::render::lasted;
use crate::runner::{pressed, Key, SessionModel};
use crate::ui::dashboard::{clock, log_entries, log_entry, shown_lines, two_digits};
use crate::ui::phases::pass_of;
use crate::verdict::{CheckModel, PhaseVerdictModel};

verus! {

/// The arrows move the selection by one metric, down to the next one and up to the one before, and go
/// round at the ends; the letters j and k do the same. Nothing else changes.
pub proof fn the_arrows_move_by_one(s: SessionModel, control: bool, cancelled: bool, now: u64)
    requires
        s.app.selected < s.app.store.order.len() <= usize::MAX,
    ensures
        ({
            let n = s.app.store.order.len();
            let down = pressed(s, Key::Down, control, cancelled, now);
            let up = pressed(s, Key::Up, control, cancelled, now);
            &&& down.0.app.selected == (if s.app.selected + 1 < n {
                s.app.selected + 1
            } else {
                0
            })
            &&& up.0.app.selected == (if s.app.selected > 0 {
                s.app.selected - 1
            } else {
                n - 1
            })
            &&& down.1 is Stay && up.1 is Stay
            &&& down.0.app.store == s.app.store && up.0.app.store == s.app.store
            &&& down.0.app.status == s.app.status && up.0.app.status == s.app.status
            &&& pressed(s, Key::Char('j'), control, cancelled, now) == down
            &&& pressed(s, Key::Char('k'), control, cancelled, now) == up
        }),
{
    let n = s.app.store.order.len() as int;
    let at = s.app.selected as int;
    if at + 1 < n {
        vstd::arithmetic::div_mod::lemma_small_mod((at + 1) as nat, n as nat);
    } else {
        vstd::arithmetic::div_mod::lemma_mod_self_0(n);
    }
    crate::laws::runs::lemma_back(at, n);
}

/// Asking a run that goes on to quit, or to stop, tells its scenario to stop and says so in the log;
/// only a request to quit is taken down as one.
pub proof fn asking_to_stop_tells_the_scenario(s: SessionModel, control: bool, now: u64)
    requires
        !finished(s.app.status),
        !s.scenario_done,
    ensures
        ({
            let q = pressed(s, Key::Char('q'), control, false, now);
            let stop = pressed(s, Key::Char('s'), control, false, now);
            &&& q.1 is Cancel && stop.1 is Cancel
            &&& q.0.app.status == StatusModel::Stopping && stop.0.app.status == StatusModel::Stopping
            &&& q.0.user_quit && stop.0.user_quit == s.user_quit
            &&& q.0.app.store == s.app.store && stop.0.app.store == s.app.store
            &&& pressed(s, Key::Char('c'), true, false, now) == q
        }),
{
}

/// In the list of configs the arrows move by one and go round at the ends, the enter key runs the one
/// selected, and q and escape leave the list.
pub proof fn the_list_of_configs_obeys_its_keys(p: PickerModel)
    requires
        chosen(p),
    ensures
        picked(p, Key::Down).0 == (PickerModel {
            selected: (if p.selected + 1 < p.runs {
                p.selected + 1
            } else {
                0
            }) as usize,
            ..p
        }),
        picked(p, Key::Up).0 == (PickerModel {
            selected: (if p.selected > 0 {
                p.selected - 1
            } else {
                p.runs - 1
            }) as usize,
            ..p
        }),
        picked(p, Key::Down).1 is Stay && picked(p, Key::Up).1 is Stay,
        picked(picked(p, Key::Down).0, Key::Up).0 == p,
        picked(picked(p, Key::Up).0, Key::Down).0 == p,
        picked(p, Key::Char('j')) == picked(p, Key::Down),
        picked(p, Key::Char('k')) == picked(p, Key::Up),
        picked(p, Key::Enter).0 == p && picked(p, Key::Enter).1 is Run,
        picked(p, Key::Escape).0 == p && picked(p, Key::Escape).1 is Leave,
        picked(p, Key::Char('q')).0 == p && picked(p, Key::Char('q')).1 is Leave,
{
}

/// The clock shows hours, minutes and seconds that make up the time: no more than 59 minutes and 59
/// seconds, and together the seconds that have passed.
pub proof fn the_clock_shows_the_time(seconds: u64) -> (shown: (u64, u64, u64))
    ensures
        clock(seconds) == two_digits(shown.0) + ink(":"@) + two_digits(shown.1) + ink(":"@) + two_digits(shown.2),
        shown.1 < 60,
        shown.2 < 60,
        shown.0 * 3600 + shown.1 * 60 + shown.2 == seconds,
{
    let shown = (seconds / 3600, (seconds / 60) % 60, seconds % 60);
    assert(shown.0 * 3600 + shown.1 * 60 + shown.2 == seconds) by (nonlinear_arith)
        requires
            shown.0 == seconds / 3600,
            shown.1 == (seconds / 60) % 60,
            shown.2 == seconds % 60,
    ;
    shown
}

/// A phase that has ended lasted from its start to its end, an open one until now.
pub proof fn a_phase_lasts_from_its_start(p: PhaseSummaryModel, duration: u64)
    requires
        p.end_second is Some ==> p.start_second <= p.end_second->0,
    ensures
        p.end_second is Some ==> p.start_second + lasted(p, duration) == p.end_second->0,
        p.end_second is None && p.start_second <= duration ==> p.start_second + lasted(p, duration) == duration,
        p.end_second is None && duration < p.start_second ==> lasted(p, duration) == 0,
{
}

/// The log pane shows the newest lines, oldest first, as many as it has room for.
pub proof fn the_log_shows_the_newest_lines(logs: Seq<LogModel>, height: u16)
    ensures
        ({
            let shown = log_entries(logs, height);
            let first = logs.len() - shown.len();
            &&& first >= 0
            &&& height > 3 ==> shown.len() <= height - 2
            &&& height > 3 && logs.len() <= height - 2 ==> shown.len() == logs.len()
            &&& height > 3 && logs.len() > height - 2 ==> shown.len() == height - 2
            &&& forall|i: int| 0 <= i < shown.len() ==> #[trigger] shown[i] == log_entry(logs[first + i])
        }),
{
    assert(log_entries(logs, height).len() == shown_lines(logs.len(), height));
}

/// The verdict beside a phase is that of the first judged phase of its name, and none where there is
/// no such phase.
pub proof fn a_phase_shows_its_own_verdict(vs: Seq<PhaseVerdictModel>, name: Seq<char>, i: int)
    requires
        0 <= i <= vs.len(),
        forall|j: int| 0 <= j < i ==> (#[trigger] vs[j]).phase != name,
    ensures
        i < vs.len() && vs[i].phase == name ==> pass_of(vs, name) == vs[i].pass,
        i == vs.len() ==> pass_of(vs, name) is None,
    decreases vs.len(),
{
    if i > 0 {
        let rest = vs.drop_first();
        assert(vs[0].phase != name);
        assert forall|j: int| 0 <= j < i - 1 implies (#[trigger] rest[j]).phase != name by {
            assert(vs[j + 1].phase != name);
        }
        a_phase_shows_its_own_verdict(rest, name, i - 1);
    }
}

/// The cell of a rule is that of the first check of the rule, and a skip where there is none.
pub proof fn a_rule_shows_its_own_check(checks: Seq<CheckModel>, rule: Seq<char>, i: int)
    requires
        0 <= i <= checks.len(),
        forall|j: int| 0 <= j < i ==> (#[trigger] checks[j]).rule != rule,
    ensures
        i < checks.len() && checks[i].rule == rule ==> find_check(checks, rule) == Some(checks[i]),
        i == checks.len() ==> find_check(checks, rule) is None,
    decreases checks.len(),
{
    if checks.len() > 0 {
        let rest = checks.drop_last();
        assert(forall|j: int| 0 <= j < rest.len() ==> #[trigger] rest[j] == checks[j]);
        if i < checks.len() {
            a_rule_shows_its_own_check(rest, rule, i);
        } else {
            assert(checks[i - 1].rule != rule);
            a_rule_shows_its_own_check(rest, rule, i - 1);
        }
    }
}

} // verus!
