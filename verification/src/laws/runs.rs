//! Runs: what every event keeps, how a run ends, and what a replay rebuilds.

use vstd::prelude::*;
use crate::app::{
    applied, elapsed, finished, selected_next, selected_prev, ticked, with_log, woken, AppModel, LogModel,
    LOG_CAPACITY,
};
use crate::json::{json_text, with_base_dir_spec};
use crate::laws::stores::{
    advancing_keeps_coherence, an_empty_store_is_coherent, beginning_a_phase_keeps_coherence,
    declaring_all_keeps_coherence, declaring_twice_is_declaring_once, phases_of_a_store_are_in_time,
    recording_all_keeps_coherence, recording_keeps_coherence,
};
use crate::metrics::{fresh_aggregate, MetricModel};
use crate::protocol::{Event, LogLevel, MetricKind, MetricSpecModel, Observation, ObservationModel};
use crate::render::phases_in_time;
use crate::report::{metric_summaries, metric_summary, run_summary};
use crate::runner::{fallen_silent, opened_app, pressed, Key, OpeningModel, SessionModel, Step};
use crate::sorted::{in_order, lemma_slot, lookup, lookup_after_store, store_keeps_order};
use crate::store::{all_declared, all_observed, all_rolled, coherent, empty_store, rolled_through, StoreModel};

verus! {

/// A run starts with a coherent store.
pub proof fn a_run_starts_coherent(o: OpeningModel, summary: serde_json::Value, now: u64)
    ensures
        coherent(opened_app(o, summary, now).store),
{
    an_empty_store_is_coherent();
    declaring_all_keeps_coherence(empty_store(), o.metrics);
}

/// Every event keeps the store coherent.
pub proof fn every_event_keeps_coherence(a: AppModel, event: Event, now: u64)
    requires
        coherent(a.store),
    ensures
        coherent(applied(a, event, now).store),
{
    let t = ticked(a, now).store;
    advancing_keeps_coherence(a.store, elapsed(a.started, now));
    match event {
        Event::Hello { metrics, .. } => declaring_all_keeps_coherence(t, metrics.deep_view()),
        Event::Phase { name } => beginning_a_phase_keeps_coherence(t, name@),
        Event::Observe(o) => recording_keeps_coherence(t, o.deep_view()),
        Event::Batch { observations } => recording_all_keeps_coherence(t, observations.deep_view()),
        _ => {},
    }
}

/// The summary of a run with a coherent store can be rendered: no phase ends before it starts.
pub proof fn the_summary_of_a_run_is_in_time(a: AppModel, started_at: Seq<char>, now: u64)
    requires
        coherent(a.store),
    ensures
        phases_in_time(run_summary(a, started_at, now).phases),
{
    phases_of_a_store_are_in_time(a.store);
}

/// The log holds no more lines than its capacity, and the newest line is its last.
pub proof fn the_log_keeps_the_newest_lines(a: AppModel, level: LogLevel, message: Seq<char>, now: u64)
    requires
        a.logs.len() <= LOG_CAPACITY,
    ensures
        with_log(a, level, message, now).logs.len() <= LOG_CAPACITY,
        with_log(a, level, message, now).logs.last() == (LogModel { second: elapsed(a.started, now), level, message }),
        a.logs.len() < LOG_CAPACITY ==> with_log(a, level, message, now).logs.drop_last() == a.logs,
        a.logs.len() == LOG_CAPACITY ==> with_log(a, level, message, now).logs.drop_last() == a.logs.drop_first(),
{
    let lines = with_log(a, level, message, now).logs;
    if a.logs.len() < LOG_CAPACITY {
        assert(lines.drop_last() =~= a.logs);
    } else {
        assert(lines.drop_last() =~= a.logs.drop_first());
    }
}

/// No event makes the log longer than its capacity.
pub proof fn every_event_keeps_the_log_bounded(a: AppModel, event: Event, now: u64)
    requires
        a.logs.len() <= LOG_CAPACITY,
    ensures
        applied(a, event, now).logs.len() <= LOG_CAPACITY,
{
}

/// The clock of a run never goes back.
pub proof fn the_clock_never_goes_back(a: AppModel, event: Event, now: u64)
    ensures
        applied(a, event, now).store.current_second >= a.store.current_second,
        applied(a, event, now).store.current_second >= elapsed(a.started, now),
{
    let t = ticked(a, now).store;
    match event {
        Event::Hello { metrics, .. } => lemma_declared_clock(t, metrics.deep_view()),
        Event::Batch { observations } => lemma_observed_clock(t, observations.deep_view()),
        _ => {},
    }
}

proof fn lemma_declared_clock(s: StoreModel, specs: Seq<MetricSpecModel>)
    ensures
        all_declared(s, specs).current_second == s.current_second,
    decreases specs.len(),
{
    if specs.len() > 0 {
        lemma_declared_clock(s, specs.drop_last());
    }
}

/// Declaring metrics does not look at the clock.
proof fn lemma_declared_at(s: StoreModel, specs: Seq<MetricSpecModel>, second: u64)
    ensures
        all_declared(StoreModel { current_second: second, ..s }, specs) == (StoreModel {
            current_second: second,
            ..all_declared(s, specs)
        }),
    decreases specs.len(),
{
    if specs.len() > 0 {
        lemma_declared_at(s, specs.drop_last(), second);
    }
}

proof fn lemma_observed_clock(s: StoreModel, os: Seq<ObservationModel>)
    ensures
        all_observed(s, os).current_second == s.current_second,
    decreases os.len(),
{
    if os.len() > 0 {
        lemma_observed_clock(s, os.drop_last());
    }
}

/// A run that has finished stays so, whatever its scenario goes on to report, unless it greets
/// or ends anew.
pub proof fn a_finished_run_stays_finished(a: AppModel, event: Event, now: u64)
    requires
        finished(a.status),
        !(event is Hello),
    ensures
        finished(applied(a, event, now).status),
        !(event is Done) && !(event is Error) ==> applied(a, event, now).status == a.status,
{
}

/// The summary that a scenario ends with stands in the report, and the run is done.
pub proof fn the_final_summary_is_copied_into_the_report(
    a: AppModel,
    summary: serde_json::Value,
    now: u64,
    started_at: Seq<char>,
    later: u64,
)
    ensures
        run_summary(applied(a, Event::Done { summary }, now), started_at, later).scenario_summary == json_text(summary),
        run_summary(applied(a, Event::Done { summary }, now), started_at, later).status == "Done"@,
{
}

/// A run whose scenario failed has not passed, whatever its numbers.
pub proof fn a_failed_run_never_passes(a: AppModel, message: String, now: u64, started_at: Seq<char>, later: u64)
    ensures
        match run_summary(applied(a, Event::Error { message }, now), started_at, later).verdicts.overall {
            Some(o) => o.pass == Some(false),
            None => a.thresholds.len() == 0,
        },
{
}

/// A run without thresholds is not judged.
pub proof fn a_run_without_thresholds_is_not_judged(a: AppModel, started_at: Seq<char>, now: u64)
    requires
        a.thresholds.len() == 0,
    ensures
        run_summary(a, started_at, now).verdicts == crate::verdict::no_verdicts(),
{
}

proof fn lemma_summaries_in_order(
    order: Seq<Seq<char>>,
    metrics: Seq<(Seq<char>, MetricModel)>,
    seconds: u64,
)
    ensures
        in_order(metric_summaries(order, metrics, seconds)),
    decreases order.len(),
{
    if order.len() > 0 {
        lemma_summaries_in_order(order.drop_last(), metrics, seconds);
        if lookup(metrics, order.last()) is Some {
            store_keeps_order(
                metric_summaries(order.drop_last(), metrics, seconds),
                order.last(),
                metric_summary(lookup(metrics, order.last())->0, seconds),
            );
        }
    }
}

proof fn lemma_summary_of(
    order: Seq<Seq<char>>,
    metrics: Seq<(Seq<char>, MetricModel)>,
    seconds: u64,
    name: Seq<char>,
)
    ensures
        lookup(metric_summaries(order, metrics, seconds), name) == (match lookup(metrics, name) {
            Some(m) => if order.contains(name) {
                Some(metric_summary(m, seconds))
            } else {
                None
            },
            None => None,
        }),
    decreases order.len(),
{
    if order.len() == 0 {
        lemma_slot(metric_summaries(order, metrics, seconds), name);
    } else {
        let rest = order.drop_last();
        lemma_summary_of(rest, metrics, seconds, name);
        lemma_summaries_in_order(rest, metrics, seconds);
        assert(order.contains(name) <==> rest.contains(name) || name == order.last()) by {
            assert(order[order.len() - 1] == order.last());
            if rest.contains(name) {
                let i = choose|i: int| 0 <= i < rest.len() && rest[i] == name;
                assert(order[i] == name);
            }
            if order.contains(name) && name != order.last() {
                let i = choose|i: int| 0 <= i < order.len() && order[i] == name;
                assert(rest[i] == name);
            }
        }
        if lookup(metrics, order.last()) is Some {
            lookup_after_store(
                metric_summaries(rest, metrics, seconds),
                order.last(),
                metric_summary(lookup(metrics, order.last())->0, seconds),
                name,
            );
        }
    }
}

/// The report has an entry for each declared metric, and for no other.
pub proof fn every_declared_metric_is_reported(a: AppModel, started_at: Seq<char>, now: u64, name: Seq<char>)
    requires
        coherent(a.store),
    ensures
        lookup(run_summary(a, started_at, now).metrics, name) == (match lookup(a.store.metrics, name) {
            Some(m) => Some(
                metric_summary(
                    m,
                    if elapsed(a.started, now) > 1 {
                        elapsed(a.started, now)
                    } else {
                        1
                    },
                ),
            ),
            None => None,
        }),
        lookup(run_summary(a, started_at, now).metrics, name) is Some <==> a.store.order.contains(name),
{
    let seconds = if elapsed(a.started, now) > 1 {
        elapsed(a.started, now)
    } else {
        1
    };
    lemma_summary_of(a.store.order, a.store.metrics, seconds, name);
    assert(a.store.order.contains(name) <==> lookup(a.store.metrics, name) is Some);
}

/// Moving the selection keeps it on a metric, and moving it there and back leaves it where it was.
pub proof fn the_selection_goes_round(a: AppModel)
    requires
        a.selected < a.store.order.len() <= usize::MAX,
    ensures
        selected_next(a).selected < a.store.order.len(),
        selected_prev(a).selected < a.store.order.len(),
        selected_prev(selected_next(a)) == a,
        selected_next(selected_prev(a)) == a,
{
    let n = a.store.order.len() as int;
    let s = a.selected as int;
    if s + 1 < n {
        vstd::arithmetic::div_mod::lemma_small_mod((s + 1) as nat, n as nat);
    } else {
        vstd::arithmetic::div_mod::lemma_mod_self_0(n);
    }
    lemma_back(s, n);
    let next = selected_next(a).selected as int;
    let prev = selected_prev(a).selected as int;
    lemma_back(next, n);
    if prev + 1 < n {
        vstd::arithmetic::div_mod::lemma_small_mod((prev + 1) as nat, n as nat);
    } else {
        vstd::arithmetic::div_mod::lemma_mod_self_0(n);
    }
    assert(selected_prev(selected_next(a)) =~= a);
    assert(selected_next(selected_prev(a)) =~= a);
}

pub(crate) proof fn lemma_back(s: int, n: int)
    requires
        0 <= s < n,
    ensures
        (s + n - 1) % n == (if s == 0 {
            n - 1
        } else {
            s - 1
        }),
{
    if s == 0 {
        vstd::arithmetic::div_mod::lemma_small_mod((n - 1) as nat, n as nat);
    } else {
        vstd::arithmetic::div_mod::lemma_mod_add_multiples_vanish(s - 1, n);
        vstd::arithmetic::div_mod::lemma_small_mod((s - 1) as nat, n as nat);
    }
}

/// A first request to quit a run that goes on tells its scenario to stop; a second one closes the
/// run.
pub proof fn asking_twice_to_quit_forces_it(s: SessionModel, now: u64, later: u64, control: bool)
    requires
        !finished(s.app.status),
        !s.scenario_done,
    ensures
        pressed(s, Key::Char('q'), control, false, now).1 == Step::Cancel,
        pressed(s, Key::Char('q'), control, false, now).0.user_quit,
        pressed(pressed(s, Key::Char('q'), control, false, now).0, Key::Char('q'), control, true, later).1
            == Step::Leave,
{
}

/// A request to quit closes a run that is over at once, and does not count as quitting it.
pub proof fn quitting_a_finished_run_leaves_at_once(s: SessionModel, control: bool, cancelled: bool, now: u64)
    requires
        finished(s.app.status) || s.scenario_done,
    ensures
        pressed(s, Key::Char('q'), control, cancelled, now) == (s, Step::Leave),
{
}

/// Switching the pane twice, or the log, changes nothing.
pub proof fn switching_twice_changes_nothing(s: SessionModel, control: bool, cancelled: bool, now: u64, later: u64)
    ensures
        pressed(pressed(s, Key::Tab, control, cancelled, now).0, Key::Tab, control, cancelled, later).0 == s,
        pressed(pressed(s, Key::Char('l'), control, cancelled, now).0, Key::Char('l'), control, cancelled, later).0
            == s,
{
    let t = pressed(pressed(s, Key::Tab, control, cancelled, now).0, Key::Tab, control, cancelled, later).0;
    assert(t.app =~= s.app);
    assert(t =~= s);
    let u = pressed(
        pressed(s, Key::Char('l'), control, cancelled, now).0,
        Key::Char('l'),
        control,
        cancelled,
        later,
    ).0;
    assert(u.app =~= s.app);
    assert(u =~= s);
}

/// A run whose scenario reports nothing more has finished.
pub proof fn a_silent_run_has_finished(s: SessionModel)
    ensures
        finished(fallen_silent(s).app.status),
        finished(s.app.status) ==> fallen_silent(s).app == s.app,
{
    if finished(s.app.status) {
        assert(fallen_silent(s).app =~= s.app);
    }
}

/// The directory of a config is exposed once, and a value that is there is never replaced.
pub proof fn the_base_directory_is_set_once(fields: Option<Map<Seq<char>, Seq<char>>>, base: Seq<char>, other: Seq<char>)
    ensures
        with_base_dir_spec(with_base_dir_spec(fields, base), other) == with_base_dir_spec(fields, base),
        fields is Some && fields->0.contains_key("_base_dir"@) ==> with_base_dir_spec(fields, base) == fields,
{
}

/// Events taken in one after the other, each at its time.
pub open spec fn ran(a: AppModel, events: Seq<(Event, u64)>) -> AppModel
    decreases events.len(),
{
    if events.len() == 0 {
        a
    } else {
        applied(ran(a, events.drop_last()), events.last().0, events.last().1)
    }
}

/// The observations as events of their own, all at one time.
pub open spec fn one_by_one(os: Seq<Observation>, now: u64) -> Seq<(Event, u64)> {
    Seq::new(os.len(), |i: int| (Event::Observe(os[i]), now))
}

/// A batch records what its observations record one by one at the same time.
pub proof fn a_batch_is_its_observations(a: AppModel, observations: Vec<Observation>, now: u64)
    requires
        observations@.len() > 0,
    ensures
        applied(a, Event::Batch { observations }, now).store == ran(a, one_by_one(observations@, now)).store,
        applied(a, Event::Batch { observations }, now).status == ran(a, one_by_one(observations@, now)).status,
        applied(a, Event::Batch { observations }, now).logs == ran(a, one_by_one(observations@, now)).logs,
{
    lemma_one_by_one(a, observations@, now);
    assert(observations.deep_view() =~= models_of(observations@));
}

spec fn models_of(os: Seq<Observation>) -> Seq<ObservationModel> {
    Seq::new(os.len(), |i: int| os[i].deep_view())
}

proof fn lemma_one_by_one(a: AppModel, os: Seq<Observation>, now: u64)
    requires
        os.len() > 0,
    ensures
        ran(a, one_by_one(os, now)).store == all_observed(ticked(a, now).store, models_of(os)),
        ran(a, one_by_one(os, now)).status == woken(a.status),
        ran(a, one_by_one(os, now)).logs == a.logs,
        ran(a, one_by_one(os, now)).started == a.started,
    decreases os.len(),
{
    let es = one_by_one(os, now);
    let rest = os.drop_last();
    assert(es.drop_last() =~= one_by_one(rest, now));
    assert(models_of(os).drop_last() =~= models_of(rest));
    let t = ticked(a, now).store;
    if rest.len() == 0 {
        assert(es.drop_last() =~= Seq::<(Event, u64)>::empty());
        assert(models_of(rest) =~= Seq::<ObservationModel>::empty());
    } else {
        lemma_one_by_one(a, rest, now);
        lemma_observed_clock(t, models_of(rest));
        let b = ran(a, es.drop_last());
        assert(ticked(b, now).store =~= b.store);
    }
}

/// The same events, each in the same second of its run.
pub open spec fn same_course(es: Seq<(Event, u64)>, started: u64, fs: Seq<(Event, u64)>, restarted: u64) -> bool {
    &&& es.len() == fs.len()
    &&& forall|i: int|
        0 <= i < es.len() ==> (#[trigger] es[i]).0 == fs[i].0 && elapsed(started, es[i].1) == elapsed(
            restarted,
            fs[i].1,
        )
}

/// Two runs in which the same was recorded.
pub open spec fn same_record(a: AppModel, b: AppModel) -> bool {
    &&& a.scenario_id == b.scenario_id
    &&& a.status == b.status
    &&& a.store == b.store
    &&& a.logs == b.logs
    &&& a.events_seen == b.events_seen
    &&& json_text(a.summary) == json_text(b.summary)
}

proof fn lemma_started(a: AppModel, events: Seq<(Event, u64)>)
    ensures
        ran(a, events).started == a.started,
        ran(a, events).thresholds == a.thresholds,
    decreases events.len(),
{
    if events.len() > 0 {
        lemma_started(a, events.drop_last());
    }
}

proof fn lemma_same_step(a: AppModel, b: AppModel, event: Event, now: u64, then: u64)
    requires
        same_record(a, b),
        elapsed(a.started, now) == elapsed(b.started, then),
    ensures
        same_record(applied(a, event, now), applied(b, event, then)),
{
}

/// Only histograms, which have no bucket for a second in which nothing is recorded.
pub open spec fn only_histograms(specs: Seq<MetricSpecModel>) -> bool {
    forall|i: int| 0 <= i < specs.len() ==> (#[trigger] specs[i]).kind == MetricKind::Histogram
}

proof fn lemma_fresh_histograms(specs: Seq<MetricSpecModel>)
    requires
        only_histograms(specs),
    ensures
        forall|i: int|
            0 <= i < all_declared(empty_store(), specs).metrics.len() ==> (#[trigger] all_declared(
                empty_store(),
                specs,
            ).metrics[i]).1.aggregate == fresh_aggregate(MetricKind::Histogram),
    decreases specs.len(),
{
    if specs.len() > 0 {
        let rest = specs.drop_last();
        assert forall|i: int| 0 <= i < rest.len() implies (#[trigger] rest[i]).kind == MetricKind::Histogram by {
            assert(rest[i] == specs[i]);
        }
        lemma_fresh_histograms(rest);
        let before = all_declared(empty_store(), rest).metrics;
        lemma_slot(before, specs[specs.len() - 1].name);
    }
}

proof fn lemma_fresh_histograms_stay(metrics: Seq<(Seq<char>, MetricModel)>, from: u64, to: u64)
    requires
        forall|i: int|
            0 <= i < metrics.len() ==> (#[trigger] metrics[i]).1.aggregate == fresh_aggregate(MetricKind::Histogram),
    ensures
        rolled_through(metrics, from, to) == metrics,
    decreases to - from,
{
    if from < to {
        assert(all_rolled(metrics, from) =~= metrics);
        lemma_fresh_histograms_stay(metrics, (from + 1) as u64, to);
    }
}

/// A run that is fed the events of a live run, each in the second in which it was recorded,
/// comes to the same metrics, phases, log and status, though it knew no metric beforehand: the
/// greeting that comes first declares them. It comes in the first second, unless the live run
/// knew nothing but histograms beforehand; a counter or gauge that is declared later lacks the
/// buckets before.
pub proof fn a_replay_rebuilds_the_run(
    live: OpeningModel,
    replay: OpeningModel,
    summary: serde_json::Value,
    other: serde_json::Value,
    now: u64,
    then: u64,
    es: Seq<(Event, u64)>,
    fs: Seq<(Event, u64)>,
)
    requires
        replay.metrics.len() == 0,
        json_text(summary) == json_text(other),
        es.len() > 0,
        match es[0].0 {
            Event::Hello { metrics, .. } => metrics.deep_view() == live.metrics,
            _ => false,
        },
        elapsed(now, es[0].1) == 0 || only_histograms(live.metrics),
        same_course(es, now, fs, then),
    ensures
        same_record(ran(opened_app(live, summary, now), es), ran(opened_app(replay, other, then), fs)),
    decreases es.len(),
{
    let a = opened_app(live, summary, now);
    let b = opened_app(replay, other, then);
    let es1 = es.drop_last();
    let fs1 = fs.drop_last();
    let n = es.len() - 1;
    assert(es[n].0 == fs[n].0);
    if n == 0 {
        assert(es1 =~= Seq::<(Event, u64)>::empty());
        assert(fs1 =~= Seq::<(Event, u64)>::empty());
        an_empty_store_is_coherent();
        declaring_twice_is_declaring_once(empty_store(), live.metrics);
        assert(replay.metrics =~= Seq::<MetricSpecModel>::empty());
        if elapsed(now, es[0].1) != 0 {
            lemma_fresh_histograms(live.metrics);
            lemma_fresh_histograms_stay(a.store.metrics, 0, elapsed(now, es[0].1));
        }
        assert(b.store.metrics =~= Seq::empty());
        lemma_fresh_histograms_stay(b.store.metrics, 0, elapsed(then, fs[0].1));
        lemma_declared_clock(empty_store(), live.metrics);
        let t = ticked(a, es[0].1).store;
        let u = ticked(b, fs[0].1).store;
        assert(t =~= StoreModel { current_second: elapsed(now, es[0].1), ..a.store });
        assert(u =~= StoreModel { current_second: elapsed(now, es[0].1), ..empty_store() });
        lemma_declared_at(empty_store(), live.metrics, elapsed(now, es[0].1));
        lemma_declared_at(a.store, live.metrics, elapsed(now, es[0].1));
    } else {
        assert(es1[0] == es[0]);
        assert(same_course(es1, now, fs1, then)) by {
            assert forall|i: int| 0 <= i < es1.len() implies (#[trigger] es1[i]).0 == fs1[i].0 && elapsed(now, es1[i].1)
                == elapsed(then, fs1[i].1) by {
                assert(es[i] == es1[i] && fs[i] == fs1[i]);
            }
        }
        a_replay_rebuilds_the_run(live, replay, summary, other, now, then, es1, fs1);
        lemma_started(a, es1);
        lemma_started(b, fs1);
        lemma_same_step(ran(a, es1), ran(b, fs1), es[n].0, es[n].1, fs[n].1);
    }
}

/// Two runs in which the same was recorded are reported alike: the same status, metrics, phases
/// and counts, and with the same thresholds the same verdicts.
pub proof fn the_same_record_gives_the_same_report(
    a: AppModel,
    b: AppModel,
    started_at: Seq<char>,
    restarted_at: Seq<char>,
    now: u64,
    then: u64,
)
    requires
        same_record(a, b),
        elapsed(a.started, now) == elapsed(b.started, then),
    ensures
        run_summary(a, started_at, now).status == run_summary(b, restarted_at, then).status,
        run_summary(a, started_at, now).duration_seconds == run_summary(b, restarted_at, then).duration_seconds,
        run_summary(a, started_at, now).metrics == run_summary(b, restarted_at, then).metrics,
        run_summary(a, started_at, now).phases == run_summary(b, restarted_at, then).phases,
        run_summary(a, started_at, now).unknown_metrics == run_summary(b, restarted_at, then).unknown_metrics,
        run_summary(a, started_at, now).scenario_summary == run_summary(b, restarted_at, then).scenario_summary,
        a.thresholds == b.thresholds ==> run_summary(a, started_at, now).verdicts == run_summary(
            b,
            restarted_at,
            then,
        ).verdicts,
{
}

} // verus!
