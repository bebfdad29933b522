//! Counters: what the phases of a run have counted adds up to what the run has.

use vstd::prelude::*;
use crate::laws::histories::{
    a_store_stays_coherent, after, after_all, lemma_folded, lemma_kind, lemma_rolled_on_keeps, lemma_touched, Move,
};
use crate::laws::numbers::whole_sums_are_exact;
use crate::laws::stores::an_empty_store_is_coherent;
use crate::metrics::{fresh_aggregate, recorded, MetricModel, PhaseModel};
use crate::number::{of_nat, zero, Number};
use crate::protocol::MetricKind;
use crate::rounding::TWO53;
use crate::sorted::{lemma_slot, lookup, lookup_after_store};
use crate::store::{empty_store, overall, StoreModel};

verus! {

/// The number is a whole one that is not negative.
pub open spec fn is_whole(v: Number) -> bool {
    exists|k: nat| v == #[trigger] of_nat(k)
}

pub open spec fn as_whole(v: Number) -> nat {
    choose|k: nat| v == #[trigger] of_nat(k)
}

/// The metric is declared as a counter.
pub open spec fn is_counter(s: StoreModel, name: Seq<char>) -> bool {
    lookup(s.metrics, name) is Some && lookup(s.metrics, name)->0.aggregate is Counter
}

/// What an operation adds to a counter.
pub open spec fn counted(s: StoreModel, m: Move, name: Seq<char>) -> nat {
    match m {
        Move::Observe(o) => if o.metric == name && is_counter(s, name) {
            as_whole(o.value)
        } else {
            0
        },
        _ => 0,
    }
}

/// What some operations add to a counter.
pub open spec fn tally(moves: Seq<Move>, name: Seq<char>) -> nat
    decreases moves.len(),
{
    if moves.len() == 0 {
        0
    } else {
        tally(moves.drop_last(), name) + counted(after_all(empty_store(), moves.drop_last()), moves.last(), name)
    }
}

/// What they add to it during phase `i`; before the first phase where `i` is -1.
pub open spec fn phase_tally(moves: Seq<Move>, name: Seq<char>, i: int) -> nat
    decreases moves.len(),
{
    if moves.len() == 0 {
        0
    } else {
        let s = after_all(empty_store(), moves.drop_last());
        phase_tally(moves.drop_last(), name, i) + if s.phases.len() - 1 == i {
            counted(s, moves.last(), name)
        } else {
            0
        }
    }
}

/// What they add to it during the first `n` phases.
pub open spec fn phase_tallies(moves: Seq<Move>, name: Seq<char>, n: nat) -> nat
    decreases n,
{
    if n == 0 {
        0
    } else {
        phase_tallies(moves, name, (n - 1) as nat) + phase_tally(moves, name, n - 1)
    }
}

/// What a phase has counted.
pub open spec fn phase_count(p: PhaseModel, name: Seq<char>) -> Number {
    match lookup(p.counters, name) {
        Some(n) => n,
        None => zero(false),
    }
}

/// A number with the counts of some phases added to it, one after the other.
pub open spec fn with_phases(start: Number, phases: Seq<PhaseModel>, name: Seq<char>) -> Number
    decreases phases.len(),
{
    if phases.len() == 0 {
        start
    } else {
        with_phases(start, phases.drop_last(), name).plus(phase_count(phases.last(), name))
    }
}

proof fn lemma_phase_tally_bounds(moves: Seq<Move>, name: Seq<char>, i: int)
    ensures
        phase_tally(moves, name, i) <= tally(moves, name),
        i >= after_all(empty_store(), moves).phases.len() ==> phase_tally(moves, name, i) == 0,
    decreases moves.len(),
{
    if moves.len() > 0 {
        lemma_phase_tally_bounds(moves.drop_last(), name, i);
        let s = after_all(empty_store(), moves.drop_last());
        assert(after(s, moves.last()).phases.len() >= s.phases.len());
    }
}

proof fn lemma_phase_tallies_step(moves: Seq<Move>, name: Seq<char>, n: nat)
    requires
        moves.len() > 0,
    ensures
        ({
            let s = after_all(empty_store(), moves.drop_last());
            phase_tallies(moves, name, n) == phase_tallies(moves.drop_last(), name, n) + if 0 <= s.phases.len() - 1
                < n {
                counted(s, moves.last(), name)
            } else {
                0
            }
        }),
    decreases n,
{
    if n > 0 {
        lemma_phase_tallies_step(moves, name, (n - 1) as nat);
    }
}

/// Everything that is counted is counted in one phase, or before the first.
proof fn lemma_tallies_add_up(moves: Seq<Move>, name: Seq<char>)
    ensures
        tally(moves, name) == phase_tally(moves, name, -1) + phase_tallies(
            moves,
            name,
            after_all(empty_store(), moves).phases.len(),
        ),
    decreases moves.len(),
{
    if moves.len() > 0 {
        let rest = moves.drop_last();
        let s = after_all(empty_store(), rest);
        lemma_tallies_add_up(rest, name);
        lemma_phase_tallies_step(moves, name, s.phases.len());
        let t = after_all(empty_store(), moves);
        if moves.last() is Begin {
            assert(t.phases.len() == s.phases.len() + 1);
            lemma_phase_tally_bounds(rest, name, s.phases.len() as int);
        } else {
            assert(t.phases.len() == s.phases.len());
        }
    }
}

/// The sums of a store are those of the operations.
spec fn sums_agree(moves: Seq<Move>, name: Seq<char>) -> bool {
    let s = after_all(empty_store(), moves);
    &&& is_counter(s, name) ==> lookup(s.metrics, name)->0.aggregate->Counter_total == of_nat(tally(moves, name))
    &&& lookup(s.metrics, name) is None ==> tally(moves, name) == 0
    &&& forall|i: int|
        0 <= i < s.phases.len() ==> phase_count(#[trigger] s.phases[i], name) == of_nat(phase_tally(moves, name, i))
}

proof fn lemma_sums_agree(moves: Seq<Move>, name: Seq<char>)
    requires
        forall|i: int|
            0 <= i < moves.len() && (#[trigger] moves[i]) is Observe && moves[i]->Observe_0.metric == name ==> is_whole(
                moves[i]->Observe_0.value,
            ),
        tally(moves, name) <= TWO53,
    ensures
        sums_agree(moves, name),
    decreases moves.len(),
{
    an_empty_store_is_coherent();
    whole_sums_are_exact(0, 0);
    if moves.len() == 0 {
        lemma_slot(empty_store().metrics, name);
    } else {
        let rest = moves.drop_last();
        let m = moves.last();
        assert(m == moves[moves.len() - 1]);
        assert forall|i: int|
            0 <= i < rest.len() && (#[trigger] rest[i]) is Observe && rest[i]->Observe_0.metric
                == name implies is_whole(rest[i]->Observe_0.value) by {
            assert(rest[i] == moves[i]);
        }
        lemma_sums_agree(rest, name);
        a_store_stays_coherent(empty_store(), rest);
        let s = after_all(empty_store(), rest);
        let t = after_all(empty_store(), moves);
        let k = counted(s, m, name);
        if lookup(s.metrics, name) is Some {
            let a = lookup(s.metrics, name)->0.aggregate;
            lemma_touched(s, m, name);
            if let Move::Advance(second) = m {
                lemma_rolled_on_keeps(a, s.current_second, second);
            }
            if is_counter(s, name) {
                whole_sums_are_exact(tally(rest, name), k);
            }
        } else {
            match m {
                Move::Declare(spec) => {
                    let v = MetricModel { spec, aggregate: fresh_aggregate(spec.kind) };
                    lookup_after_store(s.metrics, spec.name, v, name);
                },
                Move::Observe(o) => {
                    if lookup(s.metrics, o.metric) is Some {
                        let x = lookup(s.metrics, o.metric)->0;
                        let v = MetricModel { spec: x.spec, aggregate: recorded(x.aggregate, o.value, o.labels) };
                        lookup_after_store(s.metrics, o.metric, v, name);
                    }
                },
                Move::Advance(second) => crate::laws::histories::lemma_rolled_on(
                    s.metrics,
                    s.current_second,
                    second,
                    name,
                ),
                Move::Begin(_) => {},
            }
        }
        assert forall|i: int| 0 <= i < t.phases.len() implies phase_count(#[trigger] t.phases[i], name) == of_nat(
            phase_tally(moves, name, i),
        ) by {
            lemma_phase_tally_bounds(rest, name, i);
            lemma_phase_tally_bounds(moves, name, i);
            match m {
                Move::Begin(_) => {
                    if i < s.phases.len() {
                        assert(t.phases[i] == s.phases[i]);
                    } else {
                        lemma_slot(t.phases[i].counters, name);
                    }
                },
                Move::Observe(o) => {
                    let p = s.phases[i];
                    assert(phase_count(p, name) == of_nat(phase_tally(rest, name, i)));
                    assert(crate::metrics::phase_in_order(p));
                    if lookup(s.metrics, o.metric) is Some {
                        lemma_kind(s, o.metric);
                        if i == s.phases.len() - 1 && lookup(s.metrics, o.metric)->0.spec.kind == MetricKind::Counter {
                            let sum = phase_count(p, o.metric).plus(o.value);
                            lookup_after_store(p.counters, o.metric, sum, name);
                            if o.metric == name {
                                whole_sums_are_exact(phase_tally(rest, name, i), k);
                            }
                        }
                    }
                },
                _ => {
                    assert(t.phases[i] == s.phases[i]);
                },
            }
        }
    }
}

proof fn lemma_with_phases(moves: Seq<Move>, name: Seq<char>, n: int)
    requires
        sums_agree(moves, name),
        0 <= n <= after_all(empty_store(), moves).phases.len(),
        phase_tally(moves, name, -1) + phase_tallies(moves, name, n as nat) <= TWO53,
    ensures
        with_phases(
            of_nat(phase_tally(moves, name, -1)),
            after_all(empty_store(), moves).phases.take(n),
            name,
        ) == of_nat(phase_tally(moves, name, -1) + phase_tallies(moves, name, n as nat)),
    decreases n,
{
    let phases = after_all(empty_store(), moves).phases;
    if n > 0 {
        lemma_with_phases(moves, name, n - 1);
        assert(phases.take(n).drop_last() =~= phases.take(n - 1));
        assert(phases.take(n).last() == phases[n - 1]);
        whole_sums_are_exact(
            phase_tally(moves, name, -1) + phase_tallies(moves, name, (n - 1) as nat),
            phase_tally(moves, name, n - 1),
        );
    }
}

/// Whatever is done with a store, as long as the values of a counter are whole and come to at most
/// 2^53: the counter has over the whole run the sum of everything reported; each phase has the
/// sum of what was reported during it; and what was reported before the first phase, with the
/// counts of the phases added to it one after the other, is the count of the whole run.
pub proof fn phases_add_up_to_the_run(moves: Seq<Move>, name: Seq<char>)
    requires
        forall|i: int|
            0 <= i < moves.len() && (#[trigger] moves[i]) is Observe && moves[i]->Observe_0.metric == name ==> is_whole(
                moves[i]->Observe_0.value,
            ),
        tally(moves, name) <= TWO53,
    ensures
        ({
            let s = after_all(empty_store(), moves);
            let before = phase_tally(moves, name, -1);
            &&& is_counter(s, name) ==> lookup(overall(s).counters, name) == Some(of_nat(tally(moves, name)))
            &&& forall|i: int|
                0 <= i < s.phases.len() ==> phase_count(#[trigger] s.phases[i], name) == of_nat(
                    phase_tally(moves, name, i),
                )
            &&& before + phase_tallies(moves, name, s.phases.len()) == tally(moves, name)
            &&& with_phases(of_nat(before), s.phases, name) == of_nat(tally(moves, name))
        }),
{
    let s = after_all(empty_store(), moves);
    lemma_sums_agree(moves, name);
    lemma_tallies_add_up(moves, name);
    lemma_with_phases(moves, name, s.phases.len() as int);
    assert(s.phases.take(s.phases.len() as int) =~= s.phases);
    an_empty_store_is_coherent();
    a_store_stays_coherent(empty_store(), moves);
    lemma_folded(s.metrics, s.samples, name);
}

} // verus!
