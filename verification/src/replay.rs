//! Re-emit a recorded events file with its original timing (scaled by `speed`). Reading the file
//! and waiting is done by the caller.

use vstd::prelude::*;
use std::collections::VecDeque;
use serde_json::Value;
use crate::json::{json_null, json_text};
use crate::number::{of_nat, zero, Number};
use crate::protocol::Event;
use crate::scenario::ONE;

verus! {

/// A recorded event, with the milliseconds from the start of its run.
#[derive(Debug)]
pub struct Recorded {
    pub t_ms: u128,
    pub event: Event,
}

/// The event ends a run.
pub open spec fn terminal(event: Event) -> bool {
    event is Done || event is Error
}

pub fn is_terminal(event: &Event) -> (r: bool)
    ensures
        r == terminal(*event),
{
    match event {
        Event::Done { .. } => true,
        Event::Error { .. } => true,
        _ => false,
    }
}

/// The speed of a replay; one that is not above zero stands for the original speed.
pub open spec fn pace(speed: Number) -> Number {
    if speed.at_most(zero(false)) {
        Number { bits: ONE }
    } else {
        speed
    }
}

/// When a recorded event is due, in milliseconds from the start of the replay.
pub open spec fn due_at(t_ms: u128, speed: Number) -> u64 {
    of_nat(t_ms as nat).over(pace(speed)).truncated()
}

/// When a recorded event is due, in milliseconds from the start of the replay.
pub fn due_ms(t_ms: u128, speed: Number) -> (r: u64)
    ensures
        r == due_at(t_ms, speed),
{
    let pace: Number = if speed.le(Number { bits: 0 }) {
        Number { bits: ONE }
    } else {
        speed
    };
    Number::of(t_ms).div(pace).truncate()
}

/// How long to wait for what is due, in nanoseconds, given how many have passed.
pub fn wait_nanos(due_ms: u64, passed: u128) -> (r: Option<u128>)
    ensures
        match r {
            Some(n) => n == due_ms * 1_000_000 - passed,
            None => due_ms * 1_000_000 < passed,
        },
{
    let due: u128 = due_ms as u128 * 1_000_000;
    if due >= passed {
        Some(due - passed)
    } else {
        None
    }
}

/// An event to emit, and when.
#[derive(Debug)]
pub struct Cue {
    pub due_ms: u64,
    pub event: Event,
}

/// What the lines of a recording are replayed as: the events of the lines that hold one, up to
/// the first that ends the run; where none does, a closing event with the summary `closing`
/// follows at once.
pub open spec fn cues_of(lines: Seq<Option<Recorded>>, speed: Number, closing: Value) -> Seq<Cue>
    decreases lines.len(),
{
    if lines.len() == 0 {
        seq![Cue { due_ms: 0, event: Event::Done { summary: closing } }]
    } else {
        match lines[0] {
            None => cues_of(lines.drop_first(), speed, closing),
            Some(rec) => {
                let cue = Cue { due_ms: due_at(rec.t_ms, speed), event: rec.event };
                if terminal(rec.event) {
                    seq![cue]
                } else {
                    seq![cue] + cues_of(lines.drop_first(), speed, closing)
                }
            },
        }
    }
}

/// The schedule of a replay, and the summary that closes it where the recording has none.
pub open spec fn is_schedule(cues: Seq<Cue>, lines: Seq<Option<Recorded>>, speed: Number) -> bool {
    exists|closing: Value|
        json_text(closing) == "null"@ && cues == #[trigger] cues_of(lines, speed, closing)
}

/// A replay under way.
#[derive(Debug)]
pub struct Player {
    pub speed: Number,
    /// An event that ends the run has been replayed.
    pub over: bool,
}

impl Player {
    pub fn new(speed: Number) -> (r: Player)
        ensures
            r.speed == speed,
            !r.over,
    {
        Player { speed, over: false }
    }

    /// Takes in what the next line of the recording holds, and gives the event to replay.
    pub fn hear(&mut self, line: Option<Recorded>) -> (r: Option<Cue>)
        ensures
            final(self).speed == old(self).speed,
            match (old(self).over, line) {
                (false, Some(rec)) => r == Some(Cue { due_ms: due_at(rec.t_ms, old(self).speed), event: rec.event })
                    && final(self).over == terminal(rec.event),
                _ => r is None && final(self).over == old(self).over,
            },
    {
        if self.over {
            return None;
        }
        match line {
            Some(rec) => {
                self.over = is_terminal(&rec.event);
                Some(Cue { due_ms: due_ms(rec.t_ms, self.speed), event: rec.event })
            },
            None => None,
        }
    }

    /// The event that closes the replay of a recording that does not end its run.
    pub fn close(&self) -> (r: Option<Cue>)
        ensures
            match r {
                Some(cue) => !self.over && cue.due_ms == 0 && cue.event is Done && json_text(
                    cue.event->Done_summary,
                ) == "null"@,
                None => self.over,
            },
    {
        if self.over {
            None
        } else {
            Some(Cue { due_ms: 0, event: Event::Done { summary: json_null() } })
        }
    }
}

/// What a replay gives for a recording, line by line and then closed.
pub fn schedule(lines: VecDeque<Option<Recorded>>, speed: Number) -> (r: Vec<Cue>)
    ensures
        is_schedule(r@, lines@, speed),
{
    let ghost all = lines@;
    let mut player = Player::new(speed);
    let mut rest = lines;
    let mut out: Vec<Cue> = Vec::new();
    assert forall|end: Value| #[trigger] cues_of(all, speed, end) == out@ + cues_of(rest@, speed, end) by {
        assert(cues_of(all, speed, end) =~= out@ + cues_of(rest@, speed, end));
    }
    while rest.len() > 0 && !player.over
        invariant
            all == lines@,
            player.speed == speed,
            !player.over ==> forall|end: Value|
                #[trigger] cues_of(all, speed, end) == out@ + cues_of(rest@, speed, end),
            player.over ==> forall|end: Value| #[trigger] cues_of(all, speed, end) == out@,
        decreases rest@.len(),
    {
        let ghost before = out@;
        let ghost here = rest@;
        let line = rest.pop_front().unwrap();
        assert(rest@ =~= here.drop_first());
        if let Some(cue) = player.hear(line) {
            out.push(cue);
            proof {
                assert forall|end: Value|
                    !player.over implies #[trigger] cues_of(all, speed, end) == out@ + cues_of(rest@, speed, end) by {
                    assert(cues_of(all, speed, end) == before + cues_of(here, speed, end));
                    assert(before + (seq![cue] + cues_of(rest@, speed, end)) =~= out@ + cues_of(rest@, speed, end));
                }
                assert forall|end: Value| player.over implies #[trigger] cues_of(all, speed, end) == out@ by {
                    assert(cues_of(all, speed, end) == before + cues_of(here, speed, end));
                    assert(before + seq![cue] =~= out@);
                }
            }
        } else {
            assert forall|end: Value| #[trigger] cues_of(all, speed, end) == out@ + cues_of(rest@, speed, end) by {
                assert(cues_of(all, speed, end) == before + cues_of(here, speed, end));
            }
        }
    }
    let ghost before = out@;
    match player.close() {
        Some(cue) => {
            out.push(cue);
            proof {
                let end = cue.event->Done_summary;
                assert(out@ =~= before + cues_of(rest@, speed, end));
                assert(cues_of(all, speed, end) == out@);
            }
        },
        None => {
            let end = json_null();
            assert(cues_of(all, speed, end) == out@);
        },
    }
    out
}

/// A file that cannot be opened fails the replay.
pub fn open_failed(path: &str) -> (r: Event)
    ensures
        match r {
            Event::Error { message } => message@ == "cannot open "@ + path@,
            _ => false,
        },
{
    let mut message = "cannot open ".to_owned();
    message.append(path);
    Event::Error { message }
}

/// A replay ends with an event that ends a run, and has no such event before.
pub proof fn a_replay_ends_once(lines: Seq<Option<Recorded>>, speed: Number, closing: Value)
    ensures
        cues_of(lines, speed, closing).len() > 0,
        terminal(cues_of(lines, speed, closing).last().event),
        forall|i: int|
            0 <= i < cues_of(lines, speed, closing).len() - 1 ==> !terminal(
                (#[trigger] cues_of(lines, speed, closing)[i]).event,
            ),
    decreases lines.len(),
{
    if lines.len() > 0 {
        a_replay_ends_once(lines.drop_first(), speed, closing);
        let rest = cues_of(lines.drop_first(), speed, closing);
        if lines[0] is Some && !terminal(lines[0]->0.event) {
            let cues = cues_of(lines, speed, closing);
            assert forall|i: int| 0 <= i < cues.len() - 1 implies !terminal((#[trigger] cues[i]).event) by {
                if i > 0 {
                    assert(cues[i] == rest[i - 1]);
                }
            }
            assert(cues.last() == rest.last());
        }
    }
}

/// A recording whose every line holds an event, and whose last one alone ends the run, is
/// replayed as it is.
pub proof fn a_full_recording_is_replayed_as_it_is(lines: Seq<Option<Recorded>>, speed: Number, closing: Value)
    requires
        lines.len() > 0,
        forall|i: int| 0 <= i < lines.len() ==> (#[trigger] lines[i]) is Some,
        forall|i: int| 0 <= i < lines.len() ==> (terminal((#[trigger] lines[i])->0.event) <==> i == lines.len() - 1),
    ensures
        cues_of(lines, speed, closing) == Seq::new(
            lines.len(),
            |i: int| Cue { due_ms: due_at(lines[i]->0.t_ms, speed), event: lines[i]->0.event },
        ),
    decreases lines.len(),
{
    let expected = Seq::new(
        lines.len(),
        |i: int| Cue { due_ms: due_at(lines[i]->0.t_ms, speed), event: lines[i]->0.event },
    );
    assert(lines[0] is Some);
    if lines.len() > 1 {
        let rest = lines.drop_first();
        assert forall|i: int| 0 <= i < rest.len() implies (#[trigger] rest[i]) is Some by {
            assert(rest[i] == lines[i + 1]);
        }
        assert forall|i: int| 0 <= i < rest.len() implies (terminal((#[trigger] rest[i])->0.event) <==> i == rest.len()
            - 1) by {
            assert(rest[i] == lines[i + 1]);
        }
        a_full_recording_is_replayed_as_it_is(rest, speed, closing);
        assert(cues_of(lines, speed, closing) =~= expected);
    } else {
        assert(cues_of(lines, speed, closing) =~= expected);
    }
}

} // verus!
