//! Generic scenario that runs any external command speaking the JSONL protocol on stdout. Lets
//! scenarios be written in other languages without touching the dashboard. Running the command
//! and reading its lines is done by the caller.

use vstd::prelude::*;
use serde_json::Value;
use crate::json::{json_compact, json_fields, json_null, json_text};
use crate::paths::{is_joined, path_join, portable};
use crate::protocol::{Control, Event, LogLevel, MetricSpec, MetricSpecModel};
use crate::scenario::is_log;
use crate::sorted::{store, Duplicate, SortedMap};
use crate::text::{debug_text, decimal, decimal_text, joined_text, join_text, quoted};

verus! {

pub struct ProcessParams {
    pub command: Vec<String>,
    pub cwd: Option<String>,
    pub env: SortedMap<String>,
    /// Forwarded to the child as TUTUI_PARAMS (JSON).
    pub params: Value,
    /// Seconds to wait after sending `stop` before killing the child.
    pub stop_grace_seconds: u64,
    /// Injected by the runner: directory of the run config. Relative `cwd` resolves against it.
    pub base_dir: Option<String>,
}

/// The grace where the parameters do not say.
pub fn default_grace() -> (r: u64)
    ensures
        r == 5,
{
    5
}

pub struct ExternalProcess;

impl ExternalProcess {
    pub fn id(&self) -> (r: &str)
        ensures
            r@ == "process"@,
    {
        "process"
    }

    pub fn description(&self) -> (r: &str)
        ensures
            r@ == "Run an external command that reports metrics as JSON lines on stdout"@,
    {
        "Run an external command that reports metrics as JSON lines on stdout"
    }

    /// None: they are declared by the child's hello event.
    pub fn metrics(&self) -> (r: Vec<MetricSpec>)
        ensures
            r.deep_view() == Seq::<MetricSpecModel>::empty(),
    {
        let none: Vec<MetricSpec> = Vec::new();
        assert(none.deep_view() =~= Seq::<MetricSpecModel>::empty());
        none
    }
}

/// How the child is started.
pub struct Launch {
    pub program: String,
    pub args: Vec<String>,
    /// What its environment has besides that of the dashboard.
    pub env: SortedMap<String>,
    /// The directory it runs in.
    pub dir: String,
}

/// The directory that the child's own is seen from.
pub open spec fn base_of(p: ProcessParams) -> Seq<char> {
    match p.base_dir {
        Some(dir) => dir@,
        None => "."@,
    }
}

/// The parameters ask for this launch.
pub open spec fn launches(p: ProcessParams, l: Launch) -> bool {
    &&& p.command@.len() > 0
    &&& l.program@ == p.command.deep_view()[0]
    &&& l.args.deep_view() == p.command.deep_view().skip(1)
    &&& l.env@ == store(p.env@, "TUTUI_PARAMS"@, json_text(p.params))
    &&& match p.cwd {
        Some(cwd) => portable(base_of(p)) && portable(cwd@) ==> is_joined(base_of(p), cwd@, l.dir@),
        None => l.dir@ == base_of(p),
    }
}

/// How the child is started; there has to be a command.
pub fn launch(p: &ProcessParams) -> (r: Result<Launch, String>)
    ensures
        match r {
            Ok(l) => launches(*p, l),
            Err(e) => p.command@.len() == 0 && e@ == "process.command must not be empty"@,
        },
{
    if p.command.len() == 0 {
        return Err("process.command must not be empty".to_owned());
    }
    let mut args: Vec<String> = Vec::new();
    let mut i: usize = 1;
    while i < p.command.len()
        invariant
            1 <= i <= p.command@.len(),
            args@.len() == i - 1,
            forall|j: int| 0 <= j < i - 1 ==> (#[trigger] args@[j])@ == p.command@[j + 1]@,
        decreases p.command@.len() - i,
    {
        args.push(p.command[i].clone());
        i = i + 1;
    }
    assert(args.deep_view() =~= p.command.deep_view().skip(1));
    let mut env = p.env.duplicate();
    env.put("TUTUI_PARAMS".to_owned(), json_compact(&p.params).unwrap());
    let base = match &p.base_dir {
        Some(dir) => dir.clone(),
        None => ".".to_owned(),
    };
    let dir = match &p.cwd {
        Some(cwd) => path_join(base.as_str(), cwd.as_str()),
        None => base,
    };
    Ok(Launch { program: p.command[0].clone(), args, env, dir })
}

pub open spec fn quoted_all(parts: Seq<Seq<char>>) -> Seq<Seq<char>> {
    Seq::new(parts.len(), |i: int| quoted(parts[i]))
}

/// What is said of a command that could not be started.
pub fn spawn_context(command: &Vec<String>) -> (r: String)
    ensures
        r@ == "spawn ["@ + joined_text(quoted_all(command.deep_view()), ", "@) + "]"@,
{
    let mut parts: Vec<String> = Vec::new();
    let mut i: usize = 0;
    while i < command.len()
        invariant
            i <= command@.len(),
            parts@.len() == i,
            forall|j: int| 0 <= j < i ==> (#[trigger] parts@[j])@ == quoted(command@[j]@),
        decreases command@.len() - i,
    {
        parts.push(debug_text(command[i].as_str()));
        i = i + 1;
    }
    assert(parts.deep_view() =~= quoted_all(command.deep_view()));
    let mut out = "spawn [".to_owned();
    out.append(join_text(&parts, ", ").as_str());
    out.append("]");
    out
}

/// What is known of a child that runs.
pub struct Child {
    /// The child was told to stop.
    pub stop_sent: bool,
    /// The summary it reported last.
    pub summary: Value,
}

impl Child {
    pub fn new() -> (r: Child)
        ensures
            !r.stop_sent,
            json_text(r.summary) == "null"@,
    {
        Child { stop_sent: false, summary: json_null() }
    }

    /// Takes in that the run was cancelled. The first time there is a line to send to the child.
    pub fn cancel(&mut self) -> (r: Option<String>)
        ensures
            final(self).stop_sent,
            final(self).summary == old(self).summary,
            match r {
                Some(line) => !old(self).stop_sent && line@ == "{\"type\":\"stop\"}\n"@,
                None => old(self).stop_sent,
            },
    {
        if self.stop_sent {
            None
        } else {
            self.stop_sent = true;
            Some(Control::Stop.line())
        }
    }

    /// The event to report when the grace is over, given the child where it still runs: one that
    /// goes on although it was told to stop is killed.
    pub fn grace_over(&self, alive: Option<u32>, grace: u64) -> (r: Option<Event>)
        ensures
            match r {
                Some(event) => self.stop_sent && alive is Some && is_kill(event, alive->0, grace),
                None => !self.stop_sent || alive is None,
            },
    {
        match alive {
            Some(pid) if self.stop_sent => Some(kill_event(pid, grace)),
            _ => None,
        }
    }

    /// Takes in a line of the child, with the event it holds where it holds one, and gives the
    /// event to report: a line that holds none is an info log line.
    pub fn hear(&mut self, line: String, event: Option<Event>) -> (r: Event)
        ensures
            match event {
                Some(e) => r == e,
                None => is_log(r, LogLevel::Info, line@),
            },
            final(self).stop_sent == old(self).stop_sent,
            match event {
                Some(Event::Done { summary }) => json_text(final(self).summary) == json_text(summary) && json_fields(
                    final(self).summary,
                ) == json_fields(summary),
                _ => final(self).summary == old(self).summary,
            },
    {
        match event {
            None => Event::Log { level: LogLevel::Info, message: line },
            Some(e) => {
                if let Event::Done { summary } = &e {
                    self.summary = summary.clone();
                }
                e
            },
        }
    }

    /// The result of the run once the child has exited: a failure is one only where the child
    /// was not told to stop.
    pub fn exit(self, success: bool, status: &str) -> (r: Result<Value, String>)
        ensures
            match r {
                Ok(summary) => (success || self.stop_sent) && summary == self.summary,
                Err(e) => !success && !self.stop_sent && e@ == "scenario process exited with "@ + status@,
            },
    {
        if !success && !self.stop_sent {
            let mut text = "scenario process exited with ".to_owned();
            text.append(status);
            Err(text)
        } else {
            Ok(self.summary)
        }
    }
}

/// The event for a line that the child wrote to stderr.
pub fn stderr_event(line: &str) -> (r: Event)
    ensures
        is_log(r, LogLevel::Warn, "stderr: "@ + line@),
{
    let mut message = "stderr: ".to_owned();
    message.append(line);
    Event::Log { level: LogLevel::Warn, message }
}

/// The event for a child that is killed because it went on after its grace.
pub open spec fn is_kill(event: Event, pid: u32, grace: u64) -> bool {
    is_log(
        event,
        LogLevel::Warn,
        "child "@ + decimal(pid as nat) + " ignored stop for "@ + decimal(grace as nat) + "s; killing"@,
    )
}

/// The event for a child that is killed because it went on after its grace.
pub fn kill_event(pid: u32, grace: u64) -> (r: Event)
    ensures
        is_kill(r, pid, grace),
{
    let mut message = "child ".to_owned();
    message.append(decimal_text(pid as u64).as_str());
    message.append(" ignored stop for ");
    message.append(decimal_text(grace).as_str());
    message.append("s; killing");
    Event::Log { level: LogLevel::Warn, message }
}

} // verus!
