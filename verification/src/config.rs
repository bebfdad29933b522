//! A run config is a JSON file naming a scenario and its parameters.

use vstd::prelude::*;
use serde_json::Value;
use crate::paths::{directory_of, is_directory_of};
use crate::text::{chars_of, lemma_precedes_irreflexive, lemma_precedes_transitive, precedes, str_precedes};
use crate::verdict::{Threshold, ThresholdModel};

verus! {

#[derive(Debug)]
pub struct RunConfig {
    pub name: String,
    pub description: Option<String>,
    /// Scenario id from the binary's registry.
    pub scenario: String,
    pub params: Value,
    pub chart_window_seconds: u64,
    /// Pass/fail rules evaluated per phase and overall.
    pub thresholds: Vec<Threshold>,
}

pub struct RunConfigModel {
    pub name: Seq<char>,
    pub description: Option<Seq<char>>,
    pub scenario: Seq<char>,
    pub params: Value,
    pub chart_window_seconds: u64,
    pub thresholds: Seq<ThresholdModel>,
}

impl DeepView for RunConfig {
    type V = RunConfigModel;

    open spec fn deep_view(&self) -> RunConfigModel {
        RunConfigModel {
            name: self.name@,
            description: self.description.deep_view(),
            scenario: self.scenario@,
            params: self.params,
            chart_window_seconds: self.chart_window_seconds,
            thresholds: self.thresholds.deep_view(),
        }
    }
}

/// The seconds that a chart shows where the config does not say.
pub fn default_chart_window() -> (r: u64)
    ensures
        r == 120,
{
    120
}

/// A config together with the path it was read from.
#[derive(Debug)]
pub struct LoadedRun {
    pub config: RunConfig,
    pub path: String,
}

pub struct LoadedRunModel {
    pub config: RunConfigModel,
    pub path: Seq<char>,
}

impl DeepView for LoadedRun {
    type V = LoadedRunModel;

    open spec fn deep_view(&self) -> LoadedRunModel {
        LoadedRunModel { config: self.config.deep_view(), path: self.path@ }
    }
}

impl LoadedRun {
    /// Directory the config lives in; scenarios resolve relative paths against it.
    pub fn base_dir(&self) -> (r: String)
        ensures
            is_directory_of(r@, self.path@),
    {
        directory_of(self.path.as_str())
    }
}

/// A file name with the extension `json`; a name that is nothing else has no extension.
pub open spec fn is_config_name(name: Seq<char>) -> bool {
    name.len() > 5 && name.skip(name.len() - 5) == ".json"@
}

pub fn is_config(name: &str) -> (r: bool)
    ensures
        r == is_config_name(name@),
{
    let chars = chars_of(name);
    let n: usize = chars.len();
    proof {
        reveal_strlit(".json");
    }
    if n <= 5 {
        return false;
    }
    let r: bool = chars[n - 5] == '.' && chars[n - 4] == 'j' && chars[n - 3] == 's' && chars[n - 2] == 'o' && chars[n
        - 1] == 'n';
    proof {
        let tail = name@.skip(n - 5);
        let json = ".json"@;
        assert(tail.len() == 5 && json.len() == 5);
        assert(tail[0] == chars@[n - 5] && tail[1] == chars@[n - 4] && tail[2] == chars@[n - 3] && tail[3] == chars@[n
            - 2] && tail[4] == chars@[n - 1]);
        if r {
            assert(tail =~= json);
        }
    }
    r
}

/// No name stands behind one that it precedes.
pub open spec fn ascending(names: Seq<Seq<char>>) -> bool {
    forall|i: int, j: int| 0 <= i < j < names.len() ==> !precedes(#[trigger] names[j], #[trigger] names[i])
}

/// The file names of a directory that are configs, sorted.
pub fn config_names(names: &Vec<String>) -> (r: Vec<String>)
    ensures
        ascending(r.deep_view()),
        r.deep_view().to_multiset() == names.deep_view().filter(|name: Seq<char>| is_config_name(name)).to_multiset(),
{
    let ghost models = names.deep_view();
    let ghost keep = |name: Seq<char>| is_config_name(name);
    let mut out: Vec<String> = Vec::new();
    let mut i: usize = 0;
    proof {
        reveal(Seq::filter);
        assert(models.take(0) =~= Seq::<Seq<char>>::empty());
        assert(out.deep_view() =~= models.take(0).filter(keep));
    }
    while i < names.len()
        invariant
            i <= names@.len(),
            models == names.deep_view(),
            keep == (|name: Seq<char>| is_config_name(name)),
            ascending(out.deep_view()),
            out.deep_view().to_multiset() == models.take(i as int).filter(keep).to_multiset(),
        decreases names@.len() - i,
    {
        let ghost before = models.take(i as int).filter(keep);
        let ghost name = models[i as int];
        proof {
            reveal(Seq::filter);
            assert(models.take(i + 1).drop_last() =~= models.take(i as int));
            assert(models.take(i + 1).last() == name);
        }
        if is_config(names[i].as_str()) {
            insert_sorted(&mut out, names[i].clone());
            proof {
                assert(models.take(i + 1).filter(keep) == before.push(name));
                vstd::seq_lib::to_multiset_build(before, name);
            }
        }
        i = i + 1;
    }
    assert(models.take(i as int) =~= models);
    out
}

/// Puts a name in front of the first one that it precedes.
fn insert_sorted(out: &mut Vec<String>, name: String)
    requires
        ascending(old(out).deep_view()),
    ensures
        ascending(final(out).deep_view()),
        final(out).deep_view().to_multiset() == old(out).deep_view().to_multiset().insert(name@),
{
    let ghost before = out.deep_view();
    let mut at: usize = 0;
    while at < out.len() && !str_precedes(name.as_str(), out[at].as_str())
        invariant
            at <= out@.len(),
            out.deep_view() == before,
            forall|j: int| 0 <= j < at ==> !precedes(name@, #[trigger] before[j]),
        decreases out@.len() - at,
    {
        assert(before[at as int] == out@[at as int]@);
        at = at + 1;
    }
    let ghost text = name@;
    out.insert(at, name);
    proof {
        let after = before.insert(at as int, text);
        assert(out.deep_view() =~= after);
        vstd::seq_lib::to_multiset_insert(before, at as int, text);
        assert forall|i: int, j: int| 0 <= i < j < after.len() implies !precedes(
            #[trigger] after[j],
            #[trigger] after[i],
        ) by {
            if j < at {
                assert(after[i] == before[i] && after[j] == before[j]);
            } else if j == at {
                assert(after[i] == before[i]);
            } else {
                assert(after[j] == before[j - 1]);
                if i < at {
                    assert(after[i] == before[i]);
                } else if i > at {
                    assert(after[i] == before[i - 1]);
                } else {
                    // the name precedes what stood here, and that precedes nothing before it
                    assert(precedes(text, before[at as int]));
                    if precedes(before[j - 1], text) {
                        lemma_precedes_transitive(before[j - 1], text, before[at as int]);
                        if j - 1 == at {
                            lemma_precedes_irreflexive(before[at as int]);
                        }
                    }
                }
            }
        }
    }
}

} // verus!
