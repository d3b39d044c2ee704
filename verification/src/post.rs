//! After a run: which runs still need their afterscript, and which label the
//! afterscript's output earns.
use vstd::prelude::*;

use crate::model::Experiment;
use crate::pattern::pattern_is_match;
use crate::pattern::regex_search;
use crate::status::FsState;
use crate::status::PostprocessCompletion;
use crate::status::Status;

verus! {

/// Whether a run has finished successfully (exit code zero) and its
/// afterscript has not run yet.
pub open spec fn awaits_afterscript(s: Status) -> bool {
    &&& s.fs_status.completion matches FsState::Completed(m) && m.exit_code == 0
    &&& s.fs_status.afterscript_completion == Some(PostprocessCompletion::Dormant)
}

/// The runs among the first `n` that await their afterscript, in order.
pub open spec fn awaiting_upto(statuses: Seq<Option<Status>>, n: nat) -> Seq<usize>
    decreases n,
{
    if n == 0 {
        Seq::empty()
    } else {
        let rest = awaiting_upto(statuses, (n - 1) as nat);
        if statuses[n - 1] matches Some(s) && awaits_afterscript(s) {
            rest.push((n - 1) as usize)
        } else {
            rest
        }
    }
}

/// Finds the successfully finished runs whose afterscript has not run yet. Fails with
/// the first run whose status is unknown.
pub fn filter_runs_for_afterscript(runs: &Vec<Option<Status>>) -> (r: Result<Vec<usize>, usize>)
    ensures
        match r {
            Ok(v) => v@ == awaiting_upto(runs@, runs.len() as nat) && forall|k: int| 0 <= k < runs.len() ==> #[trigger] runs@[k] is Some,
            Err(id) => id < runs.len() && runs@[id as int] is None && forall|k: int| 0 <= k < id ==> #[trigger] runs@[k] is Some,
        },
{
    let mut filtered: Vec<usize> = Vec::new();
    let mut i: usize = 0;
    while i < runs.len()
        invariant
            i <= runs.len(),
            filtered@ == awaiting_upto(runs@, i as nat),
            forall|k: int| 0 <= k < i ==> #[trigger] runs@[k] is Some,
        decreases runs.len() - i,
    {
        match &runs[i] {
            None => {
                return Err(i);
            },
            Some(s) => {
                let done = match &s.fs_status.completion {
                    FsState::Completed(m) => m.exit_code == 0,
                    _ => false,
                };
                let dormant = match &s.fs_status.afterscript_completion {
                    Some(PostprocessCompletion::Dormant) => true,
                    _ => false,
                };
                if done && dormant {
                    filtered.push(i);
                }
            },
        }
        i = i + 1;
    }
    Ok(filtered)
}

/// One afterscript to run: the script, the run's output it reads, and the
/// file it writes.
#[derive(Debug, Clone, PartialEq, Eq)]
pub struct AfterscriptJob {
    /// The run.
    pub run: usize,
    /// The afterscript.
    pub script: String,
    /// The run's output.
    pub result: String,
    /// Where the afterscript's output goes.
    pub output: String,
}

/// Whether `job` is the afterscript job of run `id`.
pub open spec fn job_of(exp: &Experiment, id: usize, job: AfterscriptJob) -> bool {
    let run = exp.runs@[id as int];
    &&& job.run == id
    &&& run.afterscript_output_path matches Some(o) && job.output@ == o@
    &&& exp.programs@[run.program as int].afterscript matches Some(a) && job.script@ == a@
    &&& job.result@ == run.output_path@
}

/// Whether run `id` has an afterscript output path but its program no afterscript.
pub open spec fn lacks_afterscript(exp: &Experiment, id: usize) -> bool {
    &&& exp.runs@[id as int].afterscript_output_path is Some
    &&& exp.programs@[exp.runs@[id as int].program as int].afterscript is None
}

/// The afterscripts to run for `runs`: one for each run with an afterscript
/// output path, in order. Fails with the first such run whose program has no
/// afterscript.
pub fn afterscript_jobs(runs: &Vec<usize>, experiment: &Experiment) -> (r: Result<Vec<AfterscriptJob>, usize>)
    requires
        forall|k: int| 0 <= k < runs.len() ==> #[trigger] runs@[k] < experiment.runs.len(),
        crate::rerun::run_programs_valid(experiment),
    ensures
        r matches Ok(v) ==> (forall|k: int| 0 <= k < v.len() ==> #[trigger] job_of(experiment, v@[k].run, v@[k]))
            && v@.map_values(|j: AfterscriptJob| j.run) == runs@.filter(|id: usize| experiment.runs@[id as int].afterscript_output_path is Some),
        r matches Err(id) ==> exists|k: int| {
            &&& 0 <= k < runs.len()
            &&& #[trigger] runs@[k] == id
            &&& lacks_afterscript(experiment, id)
            &&& forall|j: int| 0 <= j < k ==> !lacks_afterscript(experiment, #[trigger] runs@[j])
        },
{
    let ghost keep = |id: usize| experiment.runs@[id as int].afterscript_output_path is Some;
    let mut jobs: Vec<AfterscriptJob> = Vec::new();
    let mut i: usize = 0;
    while i < runs.len()
        invariant
            i <= runs.len(),
            forall|k: int| 0 <= k < runs.len() ==> #[trigger] runs@[k] < experiment.runs.len(),
            crate::rerun::run_programs_valid(experiment),
            keep == (|id: usize| experiment.runs@[id as int].afterscript_output_path is Some),
            forall|k: int| 0 <= k < jobs.len() ==> #[trigger] job_of(experiment, jobs@[k].run, jobs@[k]),
            jobs@.map_values(|j: AfterscriptJob| j.run) == runs@.take(i as int).filter(keep),
            forall|j: int| 0 <= j < i ==> !lacks_afterscript(experiment, #[trigger] runs@[j]),
        decreases runs.len() - i,
    {
        let id = runs[i];
        let run = &experiment.runs[id];
        let ghost before = jobs@.map_values(|j: AfterscriptJob| j.run);
        proof {
            assert(runs@.take(i + 1).drop_last() =~= runs@.take(i as int));
            reveal(Seq::filter);
        }
        match &run.afterscript_output_path {
            None => {},
            Some(out) => {
                match &experiment.programs[run.program].afterscript {
                    None => {
                        assert(runs@[i as int] == id);
                        return Err(id);
                    },
                    Some(script) => {
                        let job = AfterscriptJob {
                            run: id,
                            script: script.clone(),
                            result: run.output_path.clone(),
                            output: out.clone(),
                        };
                        jobs.push(job);
                        assert(jobs@.map_values(|j: AfterscriptJob| j.run) =~= before.push(id));
                    },
                }
            },
        }
        i = i + 1;
    }
    assert(runs@.take(runs.len() as int) =~= runs@);
    Ok(jobs)
}

/// Whether label `k` of the experiment matches `text`.
pub open spec fn label_matches(exp: &Experiment, text: Seq<char>, k: int) -> bool {
    regex_search(exp.labels.map@[k].1.regex@, text)
}

/// Assigns a label to a run from its afterscript's output `text`: of the
/// labels whose pattern matches, one with the highest priority (the first
/// by name among equals); `None` where no label matches.
pub fn assign_label(experiment: &Experiment, text: &str) -> (r: Option<String>)
    ensures
        r is None <==> forall|k: int| 0 <= k < experiment.labels.map.len() ==> !#[trigger] label_matches(experiment, text@, k),
        r matches Some(l) ==> exists|k: int| 0 <= k < experiment.labels.map.len() && #[trigger] label_matches(experiment, text@, k)
            && experiment.labels.map@[k].0@ == l@ && forall|j: int| 0 <= j < experiment.labels.map.len()
                && #[trigger] label_matches(experiment, text@, j) ==> experiment.labels.map@[j].1.priority
                <= experiment.labels.map@[k].1.priority,
{
    let map = &experiment.labels.map;
    let mut best: Option<usize> = None;
    let mut i: usize = 0;
    while i < map.len()
        invariant
            i <= map.len(),
            map == &experiment.labels.map,
            best is None <==> forall|k: int| 0 <= k < i ==> !#[trigger] label_matches(experiment, text@, k),
            best matches Some(b) ==> b < i && label_matches(experiment, text@, b as int) && forall|j: int|
                0 <= j < i && #[trigger] label_matches(experiment, text@, j) ==> map@[j].1.priority <= map@[b as int].1.priority,
        decreases map.len() - i,
    {
        let hit = pattern_is_match(&map[i].1.regex, text);
        assert(hit == label_matches(experiment, text@, i as int));
        if hit {
            match best {
                None => {
                    best = Some(i);
                },
                Some(b) => {
                    if map[i].1.priority > map[b].1.priority {
                        best = Some(i);
                    }
                },
            }
        }
        proof {
            if best is Some {
                assert(label_matches(experiment, text@, best->0 as int));
            }
        }
        i = i + 1;
    }
    match best {
        None => None,
        Some(b) => Some(map[b].0.clone()),
    }
}

/// The labels whose pattern matches `text`, by name in order; where there
/// are several, the assignment overlaps.
pub fn matching_labels(experiment: &Experiment, text: &str) -> (r: Vec<String>)
    ensures
        r@.map_values(|s: String| s@) == Seq::new(experiment.labels.map.len() as nat, |k: int| k).filter(
            |k: int| label_matches(experiment, text@, k),
        ).map_values(|k: int| experiment.labels.map@[k].0@),
{
    let map = &experiment.labels.map;
    let ghost idx = Seq::new(map.len() as nat, |k: int| k);
    let ghost pick = |k: int| label_matches(experiment, text@, k);
    let mut r: Vec<String> = Vec::new();
    let mut i: usize = 0;
    while i < map.len()
        invariant
            i <= map.len(),
            map == &experiment.labels.map,
            idx == Seq::new(map.len() as nat, |k: int| k),
            pick == (|k: int| label_matches(experiment, text@, k)),
            r@.map_values(|s: String| s@) == idx.take(i as int).filter(pick).map_values(|k: int| map@[k].0@),
        decreases map.len() - i,
    {
        let ghost before = r@.map_values(|s: String| s@);
        proof {
            assert(idx.take(i + 1).drop_last() =~= idx.take(i as int));
            reveal(Seq::filter);
            assert(idx.take(i + 1).last() == i as int);
        }
        if pattern_is_match(&map[i].1.regex, text) {
            let n = map[i].0.clone();
            r.push(n);
            assert(idx.take(i + 1).filter(pick) =~= idx.take(i as int).filter(pick).push(i as int));
            assert(r@.map_values(|s: String| s@) =~= before.push(n@));
        } else {
            assert(idx.take(i + 1).filter(pick) =~= idx.take(i as int).filter(pick));
        }
        i = i + 1;
    }
    assert(idx.take(map.len() as int) =~= idx);
    r
}

/// Whether `l` is a label that [`assign_label`] may give for `text`: of the
/// labels whose pattern matches, one with the highest priority; `None` where
/// none matches.
pub open spec fn label_choice(exp: &Experiment, text: Seq<char>, l: Option<String>) -> bool {
    &&& (l is None <==> forall|k: int| 0 <= k < exp.labels.map.len() ==> !#[trigger] label_matches(exp, text, k))
    &&& (l matches Some(x) ==> exists|k: int|
        0 <= k < exp.labels.map.len() && #[trigger] label_matches(exp, text, k) && exp.labels.map@[k].0@ == x@ && forall|j: int|
            0 <= j < exp.labels.map.len() && #[trigger] label_matches(exp, text, j) ==> exp.labels.map@[j].1.priority
                <= exp.labels.map@[k].1.priority)
}

/// The afterscript state of a run: none where its program has no afterscript;
/// dormant while the afterscript has left no output; done, with the label
/// its output earns, once it has.
pub fn afterscript_state(exp: &Experiment, has_afterscript: bool, output: Option<String>) -> (r: Option<PostprocessCompletion>)
    ensures
        !has_afterscript ==> r is None,
        has_afterscript && output is None ==> r == Some(PostprocessCompletion::Dormant),
        has_afterscript ==> (output matches Some(o) ==> (r matches Some(PostprocessCompletion::Success(l)) && label_choice(exp, o@, l))),
{
    if !has_afterscript {
        return None;
    }
    match output {
        None => Some(PostprocessCompletion::Dormant),
        Some(o) => {
            let l = assign_label(exp, o.as_str());
            Some(PostprocessCompletion::Success(l))
        },
    }
}

} // verus!
