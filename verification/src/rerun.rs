//! Deciding which runs to run again.
use vstd::prelude::*;

use crate::model::Experiment;
use crate::model::ResourceLimits;
use crate::status::FsState;
use crate::status::PostprocessCompletion;
use crate::status::SlurmState;
use crate::status::Status;

verus! {

/// The status of a single run, as far as re-running it is concerned.
#[derive(Debug, Clone, PartialEq, Eq, PartialOrd, Ord)]
pub enum RerunStatus {
    /// A run by this id does not exist in the experiment.
    DoesNotExist,
    /// The run has not finished yet.
    NotFinished,
    /// Finished successfully, with exit code 0.
    FinishedExitZero,
    /// Finished successfully, and its label does not ask for a re-run.
    FinishedSuccessLabel(String),
    /// Failed because its label asks for a re-run.
    FailedErrorLabel(String),
    /// Failed with a non-zero exit code.
    FailedExitCode(i32),
    /// Has been re-run as another run.
    RerunAs(usize),
}

/// The kind of a re-run status, without its label, exit code or run.
#[derive(Debug, Clone, Copy, PartialEq, Eq, Structural)]
pub enum RerunKind {
    /// See [`RerunStatus::DoesNotExist`].
    DoesNotExist,
    /// See [`RerunStatus::NotFinished`].
    NotFinished,
    /// See [`RerunStatus::FinishedExitZero`].
    FinishedExitZero,
    /// See [`RerunStatus::FinishedSuccessLabel`].
    FinishedSuccessLabel,
    /// See [`RerunStatus::FailedErrorLabel`].
    FailedErrorLabel,
    /// See [`RerunStatus::FailedExitCode`].
    FailedExitCode,
    /// See [`RerunStatus::RerunAs`].
    RerunAs,
}

/// The kind of a re-run status.
pub open spec fn kind_of(s: RerunStatus) -> RerunKind {
    match s {
        RerunStatus::DoesNotExist => RerunKind::DoesNotExist,
        RerunStatus::NotFinished => RerunKind::NotFinished,
        RerunStatus::FinishedExitZero => RerunKind::FinishedExitZero,
        RerunStatus::FinishedSuccessLabel(_) => RerunKind::FinishedSuccessLabel,
        RerunStatus::FailedErrorLabel(_) => RerunKind::FailedErrorLabel,
        RerunStatus::FailedExitCode(_) => RerunKind::FailedExitCode,
        RerunStatus::RerunAs(_) => RerunKind::RerunAs,
    }
}

/// Whether the kind is a failure: a failing label or a non-zero exit code.
pub open spec fn kind_fails(k: RerunKind) -> bool {
    k == RerunKind::FailedErrorLabel || k == RerunKind::FailedExitCode
}

/// Whether the kind is a success: exit code 0, possibly with a succeeding label.
pub open spec fn kind_succeeds(k: RerunKind) -> bool {
    k == RerunKind::FinishedExitZero || k == RerunKind::FinishedSuccessLabel
}

impl RerunStatus {
    /// The kind of this status.
    pub fn kind(&self) -> (k: RerunKind)
        ensures
            k == kind_of(*self),
    {
        match self {
            RerunStatus::DoesNotExist => RerunKind::DoesNotExist,
            RerunStatus::NotFinished => RerunKind::NotFinished,
            RerunStatus::FinishedExitZero => RerunKind::FinishedExitZero,
            RerunStatus::FinishedSuccessLabel(_) => RerunKind::FinishedSuccessLabel,
            RerunStatus::FailedErrorLabel(_) => RerunKind::FailedErrorLabel,
            RerunStatus::FailedExitCode(_) => RerunKind::FailedExitCode,
            RerunStatus::RerunAs(_) => RerunKind::RerunAs,
        }
    }

    /// Whether the status is a failure.
    pub fn is_fail(&self) -> (b: bool)
        ensures
            b == kind_fails(kind_of(*self)),
    {
        match self {
            RerunStatus::FailedErrorLabel(_) | RerunStatus::FailedExitCode(_) => true,
            _ => false,
        }
    }

    /// Whether the status is a success.
    pub fn is_success(&self) -> (b: bool)
        ensures
            b == kind_succeeds(kind_of(*self)),
    {
        match self {
            RerunStatus::FinishedExitZero | RerunStatus::FinishedSuccessLabel(_) => true,
            _ => false,
        }
    }
}

/// Why the status of a run could not be found.
#[derive(Debug, Clone, PartialEq, Eq)]
pub enum RerunError {
    /// The afterscript assigned a label the experiment does not define.
    UnknownLabel(String),
    /// A run by this id does not exist.
    RunDoesNotExist(usize),
    /// The run has been re-run already.
    AlreadyRerun(usize),
}

/// Whether the experiment defines a label called `name`.
pub open spec fn has_label(exp: &Experiment, name: Seq<char>) -> bool {
    exists|k: int| 0 <= k < exp.labels.map.len() && #[trigger] exp.labels.map@[k].0@ == name
}

/// Whether the first label called `name` asks for a re-run.
pub open spec fn label_reruns(exp: &Experiment, name: Seq<char>) -> bool {
    let k = choose|k: int| 0 <= k < exp.labels.map.len() && #[trigger] exp.labels.map@[k].0@ == name
        && forall|j: int| 0 <= j < k ==> #[trigger] exp.labels.map@[j].0@ != name;
    exp.labels.map@[k].1.rerun_by_default
}

/// Whether the label defined first under `name` asks for a re-run; `None` when
/// there is no such label.
pub fn label_rerun_by_default(exp: &Experiment, name: &String) -> (r: Option<bool>)
    ensures
        r is Some <==> has_label(exp, name@),
        r matches Some(b) ==> b == label_reruns(exp, name@),
{
    match crate::plan::find_name(&exp.labels.map, name) {
        Some(k) => {
            proof {
                let c = choose|k: int| 0 <= k < exp.labels.map.len() && #[trigger] exp.labels.map@[k].0@ == name@
                    && forall|j: int| 0 <= j < k ==> #[trigger] exp.labels.map@[j].0@ != name@;
                assert(k as int == c) by {
                    if (c as int) < (k as int) {
                        assert(exp.labels.map@[c].0@ != name@);
                    }
                    if (k as int) < c {
                        assert(exp.labels.map@[k as int].0@ != name@);
                    }
                }
            }
            Some(exp.labels.map[k].1.rerun_by_default)
        },
        None => None,
    }
}

/// The label of a run whose afterscript finished with one.
pub open spec fn success_label(s: Status) -> Option<Seq<char>> {
    match s.fs_status.afterscript_completion {
        Some(PostprocessCompletion::Success(Some(l))) => Some(l@),
        _ => None,
    }
}

/// The text of a status's label, if it has one.
pub open spec fn status_label(s: RerunStatus) -> Option<Seq<char>> {
    match s {
        RerunStatus::FinishedSuccessLabel(l) => Some(l@),
        RerunStatus::FailedErrorLabel(l) => Some(l@),
        _ => None,
    }
}

/// Whether `r` is the re-run status of run `id`: it does not exist where no status
/// is known; it was re-run where it has a re-run; it has not finished; it failed
/// with its non-zero exit code; or it finished with exit code 0, and then its
/// label (if the afterscript gave one) decides between failure and success.
pub open spec fn is_status_of(exp: &Experiment, statuses: Seq<Status>, id: usize, r: RerunStatus) -> bool {
    if id >= statuses.len() {
        r == RerunStatus::DoesNotExist
    } else if exp.runs@[id as int].rerun is Some {
        r == RerunStatus::RerunAs(exp.runs@[id as int].rerun->Some_0)
    } else {
        match statuses[id as int].fs_status.completion {
            FsState::Completed(m) => if m.exit_code != 0 {
                r == RerunStatus::FailedExitCode(m.exit_code)
            } else {
                match success_label(statuses[id as int]) {
                    Some(l) => status_label(r) == Some(l) && if label_reruns(exp, l) {
                        kind_of(r) == RerunKind::FailedErrorLabel
                    } else {
                        kind_of(r) == RerunKind::FinishedSuccessLabel
                    },
                    None => r == RerunStatus::FinishedExitZero,
                }
            },
            _ => r == RerunStatus::NotFinished,
        }
    }
}

/// Whether statuses are known of exactly the runs of the experiment.
pub open spec fn statuses_match(exp: &Experiment, statuses: Seq<Status>) -> bool {
    statuses.len() == exp.runs.len()
}

/// Whether run `id` finished with exit code 0 and a label the experiment does not define.
pub open spec fn label_missing(exp: &Experiment, statuses: Seq<Status>, id: usize) -> bool {
    &&& id < statuses.len()
    &&& exp.runs@[id as int].rerun is None
    &&& (statuses[id as int].fs_status.completion matches FsState::Completed(m) && m.exit_code == 0)
    &&& (success_label(statuses[id as int]) matches Some(l) && !has_label(exp, l))
}

/// Checks the status of a single run.
///
/// Fails with [`RerunError::UnknownLabel`] exactly when the run finished with
/// exit code 0 and its afterscript assigned a label the experiment does not define.
pub fn status_of_single_run(run_id: usize, statuses: &Vec<Status>, exp: &Experiment) -> (res: Result<RerunStatus, RerunError>)
    requires
        statuses_match(exp, statuses@),
    ensures
        res matches Ok(r) ==> is_status_of(exp, statuses@, run_id, r),
        res is Err <==> label_missing(exp, statuses@, run_id),
        res matches Err(e) ==> e matches RerunError::UnknownLabel(_),
{
    if run_id >= statuses.len() {
        return Ok(RerunStatus::DoesNotExist);
    }
    let st = &statuses[run_id];
    if let Some(r) = exp.runs[run_id].rerun {
        return Ok(RerunStatus::RerunAs(r));
    }
    match st.fs_status.completion {
        FsState::Pending | FsState::Running => Ok(RerunStatus::NotFinished),
        FsState::Completed(m) => {
            if m.exit_code == 0 {
                match &st.fs_status.afterscript_completion {
                    Some(PostprocessCompletion::Success(Some(label))) => {
                        match label_rerun_by_default(exp, label) {
                            None => Err(RerunError::UnknownLabel(label.clone())),
                            Some(true) => Ok(RerunStatus::FailedErrorLabel(label.clone())),
                            Some(false) => Ok(RerunStatus::FinishedSuccessLabel(label.clone())),
                        }
                    },
                    _ => Ok(RerunStatus::FinishedExitZero),
                }
            } else {
                Ok(RerunStatus::FailedExitCode(m.exit_code))
            }
        },
    }
}

/// The runs among the first `k` that have finished, in order.
pub open spec fn finished_upto(statuses: Seq<Status>, k: nat) -> Seq<usize>
    decreases k,
{
    if k == 0 {
        Seq::empty()
    } else {
        let rest = finished_upto(statuses, (k - 1) as nat);
        if statuses[k - 1].completed() {
            rest.push((k - 1) as usize)
        } else {
            rest
        }
    }
}

/// The runs that have finished, in increasing order.
pub fn get_finished_runs_from_statuses(statuses: &Vec<Status>) -> (r: Vec<usize>)
    ensures
        r@ == finished_upto(statuses@, statuses.len() as nat),
{
    let mut r: Vec<usize> = Vec::new();
    let mut i: usize = 0;
    while i < statuses.len()
        invariant
            i <= statuses.len(),
            r@ == finished_upto(statuses@, i as nat),
        decreases statuses.len() - i,
    {
        if statuses[i].is_completed() {
            r.push(i);
        }
        i = i + 1;
    }
    r
}

/// Whether a finished run failed: a non-zero exit code, or a label (defined by
/// the experiment) that asks for a re-run.
pub open spec fn failed(exp: &Experiment, s: Status) -> bool {
    match s.fs_status.completion {
        FsState::Completed(m) => m.exit_code != 0 || (success_label(s) matches Some(l) && has_label(exp, l)
            && label_reruns(exp, l)),
        _ => false,
    }
}

/// Whether a run failed.
pub fn has_failed(s: &Status, exp: &Experiment) -> (b: bool)
    ensures
        b == failed(exp, *s),
{
    match s.fs_status.completion {
        FsState::Completed(m) => {
            if m.exit_code != 0 {
                true
            } else {
                match &s.fs_status.afterscript_completion {
                    Some(PostprocessCompletion::Success(Some(label))) => match label_rerun_by_default(exp, label) {
                        Some(b) => b,
                        None => false,
                    },
                    _ => false,
                }
            }
        },
        _ => false,
    }
}

/// Whether run `id` can be re-run because it failed: it has not been re-run,
/// it has finished, and it failed.
pub open spec fn rerunnable(exp: &Experiment, statuses: Seq<Status>, id: usize) -> bool {
    exp.runs@[id as int].rerun is None && statuses[id as int].completed() && failed(exp, statuses[id as int])
}

/// The ids among the first `k` of `ids` that satisfy [`rerunnable`], in order.
pub open spec fn rerunnable_upto(exp: &Experiment, statuses: Seq<Status>, ids: Seq<usize>, k: nat) -> Seq<usize>
    decreases k,
{
    if k == 0 {
        Seq::empty()
    } else {
        let rest = rerunnable_upto(exp, statuses, ids, (k - 1) as nat);
        if rerunnable(exp, statuses, ids[k - 1]) {
            rest.push(ids[k - 1])
        } else {
            rest
        }
    }
}

/// The runs among `ids` that failed and can be re-run, in order.
pub fn re_runnable(ids: &Vec<usize>, exp: &Experiment, statuses: &Vec<Status>) -> (r: Vec<usize>)
    requires
        statuses_match(exp, statuses@),
        forall|k: int| 0 <= k < ids.len() ==> #[trigger] ids@[k] < statuses.len(),
    ensures
        r@ == rerunnable_upto(exp, statuses@, ids@, ids.len() as nat),
{
    let mut r: Vec<usize> = Vec::new();
    let mut k: usize = 0;
    while k < ids.len()
        invariant
            k <= ids.len(),
            statuses_match(exp, statuses@),
            forall|j: int| 0 <= j < ids.len() ==> #[trigger] ids@[j] < statuses.len(),
            r@ == rerunnable_upto(exp, statuses@, ids@, k as nat),
        decreases ids.len() - k,
    {
        let id = ids[k];
        if exp.runs[id].rerun.is_none() && statuses[id].is_completed() && has_failed(&statuses[id], exp) {
            r.push(id);
        }
        k = k + 1;
    }
    r
}

/// The runs among the first `k` that have finished and have not been re-run, in order.
pub open spec fn finished_not_rerun_upto(exp: &Experiment, statuses: Seq<Status>, k: nat) -> Seq<usize>
    decreases k,
{
    if k == 0 {
        Seq::empty()
    } else {
        let rest = finished_not_rerun_upto(exp, statuses, (k - 1) as nat);
        if exp.runs@[k - 1].rerun is None && statuses[k - 1].completed() {
            rest.push((k - 1) as usize)
        } else {
            rest
        }
    }
}

/// The runs offered for re-running are exactly the runs that have finished
/// and have not been re-run already.
pub proof fn lemma_finished_not_rerun_exactly(exp: &Experiment, statuses: Seq<Status>, k: nat)
    requires
        k <= exp.runs.len(),
    ensures
        forall|x: usize|
            #[trigger] finished_not_rerun_upto(exp, statuses, k).contains(x) <==> (x < k && exp.runs@[x as int].rerun is None
                && statuses[x as int].completed()),
    decreases k,
{
    if k > 0 {
        lemma_finished_not_rerun_exactly(exp, statuses, (k - 1) as nat);
        let rest = finished_not_rerun_upto(exp, statuses, (k - 1) as nat);
        let cur = finished_not_rerun_upto(exp, statuses, k);
        if exp.runs@[k - 1].rerun is None && statuses[k - 1].completed() {
            assert(cur == rest.push((k - 1) as usize));
        } else {
            assert(cur == rest);
        }
        assert forall|x: usize|
            #[trigger] cur.contains(x) <==> (x < k && exp.runs@[x as int].rerun is None && statuses[x as int].completed()) by {
            if cur.contains(x) {
                let i = choose|i: int| 0 <= i < cur.len() && cur[i] == x;
                if i < rest.len() {
                    assert(rest[i] == x);
                    assert(rest.contains(x));
                }
            }
            if x < k && exp.runs@[x as int].rerun is None && statuses[x as int].completed() {
                if x < k - 1 {
                    assert(rest.contains(x));
                    let i = choose|i: int| 0 <= i < rest.len() && rest[i] == x;
                    assert(cur[i] == x);
                } else {
                    assert(cur[cur.len() - 1] == x);
                }
            }
        }
    }
}

/// The runs that could be re-run: all finished runs not yet re-run, and those of them that failed.
pub fn rerun_candidates(exp: &Experiment, statuses: &Vec<Status>) -> (r: (Vec<usize>, Vec<usize>))
    requires
        statuses_match(exp, statuses@),
    ensures
        r.0@ == finished_not_rerun_upto(exp, statuses@, exp.runs.len() as nat),
        r.1@ == rerunnable_upto(exp, statuses@, r.0@, r.0.len() as nat),
        forall|x: usize| #[trigger] r.0@.contains(x) <==> (x < exp.runs.len() && exp.runs@[x as int].rerun is None && statuses@[x as int].completed()),
        forall|x: usize| #[trigger] r.1@.contains(x) <==> (x < exp.runs.len() && exp.runs@[x as int].rerun is None && statuses@[x as int].completed()
            && failed(exp, statuses@[x as int])),
{
    proof {
        lemma_finished_not_rerun_exactly(exp, statuses@, exp.runs.len() as nat);
    }
    let mut all: Vec<usize> = Vec::new();
    let mut i: usize = 0;
    while i < exp.runs.len()
        invariant
            i <= exp.runs.len(),
            statuses_match(exp, statuses@),
            all@ == finished_not_rerun_upto(exp, statuses@, i as nat),
            forall|k: int| 0 <= k < all.len() ==> #[trigger] all@[k] < i,
        decreases exp.runs.len() - i,
    {
        if exp.runs[i].rerun.is_none() && statuses[i].is_completed() {
            all.push(i);
        }
        i = i + 1;
    }
    let picked = re_runnable(&all, exp, statuses);
    proof {
        lemma_rerun_only_failed(exp, statuses@, all@);
        lemma_rerun_every_failed(exp, statuses@, all@, all.len() as nat);
        assert forall|x: usize| #[trigger] picked@.contains(x) <==> (x < exp.runs.len() && exp.runs@[x as int].rerun is None
            && statuses@[x as int].completed() && failed(exp, statuses@[x as int])) by {
            if picked@.contains(x) {
                let i = choose|i: int| 0 <= i < picked.len() && picked@[i] == x;
                assert(all@.contains(x));
            }
            if x < exp.runs.len() && exp.runs@[x as int].rerun is None && statuses@[x as int].completed() && failed(exp, statuses@[x as int]) {
                assert(all@.contains(x));
                let j = choose|j: int| 0 <= j < all.len() && all@[j] == x;
                assert(rerunnable(exp, statuses@, all@[j]));
            }
        }
    }
    (all, picked)
}

/// A status as plain values: its kind, label, exit code and re-run.
pub type StatusView = (RerunKind, Option<Seq<char>>, i32, usize);

/// The status as plain values.
pub open spec fn status_view(s: RerunStatus) -> StatusView {
    match s {
        RerunStatus::FinishedSuccessLabel(l) => (kind_of(s), Some(l@), 0, 0),
        RerunStatus::FailedErrorLabel(l) => (kind_of(s), Some(l@), 0, 0),
        RerunStatus::FailedExitCode(c) => (kind_of(s), None, c, 0),
        RerunStatus::RerunAs(r) => (kind_of(s), None, 0, r),
        _ => (kind_of(s), None, 0, 0),
    }
}

/// The status with its label, exit code and run blanked out, so that statuses
/// of one kind compare equal.
pub open spec fn normalized_view(s: RerunStatus) -> StatusView {
    let k = kind_of(s);
    (k, if k == RerunKind::FinishedSuccessLabel || k == RerunKind::FailedErrorLabel {
        Some(Seq::empty())
    } else {
        None
    }, 0, 0)
}

/// The status with its label, exit code and run blanked out.
pub fn normalize(s: &RerunStatus) -> (r: RerunStatus)
    ensures
        status_view(r) == normalized_view(*s),
{
    match s {
        RerunStatus::DoesNotExist => RerunStatus::DoesNotExist,
        RerunStatus::NotFinished => RerunStatus::NotFinished,
        RerunStatus::FinishedExitZero => RerunStatus::FinishedExitZero,
        RerunStatus::FinishedSuccessLabel(_) => RerunStatus::FinishedSuccessLabel(String::new()),
        RerunStatus::FailedErrorLabel(_) => RerunStatus::FailedErrorLabel(String::new()),
        RerunStatus::FailedExitCode(_) => RerunStatus::FailedExitCode(0),
        RerunStatus::RerunAs(_) => RerunStatus::RerunAs(0),
    }
}

/// Whether two statuses hold the same values.
pub fn same_status(a: &RerunStatus, b: &RerunStatus) -> (r: bool)
    ensures
        r == (status_view(*a) == status_view(*b)),
{
    match a {
        RerunStatus::FinishedSuccessLabel(x) => match b {
            RerunStatus::FinishedSuccessLabel(y) => x.eq(y),
            _ => false,
        },
        RerunStatus::FailedErrorLabel(x) => match b {
            RerunStatus::FailedErrorLabel(y) => x.eq(y),
            _ => false,
        },
        RerunStatus::FailedExitCode(x) => match b {
            RerunStatus::FailedExitCode(y) => *x == *y,
            _ => false,
        },
        RerunStatus::RerunAs(x) => match b {
            RerunStatus::RerunAs(y) => *x == *y,
            _ => false,
        },
        _ => a.kind() == b.kind(),
    }
}

/// A copy of a status.
pub fn clone_status(s: &RerunStatus) -> (r: RerunStatus)
    ensures
        status_view(r) == status_view(*s),
{
    match s {
        RerunStatus::DoesNotExist => RerunStatus::DoesNotExist,
        RerunStatus::NotFinished => RerunStatus::NotFinished,
        RerunStatus::FinishedExitZero => RerunStatus::FinishedExitZero,
        RerunStatus::FinishedSuccessLabel(l) => RerunStatus::FinishedSuccessLabel(l.clone()),
        RerunStatus::FailedErrorLabel(l) => RerunStatus::FailedErrorLabel(l.clone()),
        RerunStatus::FailedExitCode(c) => RerunStatus::FailedExitCode(*c),
        RerunStatus::RerunAs(r) => RerunStatus::RerunAs(*r),
    }
}

/// Whether the entries are in strictly increasing order of run id.
pub open spec fn ids_increasing(m: Seq<(usize, RerunStatus)>) -> bool {
    forall|a: int, b: int| 0 <= a < b < m.len() ==> m[a].0 < m[b].0
}

/// Whether `m` is the map of the runs `list` to their normalized statuses.
pub open spec fn statuses_of_list(exp: &Experiment, statuses: Seq<Status>, list: Seq<usize>, m: Seq<(usize, RerunStatus)>) -> bool {
    &&& ids_increasing(m)
    &&& forall|id: usize| (exists|k: int| 0 <= k < m.len() && #[trigger] m[k].0 == id) <==> list.contains(id)
    &&& forall|k: int| 0 <= k < m.len() ==> status_view(#[trigger] m[k].1) == blank_view(expected_kind(exp, statuses, m[k].0))
}

/// The kind of the status of run `id` (see [`is_status_of`]).
pub open spec fn expected_kind(exp: &Experiment, statuses: Seq<Status>, id: usize) -> RerunKind {
    if id >= statuses.len() {
        RerunKind::DoesNotExist
    } else if exp.runs@[id as int].rerun is Some {
        RerunKind::RerunAs
    } else {
        match statuses[id as int].fs_status.completion {
            FsState::Completed(m) => if m.exit_code != 0 {
                RerunKind::FailedExitCode
            } else {
                match success_label(statuses[id as int]) {
                    Some(l) => if label_reruns(exp, l) {
                        RerunKind::FailedErrorLabel
                    } else {
                        RerunKind::FinishedSuccessLabel
                    },
                    None => RerunKind::FinishedExitZero,
                }
            },
            _ => RerunKind::NotFinished,
        }
    }
}

/// The blanked-out status of a kind.
pub open spec fn blank_view(k: RerunKind) -> StatusView {
    (k, if k == RerunKind::FinishedSuccessLabel || k == RerunKind::FailedErrorLabel {
        Some(Seq::empty())
    } else {
        None
    }, 0, 0)
}

/// The statuses of the runs in `list`, blanked out to their kind, by increasing run id.
///
/// Fails exactly when one of the runs has a label the experiment does not define.
pub fn all_run_statuses(list: &Vec<usize>, exp: &Experiment, statuses: &Vec<Status>) -> (res: Result<Vec<(usize, RerunStatus)>, RerunError>)
    requires
        statuses_match(exp, statuses@),
    ensures
        res is Err <==> exists|k: int| 0 <= k < list.len() && label_missing(exp, statuses@, #[trigger] list@[k]),
        res matches Ok(m) ==> statuses_of_list(exp, statuses@, list@, m@),
{
    let mut m: Vec<(usize, RerunStatus)> = Vec::new();
    let mut i: usize = 0;
    while i < list.len()
        invariant
            i <= list.len(),
            statuses_match(exp, statuses@),
            forall|k: int| 0 <= k < i ==> !label_missing(exp, statuses@, #[trigger] list@[k]),
            statuses_of_list(exp, statuses@, list@.take(i as int), m@),
        decreases list.len() - i,
    {
        let run = list[i];
        let st = match status_of_single_run(run, statuses, exp) {
            Ok(s) => s,
            Err(e) => {
                return Err(e);
            },
        };
        let norm = normalize(&st);
        let mut j: usize = 0;
        while j < m.len() && m[j].0 < run
            invariant
                j <= m.len(),
                forall|a: int| 0 <= a < j ==> m@[a].0 < run,
            decreases m.len() - j,
        {
            j = j + 1;
        }
        let ghost before = m@;
        if j < m.len() && m[j].0 == run {
            m.set(j, (run, norm));
        } else {
            m.insert(j, (run, norm));
        }
        proof {
            let prefix = list@.take(i as int);
            let next = list@.take(i + 1);
            assert(next =~= prefix.push(run));
            assert forall|a: int, b: int| 0 <= a < b < m@.len() implies m@[a].0 < m@[b].0 by {
                if before.len() < m@.len() {
                    if a < j && b < j {
                        assert(m@[a] == before[a] && m@[b] == before[b]);
                    } else if a < j && b == j {
                        assert(m@[a] == before[a]);
                    } else if a < j {
                        assert(m@[a] == before[a] && m@[b] == before[b - 1]);
                    } else if a == j {
                        assert(m@[b] == before[b - 1]);
                        assert(before[j as int].0 >= run);
                        assert(before[j as int].0 != run);
                        if b - 1 > j {
                            assert(before[j as int].0 < before[b - 1].0);
                        }
                    } else {
                        assert(m@[a] == before[a - 1] && m@[b] == before[b - 1]);
                    }
                } else {
                    if a != j && b != j {
                        assert(m@[a] == before[a] && m@[b] == before[b]);
                    } else if a == j {
                        assert(m@[b] == before[b]);
                    } else {
                        assert(m@[a] == before[a]);
                    }
                }
            }
            assert forall|id: usize| (exists|k: int| 0 <= k < m@.len() && #[trigger] m@[k].0 == id) <==> next.contains(id) by {
                if next.contains(id) {
                    if id == run {
                        assert(m@[j as int].0 == id);
                    } else {
                        let p = choose|p: int| 0 <= p < next.len() && next[p] == id;
                        assert(prefix[p] == id);
                        assert(prefix.contains(id));
                        let k = choose|k: int| 0 <= k < before.len() && #[trigger] before[k].0 == id;
                        if before.len() < m@.len() {
                            if k < j {
                                assert(m@[k].0 == id);
                            } else {
                                assert(m@[k + 1].0 == id);
                            }
                        } else {
                            assert(m@[k].0 == id);
                        }
                    }
                }
                if exists|k: int| 0 <= k < m@.len() && #[trigger] m@[k].0 == id {
                    let k = choose|k: int| 0 <= k < m@.len() && #[trigger] m@[k].0 == id;
                    if id != run {
                        if before.len() < m@.len() {
                            if k < j {
                                assert(before[k].0 == id);
                            } else {
                                assert(before[k - 1].0 == id);
                            }
                        } else {
                            assert(before[k].0 == id);
                        }
                        assert(prefix.contains(id));
                        let p = choose|p: int| 0 <= p < prefix.len() && prefix[p] == id;
                        assert(next[p] == id);
                    } else {
                        assert(next[i as int] == id);
                    }
                }
            }
            assert forall|k: int| 0 <= k < m@.len() implies status_view(#[trigger] m@[k].1) == blank_view(expected_kind(exp, statuses@, m@[k].0)) by {
                if k == j {
                    assert(is_status_of(exp, statuses@, m@[k].0, st));
                    assert(kind_of(st) == expected_kind(exp, statuses@, run));
                } else if before.len() < m@.len() {
                    if k < j {
                        assert(m@[k] == before[k]);
                    } else {
                        assert(m@[k] == before[k - 1]);
                    }
                } else {
                    assert(m@[k] == before[k]);
                }
            }
            assert(!label_missing(exp, statuses@, list@[i as int]));
        }
        i = i + 1;
    }
    assert(list@.take(list.len() as int) =~= list@);
    Ok(m)
}

/// The number of the first `n` entries of `m` whose status is `v`.
pub open spec fn count_view(m: Seq<(usize, RerunStatus)>, v: StatusView, n: nat) -> nat
    decreases n,
{
    if n == 0 {
        0
    } else {
        count_view(m, v, (n - 1) as nat) + if status_view(m[n - 1].1) == v {
            1nat
        } else {
            0nat
        }
    }
}

/// Whether `table` counts the statuses of `m`: one entry per distinct status
/// that occurs, with the number of runs that have it.
pub open spec fn counts_statuses(m: Seq<(usize, RerunStatus)>, table: Seq<(RerunStatus, usize)>) -> bool {
    &&& forall|a: int, b: int| 0 <= a < b < table.len() ==> status_view(table[a].0) != status_view(table[b].0)
    &&& forall|k: int| 0 <= k < table.len() ==> #[trigger] table[k].1 == count_view(m, status_view(table[k].0), m.len())
    &&& forall|k: int| 0 <= k < table.len() ==> #[trigger] table[k].1 > 0
    &&& forall|j: int| #![trigger m[j]] 0 <= j < m.len() ==> exists|k: int| 0 <= k < table.len() && status_view(#[trigger] table[k].0) == status_view(m[j].1)
}

proof fn lemma_count_bound(m: Seq<(usize, RerunStatus)>, v: StatusView, n: nat)
    requires
        n <= m.len(),
    ensures
        count_view(m, v, n) <= n,
    decreases n,
{
    if n > 0 {
        lemma_count_bound(m, v, (n - 1) as nat);
    }
}

/// A class of statuses that the counts single out.
#[derive(Debug, Clone, Copy, PartialEq, Eq, Structural)]
pub enum KindClass {
    /// Every status.
    Any,
    /// The failures.
    Failed,
    /// The successes.
    Succeeded,
}

/// Whether a kind belongs to a class.
pub open spec fn in_class(c: KindClass, k: RerunKind) -> bool {
    match c {
        KindClass::Any => true,
        KindClass::Failed => kind_fails(k),
        KindClass::Succeeded => kind_succeeds(k),
    }
}

/// The number of the first `n` runs of `m` whose status is in class `c`.
pub open spec fn count_class(m: Seq<(usize, RerunStatus)>, c: KindClass, n: nat) -> nat
    decreases n,
{
    if n == 0 {
        0
    } else {
        count_class(m, c, (n - 1) as nat) + if in_class(c, kind_of(m[n - 1].1)) {
            1nat
        } else {
            0nat
        }
    }
}

/// The total of the counts of the first `n` entries whose status is in class `c`.
pub open spec fn sum_class(table: Seq<(RerunStatus, usize)>, c: KindClass, n: nat) -> nat
    decreases n,
{
    if n == 0 {
        0
    } else {
        sum_class(table, c, (n - 1) as nat) + if in_class(c, kind_of(table[n - 1].0)) {
            table[n - 1].1 as nat
        } else {
            0nat
        }
    }
}

proof fn lemma_sum_class_update(table: Seq<(RerunStatus, usize)>, c: KindClass, k: int, e: (RerunStatus, usize), n: nat)
    requires
        0 <= k < table.len(),
        n <= table.len(),
        kind_of(e.0) == kind_of(table[k].0),
        e.1 == table[k].1 + 1,
    ensures
        sum_class(table.update(k, e), c, n) == sum_class(table, c, n) + if k < n && in_class(c, kind_of(e.0)) {
            1nat
        } else {
            0nat
        },
    decreases n,
{
    if n > 0 {
        lemma_sum_class_update(table, c, k, e, (n - 1) as nat);
    }
}

proof fn lemma_sum_class_prefix(table: Seq<(RerunStatus, usize)>, e: (RerunStatus, usize), c: KindClass, n: nat)
    requires
        n <= table.len(),
    ensures
        sum_class(table.push(e), c, n) == sum_class(table, c, n),
    decreases n,
{
    if n > 0 {
        lemma_sum_class_prefix(table, e, c, (n - 1) as nat);
    }
}

/// Counts the runs of each status.
///
/// Returns one entry per distinct status in `m`, with the number of runs that
/// have it, in the order the statuses first appear. The counts add up to the
/// number of runs, and those of the failures and of the successes to the
/// numbers of failed and of successful runs.
pub fn aggregate_run_statuses(m: &Vec<(usize, RerunStatus)>) -> (table: Vec<(RerunStatus, usize)>)
    ensures
        counts_statuses(m@, table@),
        sum_class(table@, KindClass::Any, table.len() as nat) == m.len(),
        sum_class(table@, KindClass::Failed, table.len() as nat) == count_class(m@, KindClass::Failed, m.len() as nat),
        sum_class(table@, KindClass::Succeeded, table.len() as nat) == count_class(m@, KindClass::Succeeded, m.len() as nat),
{
    let mut table: Vec<(RerunStatus, usize)> = Vec::new();
    let mut i: usize = 0;
    while i < m.len()
        invariant
            i <= m.len(),
            forall|a: int, b: int| 0 <= a < b < table.len() ==> status_view(table@[a].0) != status_view(table@[b].0),
            forall|k: int| 0 <= k < table.len() ==> #[trigger] table@[k].1 == count_view(m@, status_view(table@[k].0), i as nat),
            forall|k: int| 0 <= k < table.len() ==> #[trigger] table@[k].1 > 0,
            forall|j: int| #![trigger m@[j]] 0 <= j < i ==> exists|k: int| 0 <= k < table.len() && status_view(#[trigger] table@[k].0) == status_view(m@[j].1),
            forall|v: StatusView| (forall|k: int| 0 <= k < table.len() ==> status_view(#[trigger] table@[k].0) != v) ==> count_view(m@, v, i as nat) == 0,
            forall|c: KindClass| #[trigger] sum_class(table@, c, table.len() as nat) == count_class(m@, c, i as nat),
        decreases m.len() - i,
    {
        let st = &m[i].1;
        let ghost v = status_view(*st);
        let mut k: usize = 0;
        while k < table.len() && !same_status(&table[k].0, st)
            invariant
                k <= table.len(),
                v == status_view(*st),
                forall|q: int| 0 <= q < k ==> status_view(#[trigger] table@[q].0) != v,
            decreases table.len() - k,
        {
            k = k + 1;
        }
        let ghost before = table@;
        proof {
            lemma_count_bound(m@, v, i as nat);
        }
        if k < table.len() {
            let (s0, c) = table.remove(k);
            assert(c == count_view(m@, v, i as nat));
            table.insert(k, (s0, c + 1));
            proof {
                assert(table@ == before.update(k as int, (s0, (c + 1) as usize)));
                assert(kind_of(s0) == kind_of(*st));
                assert forall|cl: KindClass| #[trigger] sum_class(table@, cl, table.len() as nat) == count_class(m@, cl, (i + 1) as nat) by {
                    lemma_sum_class_update(before, cl, k as int, (s0, (c + 1) as usize), before.len() as nat);
                    assert(sum_class(before, cl, before.len() as nat) == count_class(m@, cl, i as nat));
                }
                assert forall|q: int| 0 <= q < table.len() implies #[trigger] table@[q].1 == count_view(m@, status_view(table@[q].0), (i + 1) as nat) by {
                    if q != k {
                        assert(table@[q] == before[q]);
                    }
                }
                assert forall|q: int| 0 <= q < table.len() implies #[trigger] table@[q].1 > 0 by {
                    if q != k {
                        assert(table@[q] == before[q]);
                    }
                }
                assert forall|a: int, b: int| 0 <= a < b < table.len() implies status_view(table@[a].0) != status_view(table@[b].0) by {
                    assert(status_view(table@[a].0) == status_view(before[a].0));
                    assert(status_view(table@[b].0) == status_view(before[b].0));
                }
            }
        } else {
            let copy = clone_status(st);
            table.push((copy, 1));
            proof {
                assert(count_view(m@, v, i as nat) == 0);
                assert forall|q: int| 0 <= q < table.len() implies #[trigger] table@[q].1 == count_view(m@, status_view(table@[q].0), (i + 1) as nat) by {
                    if q < before.len() {
                        assert(table@[q] == before[q]);
                    }
                }
                assert forall|q: int| 0 <= q < table.len() implies #[trigger] table@[q].1 > 0 by {
                    if q < before.len() {
                        assert(table@[q] == before[q]);
                    }
                }
                assert forall|cl: KindClass| #[trigger] sum_class(table@, cl, table.len() as nat) == count_class(m@, cl, (i + 1) as nat) by {
                    lemma_sum_class_prefix(before, (copy, 1usize), cl, before.len() as nat);
                    assert(sum_class(before, cl, before.len() as nat) == count_class(m@, cl, i as nat));
                    assert(table@ == before.push((copy, 1usize)));
                    assert(kind_of(copy) == kind_of(*st));
                }
            }
        }
        proof {
            assert forall|j: int| #![trigger m@[j]] 0 <= j < i + 1 implies exists|k: int| 0 <= k < table.len() && status_view(#[trigger] table@[k].0) == status_view(m@[j].1) by {
                if j < i {
                    let q = choose|q: int| 0 <= q < before.len() && status_view(#[trigger] before[q].0) == status_view(m@[j].1);
                    assert(status_view(table@[q].0) == status_view(before[q].0));
                } else {
                    assert(status_view(table@[k as int].0) == v);
                }
            }
            assert forall|w: StatusView| #![trigger count_view(m@, w, (i + 1) as nat)] (forall|q: int| 0 <= q < table.len() ==> status_view(#[trigger] table@[q].0) != w) implies count_view(m@, w, (i + 1) as nat) == 0 by {
                assert(status_view(table@[k as int].0) == v);
                assert forall|q: int| 0 <= q < before.len() implies status_view(#[trigger] before[q].0) != w by {
                    assert(status_view(table@[q].0) == status_view(before[q].0));
                }
                assert(count_view(m@, w, i as nat) == 0);
                assert(w != v);
            }
        }
        i = i + 1;
    }
    assert forall|j: int| #![trigger m@[j]] 0 <= j < m@.len() implies exists|k: int| 0 <= k < table@.len() && status_view(#[trigger] table@[k].0) == status_view(m@[j].1) by {
        assert(0 <= j < i);
        let q = choose|q: int| 0 <= q < table@.len() && status_view(#[trigger] table@[q].0) == status_view(m@[j].1);
        assert(status_view(table@[q].0) == status_view(m@[j].1));
    }
    assert(sum_class(table@, KindClass::Any, table.len() as nat) == count_class(m@, KindClass::Any, m.len() as nat));
    proof {
        lemma_count_any(m@, m.len() as nat);
    }
    table
}

proof fn lemma_count_any(m: Seq<(usize, RerunStatus)>, n: nat)
    ensures
        count_class(m, KindClass::Any, n) == n,
    decreases n,
{
    if n > 0 {
        lemma_count_any(m, (n - 1) as nat);
    }
}

proof fn lemma_sum_class_bound(table: Seq<(RerunStatus, usize)>, c: KindClass, n: nat)
    ensures
        sum_class(table, c, n) <= sum_class(table, KindClass::Any, n),
    decreases n,
{
    if n > 0 {
        lemma_sum_class_bound(table, c, (n - 1) as nat);
    }
}

proof fn lemma_sum_class_mono(table: Seq<(RerunStatus, usize)>, c: KindClass, a: nat, b: nat)
    requires
        a <= b,
    ensures
        sum_class(table, c, a) <= sum_class(table, c, b),
    decreases b,
{
    if a < b {
        lemma_sum_class_mono(table, c, a, (b - 1) as nat);
    }
}

/// The number of failed and of successful runs in a table of status counts.
pub fn success_fails_from_table(table: &Vec<(RerunStatus, usize)>) -> (r: (usize, usize))
    requires
        sum_class(table@, KindClass::Any, table.len() as nat) <= usize::MAX,
    ensures
        r.0 == sum_class(table@, KindClass::Failed, table.len() as nat),
        r.1 == sum_class(table@, KindClass::Succeeded, table.len() as nat),
{
    let mut failed: usize = 0;
    let mut success: usize = 0;
    let mut i: usize = 0;
    while i < table.len()
        invariant
            i <= table.len(),
            sum_class(table@, KindClass::Any, table.len() as nat) <= usize::MAX,
            failed == sum_class(table@, KindClass::Failed, i as nat),
            success == sum_class(table@, KindClass::Succeeded, i as nat),
        decreases table.len() - i,
    {
        proof {
            lemma_sum_class_bound(table@, KindClass::Failed, (i + 1) as nat);
            lemma_sum_class_bound(table@, KindClass::Succeeded, (i + 1) as nat);
            lemma_sum_class_mono(table@, KindClass::Any, (i + 1) as nat, table.len() as nat);
        }
        if table[i].0.is_fail() {
            failed = failed + table[i].1;
        }
        if table[i].0.is_success() {
            success = success + table[i].1;
        }
        i = i + 1;
    }
    (failed, success)
}

} // verus!

verus! {

/// The number of runs from which a re-run of many runs is decided for all of
/// them at once rather than run by run.
pub const RERUN_LIST_PROMPT_CUTOFF: usize = 10;

/// What to do about one run that the user asked to re-run.
#[derive(Debug, Clone, PartialEq, Eq)]
pub enum SingleRunDecision {
    /// Re-run the run.
    Rerun(usize),
    /// Ask the user first; the status says why.
    Confirm(RerunStatus),
}

/// Why a re-run was not scheduled.
#[derive(Debug, Clone, PartialEq, Eq)]
pub enum RerunRefusal {
    /// The status of a run could not be found.
    Status(RerunError),
    /// The user cancelled the re-run.
    Cancelled,
}

/// Whether a run of this kind is only re-run once the user confirms.
pub open spec fn needs_confirmation(k: RerunKind) -> bool {
    k == RerunKind::NotFinished || k == RerunKind::FinishedExitZero || k == RerunKind::FinishedSuccessLabel
        || k == RerunKind::RerunAs
}

/// What deciding about run `id` with status `r` gives, once the user has
/// answered (`confirmed`) or before they were asked (`None`).
pub open spec fn single_decided(
    res: Result<SingleRunDecision, RerunRefusal>,
    id: usize,
    r: RerunStatus,
    confirmed: Option<bool>,
) -> bool {
    if kind_of(r) == RerunKind::DoesNotExist {
        res == Err::<SingleRunDecision, RerunRefusal>(RerunRefusal::Status(RerunError::RunDoesNotExist(id)))
    } else if kind_fails(kind_of(r)) {
        res == Ok::<SingleRunDecision, RerunRefusal>(SingleRunDecision::Rerun(id))
    } else {
        match confirmed {
            None => res matches Ok(SingleRunDecision::Confirm(s)) && status_view(s) == status_view(r),
            Some(true) => res == Ok::<SingleRunDecision, RerunRefusal>(SingleRunDecision::Rerun(id)),
            Some(false) => res == Err::<SingleRunDecision, RerunRefusal>(RerunRefusal::Cancelled),
        }
    }
}

proof fn lemma_status_unique(exp: &Experiment, statuses: Seq<Status>, id: usize, a: RerunStatus, b: RerunStatus)
    requires
        is_status_of(exp, statuses, id, a),
        is_status_of(exp, statuses, id, b),
    ensures
        status_view(a) == status_view(b),
        kind_of(a) == kind_of(b),
{
}

/// Decides about one run the user asked to re-run: failed runs are re-run;
/// runs that have not finished, finished well, or were re-run already are
/// re-run only once the user confirms (`confirmed`, `None` before asking);
/// a run that does not exist is refused.
pub fn check_single_run_failed(
    specific_run: usize,
    experiment: &Experiment,
    statuses: &Vec<Status>,
    confirmed: Option<bool>,
) -> (res: Result<SingleRunDecision, RerunRefusal>)
    requires
        statuses_match(experiment, statuses@),
    ensures
        label_missing(experiment, statuses@, specific_run) ==> (res matches Err(RerunRefusal::Status(e)) && e is UnknownLabel),
        !label_missing(experiment, statuses@, specific_run) ==> forall|r: RerunStatus| #[trigger]
            is_status_of(experiment, statuses@, specific_run, r) ==> single_decided(res, specific_run, r, confirmed),
{
    let st = match status_of_single_run(specific_run, statuses, experiment) {
        Ok(s) => s,
        Err(e) => {
            return Err(RerunRefusal::Status(e));
        },
    };
    let ghost s0 = st;
    let res = match st {
        RerunStatus::DoesNotExist => Err(RerunRefusal::Status(RerunError::RunDoesNotExist(specific_run))),
        RerunStatus::FailedExitCode(_) | RerunStatus::FailedErrorLabel(_) => Ok(SingleRunDecision::Rerun(specific_run)),
        other => match confirmed {
            None => Ok(SingleRunDecision::Confirm(other)),
            Some(true) => Ok(SingleRunDecision::Rerun(specific_run)),
            Some(false) => Err(RerunRefusal::Cancelled),
        },
    };
    proof {
        assert forall|r: RerunStatus| #[trigger] is_status_of(experiment, statuses@, specific_run, r) implies single_decided(res, specific_run, r, confirmed) by {
            lemma_status_unique(experiment, statuses@, specific_run, s0, r);
        }
    }
    res
}

/// What the user chose to do about many runs at once.
#[derive(Debug, Clone, Copy, PartialEq, Eq, Structural)]
pub enum MultipleChoice {
    /// Re-run only the failed runs.
    OnlyFailed,
    /// Re-run all of them.
    All,
    /// Re-run none.
    Cancel,
}

/// Whether a list of runs this long is decided run by run (with
/// [`check_single_run_failed`]) rather than all at once.
pub fn decide_run_by_run(len: usize) -> (b: bool)
    ensures
        b == (len < RERUN_LIST_PROMPT_CUTOFF),
{
    len < RERUN_LIST_PROMPT_CUTOFF
}

/// Whether run `id` has a status, and it is a failure.
pub open spec fn failed_run(exp: &Experiment, statuses: Seq<Status>, id: usize) -> bool {
    !label_missing(exp, statuses, id) && exists|r: RerunStatus| #[trigger] is_status_of(exp, statuses, id, r)
        && kind_fails(kind_of(r))
}

/// The runs among the first `n` of `list` that failed, in order.
pub open spec fn failed_upto(exp: &Experiment, statuses: Seq<Status>, list: Seq<usize>, n: nat) -> Seq<usize>
    decreases n,
{
    if n == 0 {
        Seq::empty()
    } else {
        let rest = failed_upto(exp, statuses, list, (n - 1) as nat);
        if failed_run(exp, statuses, list[n - 1]) {
            rest.push(list[n - 1])
        } else {
            rest
        }
    }
}

/// The runs of `list` to re-run once the user chose for all of them at once:
/// only the failed ones, all of them, or none (`Cancelled`).
pub fn check_multiple_runs_failed(
    list: &Vec<usize>,
    experiment: &Experiment,
    statuses: &Vec<Status>,
    choice: MultipleChoice,
) -> (res: Result<Vec<usize>, RerunRefusal>)
    requires
        statuses_match(experiment, statuses@),
    ensures
        choice == MultipleChoice::OnlyFailed ==> (res matches Ok(v) && v@ == failed_upto(
            experiment,
            statuses@,
            list@,
            list.len() as nat,
        )),
        choice == MultipleChoice::All ==> (res matches Ok(v) && v@ == list@),
        choice == MultipleChoice::Cancel ==> res == Err::<Vec<usize>, RerunRefusal>(RerunRefusal::Cancelled),
{
    match choice {
        MultipleChoice::Cancel => Err(RerunRefusal::Cancelled),
        MultipleChoice::All => Ok(crate::plan::clone_usizes(list)),
        MultipleChoice::OnlyFailed => {
            let mut out: Vec<usize> = Vec::new();
            let mut i: usize = 0;
            while i < list.len()
                invariant
                    i <= list.len(),
                    statuses_match(experiment, statuses@),
                    out@ == failed_upto(experiment, statuses@, list@, i as nat),
                decreases list.len() - i,
            {
                let id = list[i];
                match status_of_single_run(id, statuses, experiment) {
                    Ok(s) => {
                        if s.is_fail() {
                            out.push(id);
                        } else {
                            proof {
                                assert forall|r: RerunStatus| #[trigger] is_status_of(experiment, statuses@, id, r) implies !kind_fails(kind_of(r)) by {
                                    lemma_status_unique(experiment, statuses@, id, s, r);
                                }
                            }
                        }
                    },
                    Err(_) => {},
                }
                i = i + 1;
            }
            Ok(out)
        },
    }
}

/// Whether Slurm reports the run with status `s` in state `state`.
pub open spec fn slurm_in(s: Status, state: SlurmState) -> bool {
    s.slurm_status matches Some(x) && x.completion == state
}

/// How many of the first `n` runs of `selected` Slurm reports in state `state`.
pub open spec fn count_slurm_state(selected: Seq<usize>, statuses: Seq<Status>, state: SlurmState, n: nat) -> nat
    decreases n,
{
    if n == 0 {
        0
    } else {
        count_slurm_state(selected, statuses, state, (n - 1) as nat) + if slurm_in(
            statuses[selected[n - 1] as int],
            state,
        ) {
            1nat
        } else {
            0nat
        }
    }
}

proof fn lemma_count_slurm_state_bound(selected: Seq<usize>, statuses: Seq<Status>, state: SlurmState, n: nat)
    ensures
        count_slurm_state(selected, statuses, state, n) <= n,
    decreases n,
{
    if n > 0 {
        lemma_count_slurm_state_bound(selected, statuses, state, (n - 1) as nat);
    }
}

/// The numbers of selected runs that ran out of memory and that ran out of
/// time on Slurm, in that order.
pub fn limit_failures(selected: &Vec<usize>, statuses: &Vec<Status>) -> (r: (usize, usize))
    requires
        forall|k: int| 0 <= k < selected.len() ==> #[trigger] selected@[k] < statuses.len(),
    ensures
        r.0 == count_slurm_state(selected@, statuses@, SlurmState::OutOfMemory, selected.len() as nat),
        r.1 == count_slurm_state(selected@, statuses@, SlurmState::Timeout, selected.len() as nat),
{
    let mut oom: usize = 0;
    let mut oot: usize = 0;
    let mut i: usize = 0;
    while i < selected.len()
        invariant
            i <= selected.len(),
            forall|k: int| 0 <= k < selected.len() ==> #[trigger] selected@[k] < statuses.len(),
            oom == count_slurm_state(selected@, statuses@, SlurmState::OutOfMemory, i as nat),
            oot == count_slurm_state(selected@, statuses@, SlurmState::Timeout, i as nat),
        decreases selected.len() - i,
    {
        proof {
            lemma_count_slurm_state_bound(selected@, statuses@, SlurmState::OutOfMemory, i as nat);
            lemma_count_slurm_state_bound(selected@, statuses@, SlurmState::Timeout, i as nat);
        }
        let id = selected[i];
        match statuses[id].slurm_status {
            Some(s) => match s.completion {
                SlurmState::OutOfMemory => {
                    oom = oom + 1;
                },
                SlurmState::Timeout => {
                    oot = oot + 1;
                },
                _ => {},
            },
            None => {},
        }
        i = i + 1;
    }
    (oom, oot)
}

/// The numbers of failed and of successful runs in `list`.
pub fn failure_summary(list: &Vec<usize>, experiment: &Experiment, statuses: &Vec<Status>) -> (res: Result<(usize, usize), RerunError>)
    requires
        statuses_match(experiment, statuses@),
    ensures
        res is Err <==> exists|k: int| 0 <= k < list.len() && label_missing(experiment, statuses@, #[trigger] list@[k]),
        res matches Ok(p) ==> (exists|m: Seq<(usize, RerunStatus)>| {
            &&& #[trigger] statuses_of_list(experiment, statuses@, list@, m)
            &&& p.0 == count_class(m, KindClass::Failed, m.len())
            &&& p.1 == count_class(m, KindClass::Succeeded, m.len())
        }),
{
    let all = all_run_statuses(list, experiment, statuses)?;
    let table = aggregate_run_statuses(&all);
    let r = success_fails_from_table(&table);
    Ok(r)
}

} // verus!

verus! {

/// Sets the resource limits of the program of run `run_id`; nothing else changes.
pub fn update_program_resource_limits(run_id: usize, experiment: &mut Experiment, new_rss: ResourceLimits)
    requires
        run_id < old(experiment).runs.len(),
        old(experiment).runs@[run_id as int].program < old(experiment).programs.len(),
    ensures
        ({
            let p = old(experiment).runs@[run_id as int].program as int;
            final(experiment).programs@ == old(experiment).programs@.update(
                p,
                crate::model::InternalProgram { limits: new_rss, ..old(experiment).programs@[p] },
            )
        }),
        final(experiment).runs == old(experiment).runs,
        final(experiment).chunks == old(experiment).chunks,
        crate::model::same_setup(*final(experiment), *old(experiment)),
{
    let p = experiment.runs[run_id].program;
    let mut prog = experiment.programs.remove(p);
    prog.limits = new_rss;
    experiment.programs.insert(p, prog);
}

/// Why the runs to re-run were refused.
#[derive(Debug, Clone, PartialEq, Eq)]
pub enum RerunIdsError {
    /// A run by this id does not exist; the experiment's number of runs is attached.
    RunDoesNotExist {
        /// The id asked for.
        id: usize,
        /// The number of runs of the experiment.
        runs: usize,
    },
    /// The run has been re-run already.
    AlreadyRerun(usize),
}

/// Checks the runs the user asked to re-run: each must exist and not have
/// been re-run already. The first offending id, in order, is the error.
pub fn check_rerun_ids(run_ids: &Vec<usize>, experiment: &Experiment) -> (r: Result<(), RerunIdsError>)
    ensures
        r is Ok <==> forall|k: int| 0 <= k < run_ids.len() ==> #[trigger] run_ids@[k] < experiment.runs.len()
            && experiment.runs@[run_ids@[k] as int].rerun is None,
        r matches Err(RerunIdsError::RunDoesNotExist { id, runs }) ==> runs == experiment.runs.len() && exists|k: int|
            0 <= k < run_ids.len() && #[trigger] run_ids@[k] == id && id >= experiment.runs.len() && forall|j: int|
                0 <= j < k ==> #[trigger] run_ids@[j] < experiment.runs.len() && experiment.runs@[run_ids@[j] as int].rerun is None,
        r matches Err(RerunIdsError::AlreadyRerun(id)) ==> exists|k: int|
            0 <= k < run_ids.len() && #[trigger] run_ids@[k] == id && id < experiment.runs.len()
                && experiment.runs@[id as int].rerun is Some && forall|j: int|
                0 <= j < k ==> #[trigger] run_ids@[j] < experiment.runs.len() && experiment.runs@[run_ids@[j] as int].rerun is None,
{
    let mut i: usize = 0;
    while i < run_ids.len()
        invariant
            i <= run_ids.len(),
            forall|j: int| 0 <= j < i ==> #[trigger] run_ids@[j] < experiment.runs.len() && experiment.runs@[run_ids@[j] as int].rerun is None,
        decreases run_ids.len() - i,
    {
        let id = run_ids[i];
        if id >= experiment.runs.len() {
            return Err(RerunIdsError::RunDoesNotExist { id, runs: experiment.runs.len() });
        }
        if experiment.runs[id].rerun.is_some() {
            return Err(RerunIdsError::AlreadyRerun(id));
        }
        i = i + 1;
    }
    Ok(())
}

/// The runs of `list` in increasing order, each once.
pub open spec fn sorted_ids(list: Seq<usize>, n: nat) -> Seq<usize>
    decreases n,
{
    if n == 0 {
        Seq::empty()
    } else if list.contains((n - 1) as usize) {
        sorted_ids(list, (n - 1) as nat).push((n - 1) as usize)
    } else {
        sorted_ids(list, (n - 1) as nat)
    }
}

fn contains_id(list: &Vec<usize>, id: usize) -> (b: bool)
    ensures
        b == list@.contains(id),
{
    let mut i: usize = 0;
    while i < list.len()
        invariant
            i <= list.len(),
            forall|j: int| 0 <= j < i ==> list@[j] != id,
        decreases list.len() - i,
    {
        if list[i] == id {
            return true;
        }
        i = i + 1;
    }
    false
}

/// Whether every run's program is a program of the experiment.
pub open spec fn run_programs_valid(exp: &Experiment) -> bool {
    forall|i: int| 0 <= i < exp.runs.len() ==> #[trigger] exp.runs@[i].program < exp.programs.len()
}

proof fn lemma_sorted_ids_bound(list: Seq<usize>, n: nat)
    requires
        n <= usize::MAX,
    ensures
        forall|k: int| 0 <= k < sorted_ids(list, n).len() ==> #[trigger] sorted_ids(list, n)[k] < n,
    decreases n,
{
    if n > 0 {
        lemma_sorted_ids_bound(list, (n - 1) as nat);
        let prev = sorted_ids(list, (n - 1) as nat);
        assert forall|k: int| 0 <= k < sorted_ids(list, n).len() implies #[trigger] sorted_ids(list, n)[k] < n by {
            if k < prev.len() {
                assert(sorted_ids(list, n)[k] == prev[k]);
            }
        }
    }
}

/// The runs of `list` that are runs of the experiment, in increasing order, each once.
pub fn runs_in_order(list: &Vec<usize>, experiment: &Experiment) -> (r: Vec<usize>)
    ensures
        r@ == sorted_ids(list@, experiment.runs.len() as nat),
{
    let mut r: Vec<usize> = Vec::new();
    let mut id: usize = 0;
    while id < experiment.runs.len()
        invariant
            id <= experiment.runs.len(),
            r@ == sorted_ids(list@, id as nat),
        decreases experiment.runs.len() - id,
    {
        if contains_id(list, id) {
            r.push(id);
        }
        id = id + 1;
    }
    r
}

/// `s` with each run of equal neighbours kept once (as `Vec::dedup`).
pub open spec fn dedup_seq(s: Seq<Seq<char>>) -> Seq<Seq<char>>
    decreases s.len(),
{
    if s.len() <= 1 {
        s
    } else {
        let d = dedup_seq(s.drop_last());
        if s.last() == s[s.len() - 2] {
            d
        } else {
            d.push(s.last())
        }
    }
}

/// The names of the programs of the runs `ids`.
pub open spec fn program_names(exp: &Experiment, ids: Seq<usize>) -> Seq<Seq<char>> {
    ids.map_values(|i: usize| exp.programs@[exp.runs@[i as int].program as int].name@)
}

proof fn lemma_dedup_last(s: Seq<Seq<char>>)
    requires
        s.len() > 0,
    ensures
        dedup_seq(s).len() > 0,
        dedup_seq(s).last() == s.last(),
    decreases s.len(),
{
    if s.len() > 1 {
        lemma_dedup_last(s.drop_last());
    }
}

/// The programs whose limits may be changed before re-running `runs`: the
/// names of the programs of the runs, in the order of the runs' ids, each run
/// of equal neighbours once.
pub fn program_choices(runs: &Vec<usize>, experiment: &Experiment) -> (r: Vec<String>)
    requires
        run_programs_valid(experiment),
    ensures
        r@.map_values(|s: String| s@) == dedup_seq(program_names(experiment, sorted_ids(runs@, experiment.runs.len() as nat))),
{
    let ids = runs_in_order(runs, experiment);
    proof {
        lemma_sorted_ids_bound(runs@, experiment.runs.len() as nat);
    }
    let ghost names = program_names(experiment, ids@);
    let mut r: Vec<String> = Vec::new();
    let mut i: usize = 0;
    while i < ids.len()
        invariant
            i <= ids.len(),
            run_programs_valid(experiment),
            ids@ == sorted_ids(runs@, experiment.runs.len() as nat),
            names == program_names(experiment, ids@),
            forall|k: int| 0 <= k < ids.len() ==> #[trigger] ids@[k] < experiment.runs.len(),
            r@.map_values(|s: String| s@) == dedup_seq(names.take(i as int)),
        decreases ids.len() - i,
    {
        let run = &experiment.runs[ids[i]];
        let name = &experiment.programs[run.program].name;
        let ghost before = r@.map_values(|s: String| s@);
        proof {
            assert(names.take(i + 1).drop_last() =~= names.take(i as int));
            if i > 0 {
                lemma_dedup_last(names.take(i as int));
                assert(names.take(i as int).last() == names[i - 1]);
            }
        }
        if i == 0 || !r[r.len() - 1].eq(name) {
            r.push(name.clone());
            assert(r@.map_values(|s: String| s@) =~= before.push(name@));
        }
        i = i + 1;
    }
    assert(names.take(ids.len() as int) =~= names);
    r
}

} // verus!

verus! {

/// Among the first `n` runs of `ids`, those of a program called `name`, the
/// first one of each such program.
pub open spec fn program_picks(exp: &Experiment, ids: Seq<usize>, name: Seq<char>, n: nat) -> Seq<usize>
    decreases n,
{
    if n == 0 {
        Seq::empty()
    } else {
        let p = program_picks(exp, ids, name, (n - 1) as nat);
        let id = ids[n - 1];
        let prog = exp.runs@[id as int].program;
        if exp.programs@[prog as int].name@ == name && !(exists|k: int| 0 <= k < p.len() && #[trigger] exp.runs@[p[k] as int].program == prog) {
            p.push(id)
        } else {
            p
        }
    }
}

/// The runs whose limits are asked for once the user picked the program
/// called `name`: among `runs` in increasing order, the first run of each
/// program with that name.
pub fn runs_for_program(runs: &Vec<usize>, experiment: &Experiment, name: &String) -> (r: Vec<usize>)
    requires
        run_programs_valid(experiment),
    ensures
        r@ == program_picks(experiment, sorted_ids(runs@, experiment.runs.len() as nat), name@, sorted_ids(
            runs@,
            experiment.runs.len() as nat,
        ).len()),
{
    let ids = runs_in_order(runs, experiment);
    proof {
        lemma_sorted_ids_bound(runs@, experiment.runs.len() as nat);
    }
    let mut r: Vec<usize> = Vec::new();
    let mut progs: Vec<usize> = Vec::new();
    let mut i: usize = 0;
    while i < ids.len()
        invariant
            i <= ids.len(),
            run_programs_valid(experiment),
            ids@ == sorted_ids(runs@, experiment.runs.len() as nat),
            forall|k: int| 0 <= k < ids.len() ==> #[trigger] ids@[k] < experiment.runs.len(),
            r@ == program_picks(experiment, ids@, name@, i as nat),
            progs.len() == r.len(),
            forall|k: int| 0 <= k < r.len() ==> #[trigger] progs@[k] == experiment.runs@[r@[k] as int].program,
            forall|k: int| 0 <= k < r.len() ==> #[trigger] r@[k] < experiment.runs.len(),
        decreases ids.len() - i,
    {
        let id = ids[i];
        let prog = experiment.runs[id].program;
        if experiment.programs[prog].name.eq(name) {
            let mut seen = false;
            let mut k: usize = 0;
            while k < progs.len()
                invariant
                    k <= progs.len(),
                    !seen ==> forall|q: int| 0 <= q < k ==> progs@[q] != prog,
                    seen ==> exists|q: int| 0 <= q < progs.len() && progs@[q] == prog,
                decreases progs.len() - k,
            {
                if progs[k] == prog {
                    seen = true;
                }
                k = k + 1;
            }
            proof {
                if seen {
                    let q = choose|q: int| 0 <= q < progs.len() && progs@[q] == prog;
                    assert(experiment.runs@[r@[q] as int].program == prog);
                } else {
                    assert forall|q: int| 0 <= q < r.len() implies #[trigger] experiment.runs@[r@[q] as int].program != prog by {
                        assert(progs@[q] == experiment.runs@[r@[q] as int].program);
                    }
                }
            }
            if !seen {
                r.push(id);
                progs.push(prog);
            }
        }
        i = i + 1;
    }
    r
}

} // verus!

verus! {

/// How a status is described to the user.
pub open spec fn status_text(s: RerunStatus) -> Seq<char> {
    match s {
        RerunStatus::DoesNotExist => "Does not exist"@,
        RerunStatus::NotFinished => "Not finished"@,
        RerunStatus::FinishedExitZero => "Finished with exit code 0"@,
        RerunStatus::FinishedSuccessLabel(l) => "Finished with label "@ + l@,
        RerunStatus::FailedErrorLabel(l) => "Failed with label "@ + l@,
        RerunStatus::FailedExitCode(c) => "Failed with exit code "@ + crate::text::sdec(c as int),
        RerunStatus::RerunAs(r) => "Rerun as "@ + crate::text::dec(r as nat),
    }
}

impl RerunStatus {
    /// The status as it is shown to the user.
    pub fn describe(&self) -> (s: String)
        ensures
            s@ == status_text(*self),
    {
        match self {
            RerunStatus::DoesNotExist => String::from_str("Does not exist"),
            RerunStatus::NotFinished => String::from_str("Not finished"),
            RerunStatus::FinishedExitZero => String::from_str("Finished with exit code 0"),
            RerunStatus::FinishedSuccessLabel(l) => String::from_str("Finished with label ").concat(l.as_str()),
            RerunStatus::FailedErrorLabel(l) => String::from_str("Failed with label ").concat(l.as_str()),
            RerunStatus::FailedExitCode(c) => String::from_str("Failed with exit code ").concat(
                crate::text::i64_to_dec(*c as i64).as_str(),
            ),
            RerunStatus::RerunAs(r) => String::from_str("Rerun as ").concat(crate::text::u64_to_dec(*r as u64).as_str()),
        }
    }
}

} // verus!

verus! {

proof fn lemma_classes_disjoint(m: Seq<(usize, RerunStatus)>, n: nat)
    ensures
        count_class(m, KindClass::Failed, n) + count_class(m, KindClass::Succeeded, n) <= count_class(m, KindClass::Any, n),
    decreases n,
{
    if n > 0 {
        lemma_classes_disjoint(m, (n - 1) as nat);
    }
}

/// The failed and the successful runs of a summary never outnumber the runs
/// summarised: no run is counted as both.
pub proof fn lemma_summary_within_runs(m: Seq<(usize, RerunStatus)>)
    ensures
        count_class(m, KindClass::Failed, m.len()) + count_class(m, KindClass::Succeeded, m.len()) <= m.len(),
{
    lemma_classes_disjoint(m, m.len());
    lemma_count_any(m, m.len());
}

proof fn lemma_rerunnable_upto_members(exp: &Experiment, statuses: Seq<Status>, ids: Seq<usize>, k: nat)
    requires
        k <= ids.len(),
    ensures
        forall|i: int| #![trigger rerunnable_upto(exp, statuses, ids, k)[i]] 0 <= i < rerunnable_upto(exp, statuses, ids, k).len() ==> rerunnable(
            exp,
            statuses,
            rerunnable_upto(exp, statuses, ids, k)[i],
        ) && exists|j: int| 0 <= j < k && #[trigger] ids[j] == rerunnable_upto(exp, statuses, ids, k)[i],
    decreases k,
{
    if k > 0 {
        lemma_rerunnable_upto_members(exp, statuses, ids, (k - 1) as nat);
        let rest = rerunnable_upto(exp, statuses, ids, (k - 1) as nat);
        let r = rerunnable_upto(exp, statuses, ids, k);
        assert forall|i: int| #![trigger r[i]] 0 <= i < r.len() implies rerunnable(exp, statuses, r[i]) && exists|j: int|
            0 <= j < k && #[trigger] ids[j] == r[i] by {
            if i < rest.len() {
                assert(r[i] == rest[i]);
                assert(rerunnable(exp, statuses, rest[i]));
                let j = choose|j: int| 0 <= j < k - 1 && #[trigger] ids[j] == rest[i];
                assert(ids[j] == r[i]);
            } else {
                assert(r[i] == ids[k - 1]);
            }
        }
    }
}

/// Every run among `ids` that finished, failed and has not been re-run is
/// offered for re-running.
pub proof fn lemma_rerun_every_failed(exp: &Experiment, statuses: Seq<Status>, ids: Seq<usize>, k: nat)
    requires
        k <= ids.len(),
    ensures
        forall|j: int| 0 <= j < k && rerunnable(exp, statuses, #[trigger] ids[j]) ==> rerunnable_upto(exp, statuses, ids, k).contains(ids[j]),
    decreases k,
{
    if k > 0 {
        lemma_rerun_every_failed(exp, statuses, ids, (k - 1) as nat);
        let rest = rerunnable_upto(exp, statuses, ids, (k - 1) as nat);
        let r = rerunnable_upto(exp, statuses, ids, k);
        assert forall|j: int| 0 <= j < k && rerunnable(exp, statuses, #[trigger] ids[j]) implies r.contains(ids[j]) by {
            if j < k - 1 {
                assert(rest.contains(ids[j]));
                let i = choose|i: int| 0 <= i < rest.len() && rest[i] == ids[j];
                assert(r[i] == ids[j]);
            } else {
                assert(r[r.len() - 1] == ids[j]);
            }
        }
    }
}

/// A run offered for re-running has finished, failed, and has not been
/// re-run already; and it is one of the runs asked about.
pub proof fn lemma_rerun_only_failed(exp: &Experiment, statuses: Seq<Status>, ids: Seq<usize>)
    ensures
        forall|i: int| 0 <= i < rerunnable_upto(exp, statuses, ids, ids.len()).len() ==> {
            let id = #[trigger] rerunnable_upto(exp, statuses, ids, ids.len())[i];
            &&& exp.runs@[id as int].rerun is None
            &&& statuses[id as int].completed()
            &&& failed(exp, statuses[id as int])
            &&& ids.contains(id)
        },
{
    lemma_rerunnable_upto_members(exp, statuses, ids, ids.len());
    let r = rerunnable_upto(exp, statuses, ids, ids.len());
    assert forall|i: int| 0 <= i < r.len() implies {
        let id = #[trigger] r[i];
        &&& exp.runs@[id as int].rerun is None
        &&& statuses[id as int].completed()
        &&& failed(exp, statuses[id as int])
        &&& ids.contains(id)
    } by {
        assert(rerunnable(exp, statuses, r[i]));
        let j = choose|j: int| 0 <= j < ids.len() && #[trigger] ids[j] == r[i];
    }
}

} // verus!

verus! {

/// Whether `new` re-runs `orig`: the same program and input, the program's
/// current limits, fresh paths for run `id`, and no re-run of its own.
pub open spec fn reruns(exp: &Experiment, orig: crate::model::Run, new: crate::model::Run, id: nat) -> bool {
    &&& new.program == orig.program
    &&& new.input.file == orig.input.file
    &&& new.input.arguments@ == orig.input.arguments@
    &&& new.generated_from_input == orig.generated_from_input
    &&& new.parent == orig.parent
    &&& new.limits == exp.programs@[orig.program as int].limits
    &&& crate::plan::fresh_run(exp, new, id)
}

/// Whether the `q`-th of the selected runs is not selected again before position `n`.
pub open spec fn last_pick(selected: Seq<usize>, q: int, n: int) -> bool {
    forall|q2: int| q < q2 < n ==> selected[q2] != selected[q]
}

/// Whether run `a` is run `b` with perhaps another re-run.
pub open spec fn same_but_rerun(a: crate::model::Run, b: crate::model::Run) -> bool {
    a == (crate::model::Run { rerun: a.rerun, ..b })
}

/// Re-runs the selected runs, in order: each gets a new run with the same
/// program and input at the end of the experiment, and points to it as its
/// re-run. Nothing else changes.
#[verifier::spinoff_prover]
#[verifier::rlimit(30)]
pub fn rerun_runs(experiment: &mut Experiment, selected: &Vec<usize>)
    requires
        forall|k: int| 0 <= k < selected.len() ==> #[trigger] selected@[k] < old(experiment).runs.len(),
        run_programs_valid(old(experiment)),
        old(experiment).runs.len() + selected.len() <= usize::MAX,
    ensures
        final(experiment).runs.len() == old(experiment).runs.len() + selected.len(),
        final(experiment).programs == old(experiment).programs,
        final(experiment).chunks == old(experiment).chunks,
        crate::model::same_setup(*final(experiment), *old(experiment)),
        forall|k: int| 0 <= k < selected.len() ==> #[trigger] reruns(
            old(experiment),
            old(experiment).runs@[selected@[k] as int],
            final(experiment).runs@[old(experiment).runs.len() + k],
            (old(experiment).runs.len() + k) as nat,
        ),
        forall|k: int| 0 <= k < selected.len() ==> ((#[trigger] final(experiment).runs@[selected@[k] as int]).rerun
            matches Some(j) && old(experiment).runs.len() <= j < final(experiment).runs.len() && final(experiment).runs@[j as int].program
            == old(experiment).runs@[selected@[k] as int].program),
        forall|k: int| 0 <= k < selected.len() && last_pick(selected@, k, selected.len() as int)
            ==> (#[trigger] final(experiment).runs@[selected@[k] as int]).rerun == Some((old(experiment).runs.len() + k) as usize),
        forall|i: int| 0 <= i < old(experiment).runs.len() && !selected@.contains(i as usize) ==> #[trigger] final(experiment).runs@[i]
            == old(experiment).runs@[i],
        forall|i: int| 0 <= i < old(experiment).runs.len() ==> same_but_rerun(#[trigger] final(experiment).runs@[i], old(experiment).runs@[i]),
{
    let ghost start = *experiment;
    let n0 = experiment.runs.len();
    let mut k: usize = 0;
    while k < selected.len()
        invariant
            k <= selected.len(),
            n0 == start.runs.len(),
            n0 + selected.len() <= usize::MAX,
            experiment.runs.len() == n0 + k,
            experiment.programs == start.programs,
            experiment.chunks == start.chunks,
            experiment.seq == start.seq,
            crate::model::same_setup(*experiment, start),
            forall|q: int| 0 <= q < selected.len() ==> #[trigger] selected@[q] < n0,
            run_programs_valid(&start),
            forall|q: int| 0 <= q < k ==> #[trigger] reruns(&start, start.runs@[selected@[q] as int], experiment.runs@[n0 + q], (n0 + q) as nat),
            forall|q: int| 0 <= q < k ==> ((#[trigger] experiment.runs@[selected@[q] as int]).rerun matches Some(j) && n0 <= j < n0 + k
                && experiment.runs@[j as int].program == start.runs@[selected@[q] as int].program),
            forall|q: int| 0 <= q < k && last_pick(selected@, q, k as int) ==> (#[trigger] experiment.runs@[selected@[q] as int]).rerun
                == Some((n0 + q) as usize),
            forall|i: int| 0 <= i < n0 && !selected@.take(k as int).contains(i as usize) ==> #[trigger] experiment.runs@[i] == start.runs@[i],
            forall|i: int| 0 <= i < n0 ==> same_but_rerun(#[trigger] experiment.runs@[i], start.runs@[i]),
        decreases selected.len() - k,
    {
        let id = selected[k];
        let new_id = experiment.runs.len();
        assert(experiment.runs@[id as int].program == start.runs@[id as int].program);
        let program = experiment.runs[id].program;
        assert(program < experiment.programs.len());
        let input = crate::plan::clone_input(&experiment.runs[id].input);
        let from = crate::plan::clone_opt_string(&experiment.runs[id].generated_from_input);
        let limits = experiment.programs[program].limits;
        let parent = experiment.runs[id].parent;
        let run = crate::plan::generate_new_run(new_id, program, input, from, limits, parent, experiment);
        let ghost mid = experiment.runs@;
        experiment.runs.push(run);
        let mut old_run = experiment.runs.remove(id);
        old_run.rerun = Some(new_id);
        experiment.runs.insert(id, old_run);
        proof {
            assert(experiment.runs@ == mid.push(run).update(id as int, old_run));
            assert forall|q: int| 0 <= q < k + 1 implies #[trigger] reruns(&start, start.runs@[selected@[q] as int], experiment.runs@[n0 + q], (n0 + q) as nat) by {
                if q < k {
                    assert(experiment.runs@[n0 + q] == mid[n0 + q]);
                } else {
                    assert(experiment.runs@[n0 + q] == run);
                    assert(mid[id as int].generated_from_input == start.runs@[id as int].generated_from_input);
                    assert(mid[id as int].input == start.runs@[id as int].input);
                    assert(crate::plan::fresh_run(&start, run, new_id as nat));
                }
            }
            assert forall|q: int| 0 <= q < k + 1 implies ((#[trigger] experiment.runs@[selected@[q] as int]).rerun matches Some(j) && n0 <= j < n0 + k + 1
                && experiment.runs@[j as int].program == start.runs@[selected@[q] as int].program) by {
                if selected@[q] == id {
                    assert(experiment.runs@[id as int] == old_run);
                    assert(experiment.runs@[new_id as int] == run);
                } else {
                    assert(experiment.runs@[selected@[q] as int] == mid[selected@[q] as int]);
                    let j = mid[selected@[q] as int].rerun->0;
                    assert(experiment.runs@[j as int] == mid[j as int] || j == id);
                    if j as int == id as int {
                        assert(false);
                    }
                }
            }
            assert forall|q: int| 0 <= q < k + 1 && last_pick(selected@, q, k + 1) implies (#[trigger] experiment.runs@[selected@[q] as int]).rerun
                == Some((n0 + q) as usize) by {
                if q < k {
                    assert(selected@[q] != id);
                    assert(last_pick(selected@, q, k as int));
                    assert(experiment.runs@[selected@[q] as int] == mid[selected@[q] as int]);
                }
            }
            assert forall|i: int| 0 <= i < n0 && !selected@.take(k + 1).contains(i as usize) implies #[trigger] experiment.runs@[i] == start.runs@[i] by {
                assert(selected@.take(k + 1)[k as int] == id);
                if selected@.take(k as int).contains(i as usize) {
                    let j = choose|j: int| 0 <= j < k && selected@.take(k as int)[j] == i as usize;
                    assert(selected@.take(k + 1)[j] == i as usize);
                }
                assert(experiment.runs@[i] == mid[i]);
            }
        }
        k = k + 1;
    }
    assert(selected@.take(selected.len() as int) =~= selected@);
}

} // verus!
