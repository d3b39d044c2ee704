//! Laying out the runs of an experiment.
//!
//! Every program without a predecessor is run on every input; every program
//! listed in another's `next` is run on each output of that other program.
use vstd::prelude::*;

use crate::model::Config;
use crate::model::Environment;
use crate::model::Experiment;
use crate::model::Labels;
use crate::model::Program;
use crate::model::InternalProgram;
use crate::model::ResourceLimits;
use crate::model::Run;
use crate::model::RunInput;
use crate::model::Timestamp;
use crate::text::dec;
use crate::text::u64_to_dec;

verus! {

/// Why the runs of an experiment could not be laid out.
#[derive(Debug, Clone, PartialEq, Eq)]
pub enum PlanError {
    /// The `next` fields of the programs form a circular dependency.
    Cycle,
    /// A `next` field names a program that is not configured.
    UnknownProgram(String),
}

/// `rel` appended to the folder `base`, as `Path::join` does for a relative path.
pub open spec fn path_join(base: Seq<char>, rel: Seq<char>) -> Seq<char> {
    if base.len() == 0 {
        rel
    } else if base.last() == '/' {
        base + rel
    } else {
        base + seq!['/'] + rel
    }
}

/// The path of `leaf` inside the folder of run `run_id` of `program` in experiment `seq`:
/// `{seq}/{program}/{run_id}/{leaf}`.
pub open spec fn run_rel(seq: nat, program: nat, run_id: nat, leaf: Seq<char>) -> Seq<char> {
    dec(seq) + seq!['/'] + dec(program) + seq!['/'] + dec(run_id) + seq!['/'] + leaf
}

/// The file name of the standard error output of a run.
pub open spec fn stderr_leaf() -> Seq<char> {
    seq!['s', 't', 'd', 'e', 'r', 'r']
}

/// The file name of the standard output of a run.
pub open spec fn stdout_leaf() -> Seq<char> {
    seq!['s', 't', 'd', 'o', 'u', 't']
}

/// The file name of the metrics of a run.
pub open spec fn metrics_leaf() -> Seq<char> {
    seq!['m', 'e', 't', 'r', 'i', 'c', 's']
}

/// The input of a run, as plain values.
pub open spec fn input_view(i: RunInput) -> (Option<Seq<char>>, Seq<Seq<char>>) {
    (
        match i.file {
            Some(f) => Some(f@),
            None => None,
        },
        i.arguments@.map_values(|a: String| a@),
    )
}

/// Whether every program's successors are programs of the experiment.
pub open spec fn programs_wf(programs: Seq<InternalProgram>) -> bool {
    forall|p: int, k: int|
        0 <= p < programs.len() && 0 <= k < programs[p].next.len() ==> #[trigger] programs[p].next@[k]
            < programs.len()
}

/// Whether `r` has the paths, limits and bookkeeping that run `run_id` of `program`
/// gets in experiment `exp` when it is created.
pub open spec fn fresh_run(exp: &Experiment, r: Run, run_id: nat) -> bool {
    let out = exp.output_folder@;
    let seq = exp.seq as nat;
    let p = r.program as nat;
    &&& r.err_path@ == path_join(out, run_rel(seq, p, run_id, stderr_leaf()))
    &&& r.output_path@ == path_join(out, run_rel(seq, p, run_id, stdout_leaf()))
    &&& r.metrics_path@ == path_join(exp.metrics_folder@, run_rel(seq, p, run_id, metrics_leaf()))
    &&& r.work_dir@ == path_join(out, run_rel(seq, p, run_id, Seq::empty()))
    &&& (r.afterscript_output_path matches Some(a) ==> a@ == r.work_dir@)
    &&& (r.afterscript_output_path is Some <==> exp.programs[r.program as int].afterscript is Some)
    &&& r.slurm_id is None
    &&& r.rerun is None
}

/// Whether run `i` of `runs` is well formed for `exp`: it belongs to a program
/// of the experiment, and either it was made from an input of the experiment,
/// or it takes the output of an earlier run of a program that lists it as `next`.
pub open spec fn run_wf(exp: &Experiment, runs: Seq<Run>, i: int) -> bool {
    let r = runs[i];
    &&& r.program < exp.programs.len()
    &&& fresh_run(exp, r, i as nat)
    &&& match r.parent {
        None => {
            &&& (r.generated_from_input matches Some(name) && exists|k: int|
                0 <= k < exp.inputs.len() && #[trigger] exp.inputs@[k].0@ == name@ && input_view(
                    r.input,
                ) == input_view(exp.inputs@[k].1))
            &&& r.limits == exp.programs[r.program as int].limits
        },
        Some(p) => {
            &&& 0 <= p < i
            &&& exp.programs[runs[p as int].program as int].next@.contains(r.program)
            &&& input_view(r.input) == (
                Some(runs[p as int].output_path@),
                input_view(runs[p as int].input).1,
            )
            &&& r.limits == runs[p as int].limits
            &&& r.generated_from_input is None
        },
    }
}

/// Whether every run of `runs` is well formed for `exp`.
pub open spec fn runs_wf(exp: &Experiment, runs: Seq<Run>) -> bool {
    forall|i: int| 0 <= i < runs.len() ==> #[trigger] run_wf(exp, runs, i)
}

/// The decimal rendering of a `usize`.
fn usize_to_dec(n: usize) -> (s: String)
    ensures
        s@ == dec(n as nat),
{
    u64_to_dec(n as u64)
}

/// `rel` appended to the folder `base`.
pub fn join_path(base: &str, rel: &str) -> (r: String)
    ensures
        r@ == path_join(base@, rel@),
{
    let mut r = base.to_owned();
    let n = base.unicode_len();
    if n == 0 {
        return rel.to_owned();
    }
    if base.get_char(n - 1) != '/' {
        crate::text::push_char(&mut r, '/');
    }
    r.append(rel);
    r
}

/// The folder of run `run_id` of `program` in experiment `seq`, followed by `leaf`.
pub fn run_relative_path(seq: usize, program: usize, run_id: usize, leaf: &str) -> (r: String)
    ensures
        r@ == run_rel(seq as nat, program as nat, run_id as nat, leaf@),
{
    let mut r = usize_to_dec(seq);
    crate::text::push_char(&mut r, '/');
    r.append(usize_to_dec(program).as_str());
    crate::text::push_char(&mut r, '/');
    r.append(usize_to_dec(run_id).as_str());
    crate::text::push_char(&mut r, '/');
    r.append(leaf);
    r
}

/// A copy of a list of strings.
pub fn clone_strings(v: &Vec<String>) -> (r: Vec<String>)
    ensures
        r@ == v@,
{
    let r = v.clone();
    assert(r@ =~= v@);
    r
}

/// A copy of a list of numbers.
pub fn clone_usizes(v: &Vec<usize>) -> (r: Vec<usize>)
    ensures
        r@ == v@,
{
    let r = v.clone();
    assert(r@ =~= v@);
    r
}

/// A copy of an optional string.
pub fn clone_opt_string(o: &Option<String>) -> (r: Option<String>)
    ensures
        r == *o,
{
    match o {
        Some(s) => Some(s.clone()),
        None => None,
    }
}

/// A copy of a run input.
pub fn clone_input(i: &RunInput) -> (r: RunInput)
    ensures
        r.file == i.file,
        r.arguments@ == i.arguments@,
{
    RunInput { file: clone_opt_string(&i.file), arguments: clone_strings(&i.arguments) }
}

/// Creates run `run_id` of `program` with the given input.
///
/// Its output, error and metrics files and working directory lie in the
/// folder `{seq}/{program}/{run_id}/` of the experiment's output (metrics:
/// metrics) folder; it has an afterscript output folder exactly when the
/// program has an afterscript. Parent and input origin are as given.
pub fn generate_new_run(
    run_id: usize,
    program: usize,
    run_input: RunInput,
    input: Option<String>,
    limits: ResourceLimits,
    parent: Option<usize>,
    experiment: &Experiment,
) -> (r: Run)
    requires
        program < experiment.programs.len(),
    ensures
        fresh_run(experiment, r, run_id as nat),
        r.program == program,
        r.input == run_input,
        r.generated_from_input == input,
        r.limits == limits,
        r.parent == parent,
{
    proof {
        reveal_strlit("stderr");
        reveal_strlit("stdout");
        reveal_strlit("metrics");
        reveal_strlit("");
    }
    let seq = experiment.seq;
    let err_path = join_path(
        experiment.output_folder.as_str(),
        run_relative_path(seq, program, run_id, "stderr").as_str(),
    );
    let metrics_path = join_path(
        experiment.metrics_folder.as_str(),
        run_relative_path(seq, program, run_id, "metrics").as_str(),
    );
    let output_path = join_path(
        experiment.output_folder.as_str(),
        run_relative_path(seq, program, run_id, "stdout").as_str(),
    );
    let work_dir = join_path(
        experiment.output_folder.as_str(),
        run_relative_path(seq, program, run_id, "").as_str(),
    );
    let afterscript_output_path = match &experiment.programs[program].afterscript {
        None => None,
        Some(_) => Some(work_dir.clone()),
    };
    assert(stderr_leaf() =~= "stderr"@);
    assert(stdout_leaf() =~= "stdout"@);
    assert(metrics_leaf() =~= "metrics"@);
    Run {
        program,
        input: run_input,
        err_path,
        metrics_path,
        output_path,
        work_dir,
        afterscript_output_path,
        limits,
        slurm_id: None,
        rerun: None,
        generated_from_input: input,
        parent,
    }
}

/// A step of the search over the program graph.
pub enum Step {
    /// Enter a program; `Some` holds the runs (id and output path) of the
    /// predecessor it was reached from.
    Entry(usize, Option<Vec<(usize, String)>>),
    /// Leave a program.
    Exit(usize),
}

/// The number of programs not yet reached.
pub open spec fn unvisited(v: Seq<usize>) -> nat
    decreases v.len(),
{
    if v.len() == 0 {
        0
    } else {
        unvisited(v.drop_last()) + if v.last() == 0 {
            1nat
        } else {
            0nat
        }
    }
}

proof fn lemma_unvisited_update(v: Seq<usize>, i: int, x: usize)
    requires
        0 <= i < v.len(),
    ensures
        v[i] == 0 && x != 0 ==> unvisited(v.update(i, x)) + 1 == unvisited(v),
        v[i] != 0 && x != 0 ==> unvisited(v.update(i, x)) == unvisited(v),
    decreases v.len(),
{
    if i < v.len() - 1 {
        lemma_unvisited_update(v.drop_last(), i, x);
        assert(v.update(i, x).drop_last() =~= v.drop_last().update(i, x));
    } else {
        assert(v.update(i, x).drop_last() =~= v.drop_last());
    }
}

proof fn lemma_unvisited_same(v1: Seq<usize>, v2: Seq<usize>)
    requires
        v1.len() == v2.len(),
        forall|i: int| 0 <= i < v1.len() ==> (v1[i] == 0 <==> v2[i] == 0),
    ensures
        unvisited(v1) == unvisited(v2),
    decreases v1.len(),
{
    if v1.len() > 0 {
        lemma_unvisited_same(v1.drop_last(), v2.drop_last());
    }
}

proof fn lemma_unvisited_one_more(v1: Seq<usize>, v2: Seq<usize>, s: int)
    requires
        v1.len() == v2.len(),
        0 <= s < v1.len(),
        v1[s] == 0,
        v2[s] != 0,
        forall|i: int| 0 <= i < v1.len() && i != s ==> (v1[i] == 0 <==> v2[i] == 0),
    ensures
        unvisited(v1) == unvisited(v2) + 1,
    decreases v1.len(),
{
    if s < v1.len() - 1 {
        lemma_unvisited_one_more(v1.drop_last(), v2.drop_last(), s);
    } else {
        lemma_unvisited_same(v1.drop_last(), v2.drop_last());
    }
}

proof fn lemma_unvisited_extremes(v: Seq<usize>)
    ensures
        (forall|i: int| 0 <= i < v.len() ==> v[i] == 0) ==> unvisited(v) == v.len(),
        (forall|i: int| 0 <= i < v.len() ==> v[i] != 0) ==> unvisited(v) == 0,
    decreases v.len(),
{
    if v.len() > 0 {
        lemma_unvisited_extremes(v.drop_last());
    }
}

/// Whether a queued step is consistent with the runs made so far: it names a
/// program of the experiment, and the runs it carries are runs of a program
/// that lists the entered program as `next`.
pub open spec fn step_ok(exp: &Experiment, runs: Seq<Run>, s: Step) -> bool {
    match s {
        Step::Entry(n, parents) => {
            &&& n < exp.programs.len()
            &&& parents matches Some(ps) ==> ps.len() == exp.inputs.len()
            &&& parents matches Some(ps) ==> forall|k: int|
                0 <= k < ps.len() ==> {
                    let (id, path) = #[trigger] ps@[k];
                    &&& id < runs.len()
                    &&& runs[id as int].output_path@ == path@
                    &&& exp.programs[runs[id as int].program as int].next@.contains(n)
                }
        },
        Step::Exit(n) => n < exp.programs.len(),
    }
}

/// Whether run `base + k` is a run of program `start` made from input `k`.
pub open spec fn input_run_at(exp: &Experiment, runs: Seq<Run>, base: nat, start: usize, k: int) -> bool {
    &&& runs[base + k].program == start
    &&& runs[base + k].parent is None
    &&& runs[base + k].generated_from_input matches Some(n) && n@ == exp.inputs@[k].0@
}

/// Whether the runs from `base` on begin with one run of `start` per input, in order.
pub open spec fn start_runs(exp: &Experiment, runs: Seq<Run>, base: nat, start: usize) -> bool {
    &&& runs.len() >= base + exp.inputs.len()
    &&& forall|k: int| 0 <= k < exp.inputs.len() ==> #[trigger] input_run_at(exp, runs, base, start, k)
}

/// Whether every run from `base` on past the first `exp.inputs.len()` takes the
/// output of a run from `base` on.
pub open spec fn later_runs_have_new_parents(exp: &Experiment, runs: Seq<Run>, base: nat) -> bool {
    forall|r: int| base + exp.inputs.len() <= r < runs.len() ==> (#[trigger] runs[r].parent matches Some(p) && base <= p)
}

/// Whether the queue holds a pending exit of program `n`.
pub open spec fn exit_pending(queue: Seq<Step>, head: int, n: usize) -> bool {
    exists|k: int| head <= k < queue.len() && (#[trigger] queue[k] matches Step::Exit(m) && m == n)
}

/// How many of `runs` are runs of program `p`.
pub open spec fn count_program(runs: Seq<Run>, p: int) -> nat
    decreases runs.len(),
{
    if runs.len() == 0 {
        0
    } else {
        count_program(runs.drop_last(), p) + if runs.last().program == p {
            1nat
        } else {
            0nat
        }
    }
}

/// The rank of run `i` among the runs of its program: how many runs of that
/// program come before it.
pub open spec fn program_rank(runs: Seq<Run>, i: int) -> nat {
    count_program(runs.take(i), runs[i].program as int)
}

/// Whether run `r` is paired by rank: a run made from an input is, among the
/// runs of its program, at the rank of that input; a run made from another
/// run has the same rank among the runs of its program as that run has among
/// the runs of its own.
pub open spec fn rank_paired(exp: &Experiment, runs: Seq<Run>, r: int) -> bool {
    match runs[r].parent {
        None => {
            &&& program_rank(runs, r) < exp.inputs.len()
            &&& runs[r].generated_from_input matches Some(n) && n@ == exp.inputs@[program_rank(runs, r) as int].0@
        },
        Some(j) => program_rank(runs, j as int) == program_rank(runs, r),
    }
}

proof fn lemma_count_push(s: Seq<Run>, x: Run)
    ensures
        forall|p: int| #[trigger] count_program(s.push(x), p) == count_program(s, p) + if x.program == p {
            1nat
        } else {
            0nat
        },
{
    assert(s.push(x).drop_last() =~= s);
}

proof fn lemma_rank_extends(a: Seq<Run>, b: Seq<Run>, i: int)
    requires
        b.len() >= a.len(),
        b.subrange(0, a.len() as int) == a,
        0 <= i < a.len(),
    ensures
        program_rank(b, i) == program_rank(a, i),
        b[i] == a[i],
{
    assert(b[i] == b.subrange(0, a.len() as int)[i]);
    assert(b.take(i) =~= a.take(i)) by {
        assert forall|t: int| 0 <= t < i implies b.take(i)[t] == a.take(i)[t] by {
            assert(b[t] == b.subrange(0, a.len() as int)[t]);
        }
    }
}

proof fn lemma_paired_extends(exp: &Experiment, a: Seq<Run>, b: Seq<Run>, r: int)
    requires
        b.len() >= a.len(),
        b.subrange(0, a.len() as int) == a,
        0 <= r < a.len(),
        run_wf(exp, a, r),
        rank_paired(exp, a, r),
    ensures
        rank_paired(exp, b, r),
{
    lemma_rank_extends(a, b, r);
    match a[r].parent {
        Some(j) => {
            lemma_rank_extends(a, b, j as int);
        },
        None => {},
    }
}

/// Whether child `j` is the run `base + j`, made from input `j` of the experiment.
pub open spec fn child_of_input(exp: &Experiment, children: Seq<(usize, String)>, runs: Seq<Run>, base: nat, j: int) -> bool {
    &&& children[j].0 == base + j
    &&& runs[base + j].parent is None
    &&& runs[base + j].generated_from_input matches Some(n) && n@ == exp.inputs@[j].0@
}

/// Whether child `j` is the run `base + j`, made from the `j`-th parent run.
pub open spec fn child_of_parent(children: Seq<(usize, String)>, runs: Seq<Run>, parents: Seq<(usize, String)>, base: nat, j: int) -> bool {
    &&& children[j].0 == base + j
    &&& runs[base + j].parent == Some(parents[j].0)
}

/// The runs made from every input of the experiment for program `node`.
fn runs_from_inputs(
    node: usize,
    runs: &mut Vec<Run>,
    exp: &Experiment,
) -> (children: Vec<(usize, String)>)
    requires
        node < exp.programs.len(),
        runs_wf(exp, old(runs)@),
    ensures
        runs_wf(exp, final(runs)@),
        final(runs)@.len() >= old(runs)@.len(),
        final(runs)@.subrange(0, old(runs)@.len() as int) == old(runs)@,
        forall|r: int| old(runs)@.len() <= r < final(runs)@.len() ==> #[trigger] final(runs)@[r].program == node,
        children.len() == exp.inputs.len(),
        forall|k: int|
            0 <= k < children.len() ==> {
                let (id, path) = #[trigger] children@[k];
                &&& id < final(runs)@.len()
                &&& final(runs)@[id as int].output_path@ == path@
                &&& final(runs)@[id as int].program == node
            },
        final(runs)@.len() == old(runs)@.len() + exp.inputs.len(),
        forall|k: int| 0 <= k < exp.inputs.len() ==> #[trigger] child_of_input(exp, children@, final(runs)@, old(runs)@.len(), k),
        forall|p: int| #[trigger] count_program(final(runs)@, p) == count_program(old(runs)@, p) + if p == node as int {
            exp.inputs.len() as nat
        } else {
            0nat
        },
        forall|k: int| 0 <= k < exp.inputs.len() ==> #[trigger] program_rank(final(runs)@, old(runs)@.len() + k) == count_program(old(runs)@, node as int) + k,
{
    let ghost old_runs = runs@;
    let mut children: Vec<(usize, String)> = Vec::new();
    let mut k: usize = 0;
    while k < exp.inputs.len()
        invariant
            children.len() == k,
            k <= exp.inputs.len(),
            node < exp.programs.len(),
            runs_wf(exp, runs@),
            runs@.len() >= old_runs.len(),
            runs@.subrange(0, old_runs.len() as int) == old_runs,
            forall|r: int| old_runs.len() <= r < runs@.len() ==> #[trigger] runs@[r].program == node,
            forall|j: int|
                0 <= j < children.len() ==> {
                    let (id, path) = #[trigger] children@[j];
                    &&& id < runs@.len()
                    &&& runs@[id as int].output_path@ == path@
                    &&& runs@[id as int].program == node
                },
            runs@.len() == old_runs.len() + k,
            forall|j: int| 0 <= j < k ==> #[trigger] child_of_input(exp, children@, runs@, old_runs.len(), j),
            forall|p: int| #[trigger] count_program(runs@, p) == count_program(old_runs, p) + if p == node as int {
                k as nat
            } else {
                0nat
            },
            forall|j: int| 0 <= j < k ==> #[trigger] program_rank(runs@, old_runs.len() + j) == count_program(old_runs, node as int) + j,
        decreases exp.inputs.len() - k,
    {
        let (input_name, input) = &exp.inputs[k];
        let id = runs.len();
        let nm = input_name.clone();
        assert(nm@ == input_name@);
        let child = generate_new_run(
            id,
            node,
            clone_input(input),
            Some(nm),
            exp.programs[node].limits,
            None,
            exp,
        );
        let path = child.output_path.clone();
        let ghost before = runs@;
        runs.push(child);
        proof {
            assert(input_view(runs@[id as int].input) == input_view(exp.inputs@[k as int].1));
            assert(exp.inputs@[k as int].0@ == input_name@);
            assert forall|i: int| 0 <= i < runs@.len() implies #[trigger] run_wf(exp, runs@, i) by {
                if i < before.len() {
                    assert(runs@[i] == before[i]);
                    assert(run_wf(exp, before, i));
                    match runs@[i].parent {
                        Some(p) => {
                            assert(runs@[p as int] == before[p as int]);
                        },
                        None => {},
                    }
                }
            }
            assert(runs@.subrange(0, old_runs.len() as int) =~= before.subrange(0, old_runs.len() as int));
            lemma_count_push(before, runs@[id as int]);
            assert(runs@ == before.push(runs@[id as int]));
            assert(runs@.take(id as int) =~= before);
            assert forall|j: int| 0 <= j < k + 1 implies #[trigger] program_rank(runs@, old_runs.len() + j) == count_program(old_runs, node as int) + j by {
                if j < k {
                    assert(before.subrange(0, before.len() as int) =~= before);
                    lemma_rank_extends(before, runs@, old_runs.len() + j);
                }
            }
        }
        let ghost ch_before = children@;
        children.push((id, path));
        proof {
            assert forall|j: int| 0 <= j < k + 1 implies #[trigger] child_of_input(exp, children@, runs@, old_runs.len(), j) by {
                if j < k {
                    assert(child_of_input(exp, ch_before, before, old_runs.len(), j));
                    assert(children@[j] == ch_before[j]);
                    assert(runs@[old_runs.len() + j] == before[old_runs.len() + j]);
                } else {
                    assert(children@[j].0 == id);
                    assert(runs@[id as int].parent is None);
                    assert(runs@[id as int].generated_from_input == Some(nm));
                }
            }
        }
        k = k + 1;
    }
    assert(k == exp.inputs.len());
    children
}

/// The runs of program `node` made from each output of its predecessor's runs.
fn runs_from_parents(
    node: usize,
    parents: Vec<(usize, String)>,
    runs: &mut Vec<Run>,
    exp: &Experiment,
) -> (children: Vec<(usize, String)>)
    requires
        node < exp.programs.len(),
        runs_wf(exp, old(runs)@),
        forall|k: int|
            0 <= k < parents.len() ==> {
                let (id, path) = #[trigger] parents@[k];
                &&& id < old(runs)@.len()
                &&& old(runs)@[id as int].output_path@ == path@
                &&& exp.programs[old(runs)@[id as int].program as int].next@.contains(node)
            },
    ensures
        runs_wf(exp, final(runs)@),
        final(runs)@.len() >= old(runs)@.len(),
        final(runs)@.subrange(0, old(runs)@.len() as int) == old(runs)@,
        forall|r: int| old(runs)@.len() <= r < final(runs)@.len() ==> #[trigger] final(runs)@[r].program == node,
        forall|k: int|
            0 <= k < children.len() ==> {
                let (id, path) = #[trigger] children@[k];
                &&& id < final(runs)@.len()
                &&& final(runs)@[id as int].output_path@ == path@
                &&& final(runs)@[id as int].program == node
            },
        final(runs)@.len() == old(runs)@.len() + parents.len(),
        children.len() == parents.len(),
        forall|k: int| 0 <= k < children.len() ==> #[trigger] child_of_parent(children@, final(runs)@, parents@, old(runs)@.len(), k),
        forall|p: int| #[trigger] count_program(final(runs)@, p) == count_program(old(runs)@, p) + if p == node as int {
            parents.len() as nat
        } else {
            0nat
        },
        forall|k: int| 0 <= k < parents.len() ==> #[trigger] program_rank(final(runs)@, old(runs)@.len() + k) == count_program(old(runs)@, node as int) + k,
{
    let ghost old_runs = runs@;
    let mut children: Vec<(usize, String)> = Vec::new();
    let mut k: usize = 0;
    while k < parents.len()
        invariant
            node < exp.programs.len(),
            runs_wf(exp, runs@),
            runs@.len() >= old_runs.len(),
            runs@.subrange(0, old_runs.len() as int) == old_runs,
            forall|r: int| old_runs.len() <= r < runs@.len() ==> #[trigger] runs@[r].program == node,
            forall|j: int|
                0 <= j < parents.len() ==> {
                    let (id, path) = #[trigger] parents@[j];
                    &&& id < old_runs.len()
                    &&& old_runs[id as int].output_path@ == path@
                    &&& exp.programs[old_runs[id as int].program as int].next@.contains(node)
                },
            forall|j: int|
                0 <= j < children.len() ==> {
                    let (id, path) = #[trigger] children@[j];
                    &&& id < runs@.len()
                    &&& runs@[id as int].output_path@ == path@
                    &&& runs@[id as int].program == node
                },
            k <= parents.len(),
            children.len() == k,
            runs@.len() == old_runs.len() + k,
            forall|j: int| 0 <= j < children.len() ==> #[trigger] child_of_parent(children@, runs@, parents@, old_runs.len(), j),
            forall|p: int| #[trigger] count_program(runs@, p) == count_program(old_runs, p) + if p == node as int {
                k as nat
            } else {
                0nat
            },
            forall|j: int| 0 <= j < k ==> #[trigger] program_rank(runs@, old_runs.len() + j) == count_program(old_runs, node as int) + j,
        decreases parents.len() - k,
    {
        let pid = parents[k].0;
        let ppath = parents[k].1.clone();
        assert(parents@[k as int].0 == pid);
        assert(old_runs[pid as int] == runs@.subrange(0, old_runs.len() as int)[pid as int]);
        let id = runs.len();
        let child = generate_new_run(
            id,
            node,
            RunInput { file: Some(ppath), arguments: clone_strings(&runs[pid].input.arguments) },
            None,
            runs[pid].limits,
            Some(pid),
            exp,
        );
        let path = child.output_path.clone();
        let ghost before = runs@;
        runs.push(child);
        proof {
            assert(runs@[pid as int] == before[pid as int]);
            assert(input_view(runs@[id as int].input).1 =~= input_view(before[pid as int].input).1);
            assert forall|i: int| 0 <= i < runs@.len() implies #[trigger] run_wf(exp, runs@, i) by {
                if i < before.len() {
                    assert(runs@[i] == before[i]);
                    assert(run_wf(exp, before, i));
                    match runs@[i].parent {
                        Some(p) => {
                            assert(runs@[p as int] == before[p as int]);
                        },
                        None => {},
                    }
                }
            }
            assert(runs@.subrange(0, old_runs.len() as int) =~= before.subrange(0, old_runs.len() as int));
            lemma_count_push(before, runs@[id as int]);
            assert(runs@ == before.push(runs@[id as int]));
            assert(runs@.take(id as int) =~= before);
            assert forall|j: int| 0 <= j < k + 1 implies #[trigger] program_rank(runs@, old_runs.len() + j) == count_program(old_runs, node as int) + j by {
                if j < k {
                    assert(before.subrange(0, before.len() as int) =~= before);
                    lemma_rank_extends(before, runs@, old_runs.len() + j);
                }
            }
        }
        let ghost ch_before = children@;
        children.push((id, path));
        proof {
            assert forall|j: int| 0 <= j < children.len() implies #[trigger] child_of_parent(children@, runs@, parents@, old_runs.len(), j) by {
                if j < k {
                    assert(child_of_parent(ch_before, before, parents@, old_runs.len(), j));
                    assert(children@[j] == ch_before[j]);
                    assert(runs@[old_runs.len() + j] == before[old_runs.len() + j]);
                } else {
                    assert(children@[j].0 == id);
                    assert(runs@[id as int].parent == Some(pid));
                    assert(parents@[k as int].0 == pid);
                }
            }
        }
        k = k + 1;
    }
    children
}

/// Whether program `m` is a `next` of some reached program whose entry number
/// is below `bound`.
pub open spec fn entered_from(programs: Seq<InternalProgram>, vis: Seq<usize>, order: Seq<usize>, m: int, bound: int) -> bool {
    exists|q: int, k: int|
        0 <= q < programs.len() && 0 <= k < programs[q].next.len() && #[trigger] programs[q].next@[k] == m && vis[q] != 0
            && order[q] < bound
}

proof fn lemma_entered_from_grow(programs: Seq<InternalProgram>, vis: Seq<usize>, order: Seq<usize>, vis2: Seq<usize>, order2: Seq<usize>, m: int, b: int, b2: int)
    requires
        entered_from(programs, vis, order, m, b),
        forall|q: int| 0 <= q < programs.len() && vis[q] != 0 ==> vis2[q] != 0 && order2[q] == order[q],
        b <= b2,
    ensures
        entered_from(programs, vis2, order2, m, b2),
{
    let (q, k) = choose|q: int, k: int|
        0 <= q < programs.len() && 0 <= k < programs[q].next.len() && #[trigger] programs[q].next@[k] == m && vis[q] != 0
            && order[q] < b;
    assert(programs[q].next@[k] == m && vis2[q] != 0 && order2[q] < b2);
}

/// Whether `runs` begins with `prefix`.
pub open spec fn extends(runs: Seq<Run>, prefix: Seq<Run>) -> bool {
    runs.len() >= prefix.len() && runs.subrange(0, prefix.len() as int) == prefix
}

proof fn lemma_step_ok_extends(exp: &Experiment, a: Seq<Run>, b: Seq<Run>, s: Step)
    requires
        step_ok(exp, a, s),
        extends(b, a),
    ensures
        step_ok(exp, b, s),
{
    match s {
        Step::Entry(n, parents) => {
            match parents {
                Some(ps) => {
                    assert forall|k: int| 0 <= k < ps.len() implies {
                        let (id, path) = #[trigger] ps@[k];
                        &&& id < b.len()
                        &&& b[id as int].output_path@ == path@
                        &&& exp.programs[b[id as int].program as int].next@.contains(n)
                    } by {
                        let (id, path) = ps@[k];
                        assert(b[id as int] == b.subrange(0, a.len() as int)[id as int]);
                    }
                },
                None => {},
            }
        },
        Step::Exit(_) => {},
    }
}

/// A search from program `start` over the `next` relation of the programs,
/// creating the runs of each program it reaches.
///
/// `visitation` marks programs: 0 not reached, 2 entered, 1 left. Steps are
/// taken in the order they are queued. Entering a program that is entered but
/// not yet left is reported as a cycle; a program already left is skipped.
/// A program entered from `start` gets a run for each input of the experiment;
/// a program entered from another gets a run for each run of that other one,
/// the `k`-th run taking the output of the `k`-th.
///
/// Each program entered gets the number `entered` in `order`, and `entered`
/// counts on.
pub fn dfs(
    visitation: &mut Vec<usize>,
    start: usize,
    runs: &mut Vec<Run>,
    exp: &Experiment,
    order: &mut Vec<usize>,
    entered: &mut usize,
) -> (res: Result<(), PlanError>)
    requires
        old(visitation).len() == exp.programs.len(),
        old(order).len() == exp.programs.len(),
        *old(entered) + unvisited(old(visitation)@) <= usize::MAX,
        start < exp.programs.len(),
        programs_wf(exp.programs@),
        forall|i: int| 0 <= i < old(visitation).len() ==> #[trigger] old(visitation)@[i] <= 2,
        runs_wf(exp, old(runs)@),
    ensures
        final(visitation).len() == exp.programs.len(),
        forall|i: int| 0 <= i < final(visitation).len() ==> #[trigger] final(visitation)@[i] <= 2,
        forall|i: int| 0 <= i < final(visitation).len() && old(visitation)@[i] != 0 ==> #[trigger] final(visitation)@[i] != 0,
        runs_wf(exp, final(runs)@),
        extends(final(runs)@, old(runs)@),
        res is Ok ==> final(visitation)@[start as int] != 0,
        res is Ok && old(visitation)@[start as int] != 2 ==> forall|i: int| 0 <= i < final(visitation).len() && old(visitation)@[i] != 2 ==> #[trigger] final(visitation)@[i] != 2,
        forall|i: int| 0 <= i < final(visitation).len() && old(visitation)@[i] == 0 && #[trigger] final(visitation)@[i] != 0 ==> i == start || has_predecessor(exp.programs@, i),
        forall|r: int| old(runs)@.len() <= r < final(runs)@.len() ==> final(visitation)@[#[trigger] final(runs)@[r].program as int] != 0,
        res is Ok && old(visitation)@[start as int] == 0 && exp.inputs.len() > 0 ==> exists|r: int| 0 <= r < final(runs)@.len() && #[trigger] final(runs)@[r].program == start,
        closed_up(exp.programs@, old(visitation)@) && res is Ok ==> closed_up(exp.programs@, final(visitation)@),
        single_parents(exp.programs@) && !has_predecessor(exp.programs@, start as int) && old(visitation)@[start as int] == 0
            && closed_down(exp.programs@, old(visitation)@) && (forall|i: int| 0 <= i < old(visitation)@.len() ==> old(visitation)@[i] != 2)
            ==> res is Ok && closed_down(exp.programs@, final(visitation)@),
        final(runs)@.len() + exp.inputs.len() * unvisited(final(visitation)@) == old(runs)@.len() + exp.inputs.len() * unvisited(
            old(visitation)@,
        ),
        res is Ok && old(visitation)@[start as int] == 0 ==> start_runs(exp, final(runs)@, old(runs)@.len() as nat, start),
        old(visitation)@[start as int] == 0 ==> later_runs_have_new_parents(exp, final(runs)@, old(runs)@.len() as nat),
        final(order).len() == exp.programs.len(),
        forall|c: int| 0 <= c < exp.programs.len() && old(visitation)@[c] != 0 ==> #[trigger] final(order)@[c] == old(order)@[c],
        *final(entered) + unvisited(final(visitation)@) == *old(entered) + unvisited(old(visitation)@),
        forall|c: int|
            0 <= c < exp.programs.len() && old(visitation)@[c] == 0 && #[trigger] final(visitation)@[c] != 0 && c != start
                ==> entered_from(exp.programs@, final(visitation)@, final(order)@, c, final(order)@[c] as int),
        forall|p: int| 0 <= p < exp.programs.len() ==> #[trigger] count_program(final(runs)@, p) == count_program(old(runs)@, p) + if old(visitation)@[p] == 0 && final(visitation)@[p] != 0 {
            exp.inputs.len() as nat
        } else {
            0nat
        },
        (forall|p: int| 0 <= p < exp.programs.len() && old(visitation)@[p] == 0 ==> #[trigger] count_program(old(runs)@, p) == 0)
            ==> forall|r: int| old(runs)@.len() <= r < final(runs)@.len() ==> #[trigger] rank_paired(exp, final(runs)@, r),
{
    let ghost old_runs = runs@;
    let ghost old_vis = visitation@;
    let ghost old_order = order@;
    let ghost old_entered = *entered;
    let ghost fresh = forall|p: int| 0 <= p < exp.programs.len() && old_vis[p] == 0 ==> #[trigger] count_program(old_runs, p) == 0;
    let ghost up = closed_up(exp.programs@, old_vis);
    let ghost h = single_parents(exp.programs@) && !has_predecessor(exp.programs@, start as int) && old_vis[start as int] == 0
        && closed_down(exp.programs@, old_vis) && (forall|i: int| 0 <= i < old_vis.len() ==> old_vis[i] != 2);
    let mut next: std::collections::VecDeque<Step> = std::collections::VecDeque::new();
    next.push_back(Step::Entry(start, None));
    let ghost mut started = false;
    assert(runs@.subrange(0, runs@.len() as int) =~= runs@);
    proof {
        assert(next@ =~= seq![Step::Entry(start, None)]);
        if up {
            lemma_up_init(exp.programs@, visitation@, next@);
        }
        if h {
            lemma_tree_init(exp.programs@, visitation@, start);
        }
    }
    loop
        invariant
            up == closed_up(exp.programs@, old_vis),
            runs@.len() + exp.inputs.len() * unvisited(visitation@) == old_runs.len() + exp.inputs.len() * unvisited(old_vis),
            !started ==> runs@ == old_runs,
            started && old_vis[start as int] == 0 ==> start_runs(exp, runs@, old_runs.len() as nat, start),
            old_vis[start as int] == 0 ==> later_runs_have_new_parents(exp, runs@, old_runs.len() as nat),
            started ==> forall|k: int| 0 <= k < next@.len() ==> (#[trigger] next@[k] matches Step::Entry(_, p) ==> p is Some),
            forall|k: int| 0 <= k < next@.len() ==> (#[trigger] next@[k] matches Step::Entry(_, Some(ps)) ==> forall|j: int| 0 <= j < ps.len() ==> old_runs.len() <= (#[trigger] ps@[j]).0),
            h == (single_parents(exp.programs@) && !has_predecessor(exp.programs@, start as int) && old_vis[start as int] == 0
                && closed_down(exp.programs@, old_vis) && (forall|i: int| 0 <= i < old_vis.len() ==> old_vis[i] != 2)),
            up ==> up_inv(exp.programs@, visitation@, next@),
            h ==> tree_inv(exp.programs@, visitation@, next@),
            old_vis == old(visitation)@,
            old_runs == old(runs)@,
            visitation.len() == exp.programs.len(),
            start < exp.programs.len(),
            programs_wf(exp.programs@),
            forall|i: int| 0 <= i < visitation.len() ==> #[trigger] visitation@[i] <= 2,
            forall|i: int| 0 <= i < visitation.len() && old_vis[i] != 0 ==> #[trigger] visitation@[i] != 0,
            runs_wf(exp, runs@),
            extends(runs@, old_runs),
            forall|k: int| 0 <= k < next@.len() ==> #[trigger] step_ok(exp, runs@, next@[k]),
            old_vis[start as int] != 2 ==> forall|i: int|
                0 <= i < visitation.len() && old_vis[i] != 2 && #[trigger] visitation@[i] == 2 ==> exit_pending(next@, 0, i as usize),
            !started ==> next@ =~= seq![Step::Entry(start, None)] && visitation@ == old_vis,
            started ==> visitation@[start as int] != 0,
            forall|k: int| 0 <= k < next@.len() ==> (#[trigger] next@[k] matches Step::Entry(m, _) ==> m == start || has_predecessor(exp.programs@, m as int)),
            forall|k: int| 0 <= k < next@.len() ==> (#[trigger] next@[k] matches Step::Exit(m) ==> visitation@[m as int] != 0),
            forall|i: int| 0 <= i < visitation.len() && old_vis[i] == 0 && #[trigger] visitation@[i] != 0 ==> i == start || has_predecessor(exp.programs@, i),
            forall|r: int| old_runs.len() <= r < runs@.len() ==> visitation@[#[trigger] runs@[r].program as int] != 0,
            started && old_vis[start as int] == 0 && exp.inputs.len() > 0 ==> exists|r: int| 0 <= r < runs@.len() && #[trigger] runs@[r].program == start,
            order.len() == exp.programs.len(),
            old_order == old(order)@,
            old_entered == *old(entered),
            forall|c: int| 0 <= c < exp.programs.len() && old_vis[c] != 0 ==> #[trigger] order@[c] == old_order[c],
            *entered + unvisited(visitation@) == old_entered + unvisited(old_vis),
            old_entered + unvisited(old_vis) <= usize::MAX,
            forall|c: int|
                0 <= c < exp.programs.len() && old_vis[c] == 0 && #[trigger] visitation@[c] != 0 && c != start
                    ==> entered_from(exp.programs@, visitation@, order@, c, order@[c] as int),
            forall|k: int| 0 <= k < next@.len() ==> (#[trigger] next@[k] matches Step::Entry(m, _) ==> m == start || entered_from(exp.programs@, visitation@, order@, m as int, *entered as int)),
            forall|p: int| 0 <= p < exp.programs.len() ==> #[trigger] count_program(runs@, p) == count_program(old_runs, p) + if old_vis[p] == 0 && visitation@[p] != 0 {
                exp.inputs.len() as nat
            } else {
                0nat
            },
            fresh == (forall|p: int| 0 <= p < exp.programs.len() && old_vis[p] == 0 ==> #[trigger] count_program(old_runs, p) == 0),
            fresh ==> forall|r: int| old_runs.len() <= r < runs@.len() ==> #[trigger] rank_paired(exp, runs@, r),
            fresh ==> forall|k: int| 0 <= k < next@.len() ==> (#[trigger] next@[k] matches Step::Entry(_, Some(ps)) ==> forall|j: int| 0 <= j < ps.len() ==> #[trigger] program_rank(runs@, ps@[j].0 as int) == j),
        ensures
            runs@.len() + exp.inputs.len() * unvisited(visitation@) == old_runs.len() + exp.inputs.len() * unvisited(old_vis),
            old_vis[start as int] == 0 ==> start_runs(exp, runs@, old_runs.len() as nat, start),
            old_vis[start as int] == 0 ==> later_runs_have_new_parents(exp, runs@, old_runs.len() as nat),
            up ==> closed_up(exp.programs@, visitation@),
            h ==> closed_down(exp.programs@, visitation@),
            forall|i: int| 0 <= i < visitation.len() && old_vis[i] == 0 && #[trigger] visitation@[i] != 0 ==> i == start || has_predecessor(exp.programs@, i),
            forall|r: int| old_runs.len() <= r < runs@.len() ==> visitation@[#[trigger] runs@[r].program as int] != 0,
            old_vis[start as int] == 0 && exp.inputs.len() > 0 ==> exists|r: int| 0 <= r < runs@.len() && #[trigger] runs@[r].program == start,
            visitation.len() == exp.programs.len(),
            forall|i: int| 0 <= i < visitation.len() ==> #[trigger] visitation@[i] <= 2,
            forall|i: int| 0 <= i < visitation.len() && old_vis[i] != 0 ==> #[trigger] visitation@[i] != 0,
            runs_wf(exp, runs@),
            extends(runs@, old_runs),
            visitation@[start as int] != 0,
            old_vis[start as int] != 2 ==> forall|i: int|
                0 <= i < visitation.len() && old_vis[i] != 2 ==> #[trigger] visitation@[i] != 2,
            order.len() == exp.programs.len(),
            forall|c: int| 0 <= c < exp.programs.len() && old_vis[c] != 0 ==> #[trigger] order@[c] == old_order[c],
            *entered + unvisited(visitation@) == old_entered + unvisited(old_vis),
            forall|c: int|
                0 <= c < exp.programs.len() && old_vis[c] == 0 && #[trigger] visitation@[c] != 0 && c != start
                    ==> entered_from(exp.programs@, visitation@, order@, c, order@[c] as int),
            forall|p: int| 0 <= p < exp.programs.len() ==> #[trigger] count_program(runs@, p) == count_program(old_runs, p) + if old_vis[p] == 0 && visitation@[p] != 0 {
                exp.inputs.len() as nat
            } else {
                0nat
            },
            fresh ==> forall|r: int| old_runs.len() <= r < runs@.len() ==> #[trigger] rank_paired(exp, runs@, r),
        decreases unvisited(visitation@), next@.len(),
    {
        let ghost before_vis = visitation@;
        let ghost before_q = next@;
        let ghost was_started = started;
        match next.pop_front() {
            None => {
                proof {
                    if up {
                        lemma_up_done(exp.programs@, visitation@, next@);
                    }
                    if h {
                        lemma_tree_done(exp.programs@, visitation@, next@);
                    }
                    assert(started);
                    if old_vis[start as int] != 2 {
                        assert forall|i: int|
                            0 <= i < visitation.len() && old_vis[i] != 2 implies #[trigger] visitation@[i] != 2 by {
                            if visitation@[i] == 2 {
                                assert(exit_pending(next@, 0, i as usize));
                            }
                        }
                    }
                }
                break;
            },
            Some(step) => {
                proof {
                    assert(next@ =~= before_q.drop_first());
                    assert forall|k: int| 0 <= k < next@.len() implies #[trigger] step_ok(exp, runs@, next@[k]) by {
                        assert(next@[k] == before_q[k + 1]);
                    }
                    assert forall|k: int| 0 <= k < next@.len() implies (#[trigger] next@[k] matches Step::Entry(m, _) ==> m == start || has_predecessor(exp.programs@, m as int)) by {
                        assert(next@[k] == before_q[k + 1]);
                    }
                    assert forall|k: int| 0 <= k < next@.len() implies (#[trigger] next@[k] matches Step::Exit(m) ==> visitation@[m as int] != 0) by {
                        assert(next@[k] == before_q[k + 1]);
                    }
                    assert(step_ok(exp, runs@, before_q[0]));
                    assert(before_q[0] matches Step::Entry(m, _) ==> m == start || has_predecessor(exp.programs@, m as int));
                    assert(before_q[0] matches Step::Exit(m) ==> visitation@[m as int] != 0);
                    assert(step == before_q[0]);
                    assert(!was_started ==> next@.len() == 0 && step == Step::Entry(start, None));
                    assert(was_started ==> (before_q[0] matches Step::Entry(_, p) ==> p is Some));
                    assert(before_q[0] matches Step::Entry(_, Some(ps)) ==> forall|j: int| 0 <= j < ps.len() ==> old_runs.len() <= (#[trigger] ps@[j]).0);
                    assert forall|k: int| 0 <= k < next@.len() implies (#[trigger] next@[k] matches Step::Entry(_, Some(ps)) ==> forall|j: int| 0 <= j < ps.len() ==> old_runs.len() <= (#[trigger] ps@[j]).0) by {
                        assert(next@[k] == before_q[k + 1]);
                    }
                    assert forall|k: int| 0 <= k < next@.len() implies (#[trigger] next@[k] matches Step::Entry(_, p) ==> p is Some) by {
                        assert(next@[k] == before_q[k + 1]);
                    }
                    assert forall|k: int| 0 <= k < next@.len() implies (#[trigger] next@[k] matches Step::Entry(m, _) ==> m == start || entered_from(exp.programs@, visitation@, order@, m as int, *entered as int)) by {
                        assert(next@[k] == before_q[k + 1]);
                    }
                    if fresh {
                        assert forall|k: int| 0 <= k < next@.len() implies (#[trigger] next@[k] matches Step::Entry(_, Some(ps)) ==> forall|j: int| 0 <= j < ps.len() ==> #[trigger] program_rank(runs@, ps@[j].0 as int) == j) by {
                            assert(next@[k] == before_q[k + 1]);
                        }
                    }
                    assert(before_q[0] matches Step::Entry(m, _) ==> m == start || entered_from(exp.programs@, visitation@, order@, m as int, *entered as int));
                    assert(fresh ==> (before_q[0] matches Step::Entry(_, Some(ps)) ==> forall|j: int| 0 <= j < ps.len() ==> #[trigger] program_rank(runs@, ps@[j].0 as int) == j));
                }
                match step {
                    Step::Entry(node, parent) => {
                        proof {
                            assert(entry_at(before_q, 0, node));
                            if h {
                                lemma_tree_head(exp.programs@, before_vis, before_q, node);
                            }
                        }
                        if visitation[node] == 2 {
                            return Err(PlanError::Cycle);
                        }
                        if visitation[node] == 1 {
                            proof {
                                if up {
                                    lemma_up_pop(exp.programs@, before_vis, visitation@, before_q);
                                }
                                assert(!was_started ==> old_vis[start as int] == 1);
                                started = true;
                                if old_vis[start as int] != 2 {
                                    assert forall|i: int|
                                        0 <= i < visitation.len() && old_vis[i] != 2 && #[trigger] visitation@[i] == 2 implies exit_pending(next@, 0, i as usize) by {
                                        assert(exit_pending(before_q, 0, i as usize));
                                        let k = choose|k: int| 0 <= k < before_q.len() && (#[trigger] before_q[k] matches Step::Exit(m) && m == i as usize);
                                        assert(k != 0);
                                        assert(next@[k - 1] == before_q[k]);
                                    }
                                }
                            }
                            continue;
                        }
                        proof {
                            lemma_unvisited_update(visitation@, node as int, 2);
                        }
                        visitation.set(node, 2);
                        let ghost order_before = order@;
                        let ghost entered_before = *entered;
                        proof {
                            assert(unvisited(visitation@) + 1 == unvisited(before_vis));
                        }
                        order.set(node, *entered);
                        *entered = *entered + 1;
                        let ghost runs_before = runs@;
                        let children = match parent {
                            None => {
                                let c = runs_from_inputs(node, runs, exp);
                                proof {
                                    assert(!was_started);
                                    assert(runs_before == old_runs);
                                    assert(node == start);
                                    assert forall|j: int| 0 <= j < c.len() implies (#[trigger] c@[j]).0 == runs_before.len() + j by {
                                        assert(child_of_input(exp, c@, runs@, runs_before.len(), j));
                                    }
                                    assert forall|k: int| 0 <= k < exp.inputs.len() implies #[trigger] input_run_at(exp, runs@, old_runs.len() as nat, start, k) by {
                                        assert(child_of_input(exp, c@, runs@, runs_before.len(), k));
                                    }
                                    assert(start_runs(exp, runs@, old_runs.len() as nat, start));
                                    if fresh {
                                        assert(count_program(runs_before, node as int) == 0);
                                        assert forall|k: int| 0 <= k < c.len() implies #[trigger] program_rank(runs@, c@[k].0 as int) == k by {
                                            assert(child_of_input(exp, c@, runs@, runs_before.len(), k));
                                            assert(program_rank(runs@, runs_before.len() + k) == count_program(runs_before, node as int) + k);
                                        }
                                        assert forall|k: int| 0 <= k < exp.inputs.len() implies #[trigger] rank_paired(exp, runs@, runs_before.len() + k) by {
                                            assert(child_of_input(exp, c@, runs@, runs_before.len(), k));
                                            assert(program_rank(runs@, runs_before.len() + k) == count_program(runs_before, node as int) + k);
                                        }
                                    }
                                }
                                c
                            },
                            Some(pchildren) => {
                                proof {
                                    assert(pchildren.len() == exp.inputs.len());
                                    assert(forall|j: int| 0 <= j < pchildren.len() ==> old_runs.len() <= (#[trigger] pchildren@[j]).0);
                                }
                                let ghost ps = pchildren@;
                                proof {
                                    assert(before_q[0] == Step::Entry(node, Some(pchildren)));
                                    assert(fresh ==> forall|j: int| 0 <= j < ps.len() ==> #[trigger] program_rank(runs_before, ps[j].0 as int) == j);
                                    assert(step_ok(exp, runs_before, before_q[0]));
                                }
                                let c = runs_from_parents(node, pchildren, runs, exp);
                                proof {
                                    if fresh {
                                        assert(old_vis[node as int] == 0);
                                        assert(count_program(runs_before, node as int) == 0);
                                        assert forall|k: int| 0 <= k < c.len() implies #[trigger] program_rank(runs@, c@[k].0 as int) == k by {
                                            assert(child_of_parent(c@, runs@, ps, runs_before.len(), k));
                                            assert(program_rank(runs@, runs_before.len() + k) == count_program(runs_before, node as int) + k);
                                        }
                                        assert forall|k: int| 0 <= k < ps.len() implies #[trigger] rank_paired(exp, runs@, runs_before.len() + k) by {
                                            assert(child_of_parent(c@, runs@, ps, runs_before.len(), k));
                                            assert(program_rank(runs@, runs_before.len() + k) == count_program(runs_before, node as int) + k);
                                            let (pid, pp) = ps[k];
                                            assert(pid < runs_before.len());
                                            assert(runs_before.subrange(0, runs_before.len() as int) =~= runs_before);
                                            lemma_rank_extends(runs_before, runs@, pid as int);
                                            assert(program_rank(runs_before, ps[k].0 as int) == k);
                                        }
                                    }
                                    assert forall|j: int| 0 <= j < c.len() implies (#[trigger] c@[j]).0 == runs_before.len() + j by {
                                        assert(child_of_parent(c@, runs@, ps, runs_before.len(), j));
                                    }
                                    if old_vis[start as int] == 0 {
                                        assert(was_started);
                                        assert(start_runs(exp, runs_before, old_runs.len() as nat, start));
                                        assert forall|k: int| 0 <= k < exp.inputs.len() implies #[trigger] input_run_at(exp, runs@, old_runs.len() as nat, start, k) by {
                                            assert(input_run_at(exp, runs_before, old_runs.len() as nat, start, k));
                                            assert(runs@[old_runs.len() + k] == runs@.subrange(0, runs_before.len() as int)[old_runs.len() + k]);
                                        }
                                        assert(start_runs(exp, runs@, old_runs.len() as nat, start));
                                        assert forall|r: int| old_runs.len() + exp.inputs.len() <= r < runs@.len() implies (#[trigger] runs@[r].parent matches Some(p) && old_runs.len() <= p) by {
                                            if r < runs_before.len() {
                                                assert(runs@[r] == runs@.subrange(0, runs_before.len() as int)[r]);
                                                assert(runs_before[r].parent matches Some(p) && old_runs.len() <= p);
                                            } else {
                                                let j = r - runs_before.len();
                                                assert(child_of_parent(c@, runs@, ps, runs_before.len(), j));
                                                assert(old_runs.len() <= ps[j].0);
                                            }
                                        }
                                    }
                                }
                                c
                            },
                        };
                        proof {
                            assert(children.len() == exp.inputs.len());
                            assert(runs@.len() == runs_before.len() + exp.inputs.len());
                            assert(forall|j: int| 0 <= j < children.len() ==> old_runs.len() <= (#[trigger] children@[j]).0);
                            let u_after = unvisited(visitation@);
                            let u_before = unvisited(before_vis);
                            let n_in = exp.inputs.len() as int;
                            assert(u_after + 1 == u_before);
                            assert(n_in * u_before == n_in * u_after + n_in) by (nonlinear_arith)
                                requires
                                    u_after + 1 == u_before,
                            ;
                            assert(extends(runs@, runs_before));
                            assert(runs@.subrange(0, old_runs.len() as int) =~= runs_before.subrange(0, old_runs.len() as int));
                            assert forall|k: int| 0 <= k < next@.len() implies #[trigger] step_ok(exp, runs@, next@[k]) by {
                                lemma_step_ok_extends(exp, runs_before, runs@, next@[k]);
                            }
                            assert(old_vis[node as int] == 0);
                            assert forall|p: int| 0 <= p < exp.programs.len() implies #[trigger] count_program(runs@, p) == count_program(old_runs, p) + if old_vis[p] == 0 && visitation@[p] != 0 {
                                exp.inputs.len() as nat
                            } else {
                                0nat
                            } by {
                                assert(count_program(runs_before, p) == count_program(old_runs, p) + if old_vis[p] == 0 && before_vis[p] != 0 {
                                    exp.inputs.len() as nat
                                } else {
                                    0nat
                                });
                            }
                            if fresh {
                                assert forall|r: int| old_runs.len() <= r < runs@.len() implies #[trigger] rank_paired(exp, runs@, r) by {
                                    if r < runs_before.len() {
                                        assert(rank_paired(exp, runs_before, r));
                                        assert(run_wf(exp, runs_before, r));
                                        lemma_paired_extends(exp, runs_before, runs@, r);
                                    } else {
                                        let k = r - runs_before.len();
                                        assert(rank_paired(exp, runs@, runs_before.len() + k));
                                    }
                                }
                                assert forall|k: int| 0 <= k < next@.len() implies (#[trigger] next@[k] matches Step::Entry(_, Some(ps)) ==> forall|j: int| 0 <= j < ps.len() ==> #[trigger] program_rank(runs@, ps@[j].0 as int) == j) by {
                                    match next@[k] {
                                        Step::Entry(_, Some(ps)) => {
                                            assert(step_ok(exp, runs_before, next@[k]));
                                            assert forall|j: int| 0 <= j < ps.len() implies #[trigger] program_rank(runs@, ps@[j].0 as int) == j by {
                                                assert(program_rank(runs_before, ps@[j].0 as int) == j);
                                                let (pid, pp) = ps@[j];
                                                assert(pid < runs_before.len());
                                                lemma_rank_extends(runs_before, runs@, pid as int);
                                            }
                                        },
                                        _ => {},
                                    }
                                }
                            }
                            assert forall|q: int| 0 <= q < exp.programs.len() && before_vis[q] != 0 implies visitation@[q] != 0 && order@[q] == order_before[q] by {}
                            assert forall|c: int|
                                0 <= c < exp.programs.len() && old_vis[c] == 0 && #[trigger] visitation@[c] != 0 && c != start
                                    implies entered_from(exp.programs@, visitation@, order@, c, order@[c] as int) by {
                                if c == node as int {
                                    assert(entered_from(exp.programs@, before_vis, order_before, c, entered_before as int));
                                    lemma_entered_from_grow(exp.programs@, before_vis, order_before, visitation@, order@, c, entered_before as int, order@[c] as int);
                                } else {
                                    assert(before_vis[c] != 0);
                                    lemma_entered_from_grow(exp.programs@, before_vis, order_before, visitation@, order@, c, order_before[c] as int, order@[c] as int);
                                }
                            }
                            assert forall|k: int| 0 <= k < next@.len() implies (#[trigger] next@[k] matches Step::Entry(m, _) ==> m == start || entered_from(exp.programs@, visitation@, order@, m as int, *entered as int)) by {
                                match next@[k] {
                                    Step::Entry(m, _) => {
                                        if m != start {
                                            lemma_entered_from_grow(exp.programs@, before_vis, order_before, visitation@, order@, m as int, entered_before as int, *entered as int);
                                        }
                                    },
                                    _ => {},
                                }
                            }
                        }
                        proof {
                            assert forall|k: int| 0 <= k < next@.len() implies (#[trigger] next@[k] matches Step::Exit(m) ==> visitation@[m as int] != 0) by {
                                assert(step_ok(exp, runs@, next@[k]));
                            }
                            assert forall|r: int| old_runs.len() <= r < runs@.len() implies visitation@[#[trigger] runs@[r].program as int] != 0 by {
                                if r < runs_before.len() {
                                    assert(runs@[r] == runs@.subrange(0, runs_before.len() as int)[r]);
                                    assert(runs@[r] == runs_before[r]);
                                    assert(run_wf(exp, runs_before, r));
                                    assert(before_vis[runs_before[r].program as int] != 0);
                                    assert(visitation@ == before_vis.update(node as int, 2));
                                    assert(visitation@[runs_before[r].program as int] != 0);
                                } else {
                                    assert(runs@[r].program == node);
                                    assert(visitation@[node as int] == 2);
                                }
                            }
                            if old_vis[start as int] == 0 && exp.inputs.len() > 0 {
                                if was_started {
                                    let w = choose|w: int| 0 <= w < runs_before.len() && #[trigger] runs_before[w].program == start;
                                    assert(runs@[w] == runs@.subrange(0, runs_before.len() as int)[w]);
                                } else {
                                    assert(children@[0].0 < runs@.len());
                                    assert(runs@[children@[0].0 as int].program == start);
                                }
                            }
                        }
                        let mut j: usize = 0;
                        let ghost q0 = next@;
                        while j < exp.programs[node].next.len()
                            invariant
                                order.len() == exp.programs.len(),
                                visitation@[node as int] != 0,
                                order@[node as int] < *entered,
                                forall|k: int| 0 <= k < next@.len() ==> (#[trigger] next@[k] matches Step::Entry(m, _) ==> m == start || entered_from(exp.programs@, visitation@, order@, m as int, *entered as int)),
                                fresh ==> forall|k: int| 0 <= k < next@.len() ==> (#[trigger] next@[k] matches Step::Entry(_, Some(ps)) ==> forall|j3: int| 0 <= j3 < ps.len() ==> #[trigger] program_rank(runs@, ps@[j3].0 as int) == j3),
                                fresh ==> forall|j2: int| 0 <= j2 < children.len() ==> #[trigger] program_rank(runs@, children@[j2].0 as int) == j2,
                                children.len() == exp.inputs.len(),
                                forall|j2: int| 0 <= j2 < children.len() ==> old_runs.len() <= (#[trigger] children@[j2]).0,
                                forall|k: int| 0 <= k < next@.len() ==> (#[trigger] next@[k] matches Step::Entry(_, p) ==> p is Some),
                                forall|k: int| 0 <= k < next@.len() ==> (#[trigger] next@[k] matches Step::Entry(_, Some(ps)) ==> forall|j3: int| 0 <= j3 < ps.len() ==> old_runs.len() <= (#[trigger] ps@[j3]).0),
                                visitation.len() == exp.programs.len(),
                                node < exp.programs.len(),
                                programs_wf(exp.programs@),
                                j <= exp.programs[node as int].next.len(),
                                next@.len() == q0.len() + j,
                                forall|k: int| 0 <= k < q0.len() ==> next@[k] == q0[k],
                                forall|j2: int| 0 <= j2 < j ==> entry_at(next@, q0.len() + j2, #[trigger] exp.programs[node as int].next@[j2]),
                                forall|k: int| 0 <= k < next@.len() ==> #[trigger] step_ok(exp, runs@, next@[k]),
                                forall|k: int| 0 <= k < next@.len() ==> (#[trigger] next@[k] matches Step::Entry(m, _) ==> m == start || has_predecessor(exp.programs@, m as int)),
                                forall|k: int| 0 <= k < next@.len() ==> (#[trigger] next@[k] matches Step::Exit(m) ==> visitation@[m as int] != 0),
                                forall|k: int|
                                    0 <= k < children.len() ==> {
                                        let (id, path) = #[trigger] children@[k];
                                        &&& id < runs@.len()
                                        &&& runs@[id as int].output_path@ == path@
                                        &&& runs@[id as int].program == node
                                    },
                            decreases exp.programs[node as int].next.len() - j,
                        {
                            let child = exp.programs[node].next[j];
                            proof {
                                assert(exp.programs[node as int].next@[j as int] == child);
                                assert(child < exp.programs.len());
                            }
                            let copy = clone_children(&children);
                            let ghost q_in = next@;
                            next.push_back(Step::Entry(child, Some(copy)));
                            proof {
                                assert(next@ == q_in.push(Step::Entry(child, Some(copy))));
                                assert forall|k: int| 0 <= k < next@.len() implies (#[trigger] next@[k] matches Step::Entry(_, p) ==> p is Some) by {
                                    if k < q_in.len() {
                                        assert(next@[k] == q_in[k]);
                                    }
                                }
                                assert forall|k: int| 0 <= k < next@.len() implies (#[trigger] next@[k] matches Step::Entry(m, _) ==> m == start || entered_from(exp.programs@, visitation@, order@, m as int, *entered as int)) by {
                                    if k < q_in.len() {
                                        assert(next@[k] == q_in[k]);
                                    } else {
                                        assert(exp.programs@[node as int].next@[j as int] == child);
                                    }
                                }
                                if fresh {
                                    assert forall|k: int| 0 <= k < next@.len() implies (#[trigger] next@[k] matches Step::Entry(_, Some(ps)) ==> forall|j3: int| 0 <= j3 < ps.len() ==> #[trigger] program_rank(runs@, ps@[j3].0 as int) == j3) by {
                                        if k < q_in.len() {
                                            assert(next@[k] == q_in[k]);
                                        } else {
                                            assert forall|j3: int| 0 <= j3 < copy.len() implies #[trigger] program_rank(runs@, copy@[j3].0 as int) == j3 by {
                                                assert(copy@[j3].0 == children@[j3].0);
                                            }
                                        }
                                    }
                                }
                                assert forall|k: int| 0 <= k < next@.len() implies (#[trigger] next@[k] matches Step::Entry(_, Some(ps)) ==> forall|j3: int| 0 <= j3 < ps.len() ==> old_runs.len() <= (#[trigger] ps@[j3]).0) by {
                                    if k < q_in.len() {
                                        assert(next@[k] == q_in[k]);
                                    } else {
                                        assert forall|j3: int| 0 <= j3 < copy.len() implies old_runs.len() <= (#[trigger] copy@[j3]).0 by {
                                            assert(copy@[j3].0 == children@[j3].0);
                                        }
                                    }
                                }
                                assert forall|j2: int| 0 <= j2 < j + 1 implies entry_at(next@, q0.len() + j2, #[trigger] exp.programs[node as int].next@[j2]) by {
                                    if j2 < j {
                                        assert(next@[q0.len() + j2] == q_in[q0.len() + j2]);
                                    }
                                }
                                assert(has_predecessor(exp.programs@, child as int));
                                assert(exp.programs[node as int].next@.contains(child));
                                assert(step_ok(exp, runs@, next@[next@.len() - 1])) by {
                                    assert forall|k: int| 0 <= k < copy.len() implies {
                                        let (id, path) = #[trigger] copy@[k];
                                        &&& id < runs@.len()
                                        &&& runs@[id as int].output_path@ == path@
                                        &&& exp.programs[runs@[id as int].program as int].next@.contains(child)
                                    } by {
                                        assert(copy@[k].0 == children@[k].0);
                                        assert(copy@[k].1@ == children@[k].1@);
                                    }
                                }
                            }
                            j = j + 1;
                        }
                        let ghost q_kids = next@;
                        next.push_back(Step::Exit(node));
                        proof {
                            assert(next@ == q_kids.push(Step::Exit(node)));
                            assert forall|k: int| 0 <= k < next@.len() implies (#[trigger] next@[k] matches Step::Entry(_, p) ==> p is Some) by {
                                if k < q_kids.len() {
                                    assert(next@[k] == q_kids[k]);
                                }
                            }
                            assert forall|k: int| 0 <= k < next@.len() implies (#[trigger] next@[k] matches Step::Entry(_, Some(ps)) ==> forall|j3: int| 0 <= j3 < ps.len() ==> old_runs.len() <= (#[trigger] ps@[j3]).0) by {
                                if k < q_kids.len() {
                                    assert(next@[k] == q_kids[k]);
                                }
                            }
                            assert forall|k: int| 0 <= k < next@.len() implies (#[trigger] next@[k] matches Step::Entry(m, _) ==> m == start || entered_from(exp.programs@, visitation@, order@, m as int, *entered as int)) by {
                                if k < q_kids.len() {
                                    assert(next@[k] == q_kids[k]);
                                }
                            }
                            if fresh {
                                assert forall|k: int| 0 <= k < next@.len() implies (#[trigger] next@[k] matches Step::Entry(_, Some(ps)) ==> forall|j3: int| 0 <= j3 < ps.len() ==> #[trigger] program_rank(runs@, ps@[j3].0 as int) == j3) by {
                                    if k < q_kids.len() {
                                        assert(next@[k] == q_kids[k]);
                                    }
                                }
                            }
                            assert(q0 == before_q.drop_first());
                            assert(visitation@ == before_vis.update(node as int, 2));
                            assert(entered_queue(before_q, next@, exp.programs[node as int].next@, node)) by {
                                assert forall|k: int| 0 <= k < before_q.len() - 1 implies #[trigger] next@[k] == before_q[k + 1] by {
                                    assert(next@[k] == q_kids[k]);
                                    assert(q_kids[k] == q0[k]);
                                }
                                assert forall|j2: int| 0 <= j2 < exp.programs[node as int].next@.len() implies entry_at(next@, before_q.len() - 1 + j2, #[trigger] exp.programs[node as int].next@[j2]) by {
                                    assert(entry_at(q_kids, q0.len() + j2, exp.programs[node as int].next@[j2]));
                                    assert(next@[q0.len() + j2] == q_kids[q0.len() + j2]);
                                }
                            }
                            if up {
                                lemma_up_enter(exp.programs@, before_vis, before_q, next@, node);
                            }
                            if h {
                                lemma_tree_enter(exp.programs@, before_vis, before_q, next@, node);
                            }
                            started = true;
                            assert forall|k: int| 0 <= k < next@.len() implies (#[trigger] next@[k] matches Step::Exit(m) ==> visitation@[m as int] != 0) by {
                                if k < next@.len() - 1 {
                                    assert(step_ok(exp, runs@, next@[k]));
                                }
                            }
                            assert(step_ok(exp, runs@, next@[next@.len() - 1]));
                            if old_vis[start as int] != 2 {
                            assert forall|i: int|
                                0 <= i < visitation.len() && old_vis[i] != 2 && #[trigger] visitation@[i] == 2 implies exit_pending(next@, 0, i as usize) by {
                                if i == node as int {
                                    assert(next@[next@.len() - 1] matches Step::Exit(m) && m == i as usize);
                                } else {
                                    assert(before_vis[i] == 2);
                                    assert(exit_pending(before_q, 0, i as usize));
                                    let k = choose|k: int| 0 <= k < before_q.len() && (#[trigger] before_q[k] matches Step::Exit(m) && m == i as usize);
                                    assert(k != 0);
                                    assert(q0[k - 1] == before_q[k]);
                                    assert(next@[k - 1] == q0[k - 1]);
                                }
                            }
                            }
                        }
                    },
                    Step::Exit(node) => {
                        proof {
                            lemma_unvisited_update(visitation@, node as int, 1);
                        }
                        visitation.set(node, 1);
                        proof {
                            assert(before_vis[node as int] != 0);
                            assert forall|q: int| 0 <= q < exp.programs.len() && before_vis[q] != 0 implies visitation@[q] != 0 && order@[q] == order@[q] by {}
                            assert forall|c: int|
                                0 <= c < exp.programs.len() && old_vis[c] == 0 && #[trigger] visitation@[c] != 0 && c != start
                                    implies entered_from(exp.programs@, visitation@, order@, c, order@[c] as int) by {
                                assert(before_vis[c] != 0);
                                lemma_entered_from_grow(exp.programs@, before_vis, order@, visitation@, order@, c, order@[c] as int, order@[c] as int);
                            }
                            assert forall|k: int| 0 <= k < next@.len() implies (#[trigger] next@[k] matches Step::Entry(m, _) ==> m == start || entered_from(exp.programs@, visitation@, order@, m as int, *entered as int)) by {
                                match next@[k] {
                                    Step::Entry(m, _) => {
                                        if m != start {
                                            lemma_entered_from_grow(exp.programs@, before_vis, order@, visitation@, order@, m as int, *entered as int, *entered as int);
                                        }
                                    },
                                    _ => {},
                                }
                            }
                            assert forall|p: int| 0 <= p < exp.programs.len() implies #[trigger] count_program(runs@, p) == count_program(old_runs, p) + if old_vis[p] == 0 && visitation@[p] != 0 {
                                exp.inputs.len() as nat
                            } else {
                                0nat
                            } by {
                                assert(visitation@[p] != 0 <==> before_vis[p] != 0);
                            }
                            if up {
                                assert forall|c: usize| #[trigger] entry_at(before_q, 0, c) implies c < before_vis.len() && visitation@[c as int] != 0 by {}
                                lemma_up_pop(exp.programs@, before_vis, visitation@, before_q);
                            }
                            if h {
                                lemma_tree_exit(exp.programs@, before_vis, before_q, node);
                            }
                            started = true;
                            assert forall|r: int| old_runs.len() <= r < runs@.len() implies visitation@[#[trigger] runs@[r].program as int] != 0 by {
                                assert(run_wf(exp, runs@, r));
                                assert(before_vis[runs@[r].program as int] != 0);
                            }
                            assert forall|k: int| 0 <= k < next@.len() implies (#[trigger] next@[k] matches Step::Exit(m) ==> visitation@[m as int] != 0) by {
                                assert(step_ok(exp, runs@, next@[k]));
                            }
                            if old_vis[start as int] != 2 {
                                assert forall|i: int|
                                    0 <= i < visitation.len() && old_vis[i] != 2 && #[trigger] visitation@[i] == 2 implies exit_pending(next@, 0, i as usize) by {
                                    assert(before_vis[i] == 2);
                                    assert(exit_pending(before_q, 0, i as usize));
                                    let k = choose|k: int| 0 <= k < before_q.len() && (#[trigger] before_q[k] matches Step::Exit(m) && m == i as usize);
                                    assert(k != 0);
                                    assert(next@[k - 1] == before_q[k]);
                                }
                            }
                        }
                    },
                }
            },
        }
    }
    Ok(())
}

/// A copy of a list of run ids and paths.
fn clone_children(v: &Vec<(usize, String)>) -> (r: Vec<(usize, String)>)
    ensures
        r.len() == v.len(),
        forall|k: int| 0 <= k < v.len() ==> r@[k].0 == v@[k].0 && r@[k].1@ == v@[k].1@,
{
    let mut r: Vec<(usize, String)> = Vec::new();
    let mut i: usize = 0;
    while i < v.len()
        invariant
            i <= v.len(),
            r.len() == i,
            forall|k: int| 0 <= k < i ==> r@[k].0 == v@[k].0 && r@[k].1@ == v@[k].1@,
        decreases v.len() - i,
    {
        r.push((v[i].0, v[i].1.clone()));
        i = i + 1;
    }
    r
}

/// Whether some program lists program `p` as `next`.
pub open spec fn has_predecessor(programs: Seq<InternalProgram>, p: int) -> bool {
    exists|q: int, k: int| 0 <= q < programs.len() && 0 <= k < programs[q].next.len() && #[trigger] programs[q].next@[k] == p
}

/// Whether no program is listed twice among all `next` fields: every program
/// has at most one predecessor, listed once.
pub open spec fn single_parents(programs: Seq<InternalProgram>) -> bool {
    forall|p1: int, k1: int, p2: int, k2: int|
        0 <= p1 < programs.len() && 0 <= k1 < programs[p1].next.len() && 0 <= p2 < programs.len() && 0 <= k2
            < programs[p2].next.len() && #[trigger] programs[p1].next@[k1] == #[trigger] programs[p2].next@[k2]
            ==> p1 == p2 && k1 == k2
}

/// Whether `d` ranks the programs so that the rank grows along every `next` edge.
pub open spec fn ranks(programs: Seq<InternalProgram>, d: Seq<nat>) -> bool {
    d.len() == programs.len() && forall|p: int, k: int|
        0 <= p < programs.len() && 0 <= k < programs[p].next.len() ==> d[#[trigger] programs[p].next@[k] as int] > d[p]
}

/// Whether the `next` relation has no cycle: some rank grows along every `next` edge.
pub open spec fn ranked(programs: Seq<InternalProgram>) -> bool {
    exists|d: Seq<nat>| #[trigger] ranks(programs, d)
}

/// Whether the programs form a forest under `next`: no cycle, and no program
/// with more than one predecessor.
pub open spec fn tree_shaped(programs: Seq<InternalProgram>) -> bool {
    single_parents(programs) && ranked(programs)
}

/// Whether every successor of a reached program is reached.
pub open spec fn closed_up(programs: Seq<InternalProgram>, vis: Seq<usize>) -> bool {
    forall|p: int, k: int|
        0 <= p < programs.len() && 0 <= k < programs[p].next.len() && vis[p] != 0 ==> vis[
            #[trigger] programs[p].next@[k] as int] != 0
}

/// Whether every successor of an unreached program is unreached.
pub open spec fn closed_down(programs: Seq<InternalProgram>, vis: Seq<usize>) -> bool {
    forall|p: int, k: int|
        0 <= p < programs.len() && 0 <= k < programs[p].next.len() && vis[p] == 0 ==> vis[
            #[trigger] programs[p].next@[k] as int] == 0
}

/// Whether step `k` of the queue enters program `c`.
pub open spec fn entry_at(q: Seq<Step>, k: int, c: usize) -> bool {
    q[k] matches Step::Entry(m, _) && m == c
}

/// Whether the queue holds an entry of program `c`.
pub open spec fn entry_pending(q: Seq<Step>, c: usize) -> bool {
    exists|k: int| 0 <= k < q.len() && #[trigger] entry_at(q, k, c)
}

/// Whether `q2` is `q` after taking its first step, entering program `node`:
/// the rest of `q`, an entry for each of `kids` in order, and the exit of `node`.
pub open spec fn entered_queue(q: Seq<Step>, q2: Seq<Step>, kids: Seq<usize>, node: usize) -> bool {
    &&& q.len() > 0
    &&& q2.len() == q.len() + kids.len()
    &&& forall|k: int| 0 <= k < q.len() - 1 ==> #[trigger] q2[k] == q[k + 1]
    &&& forall|j: int| 0 <= j < kids.len() ==> entry_at(q2, q.len() - 1 + j, #[trigger] kids[j])
    &&& q2[q2.len() - 1] matches Step::Exit(m) && m == node
}

/// The search's reach: every successor of a reached program is reached or queued.
#[verifier::opaque]
pub open spec fn up_inv(programs: Seq<InternalProgram>, vis: Seq<usize>, q: Seq<Step>) -> bool {
    forall|p: int, k: int|
        0 <= p < programs.len() && 0 <= k < programs[p].next.len() && vis[p] != 0 ==> vis[
            #[trigger] programs[p].next@[k] as int] != 0 || entry_pending(q, programs[p].next@[k])
}

/// The search over a forest: queued programs are unreached and queued once, and
/// the successors of an unreached program are unreached and not queued.
#[verifier::opaque]
pub open spec fn tree_inv(programs: Seq<InternalProgram>, vis: Seq<usize>, q: Seq<Step>) -> bool {
    &&& forall|k: int, c: usize| 0 <= k < q.len() && #[trigger] entry_at(q, k, c) ==> c < vis.len() && vis[c as int] == 0
    &&& forall|k1: int, k2: int, c: usize|
        0 <= k1 < q.len() && 0 <= k2 < q.len() && #[trigger] entry_at(q, k1, c) && #[trigger] entry_at(q, k2, c) ==> k1 == k2
    &&& forall|p: int, k: int|
        0 <= p < programs.len() && 0 <= k < programs[p].next.len() && vis[p] == 0 ==> vis[
            #[trigger] programs[p].next@[k] as int] == 0 && !entry_pending(q, programs[p].next@[k])
}

proof fn lemma_up_init(programs: Seq<InternalProgram>, vis: Seq<usize>, q: Seq<Step>)
    requires
        closed_up(programs, vis),
    ensures
        up_inv(programs, vis, q),
{
    reveal(up_inv);
}

proof fn lemma_up_done(programs: Seq<InternalProgram>, vis: Seq<usize>, q: Seq<Step>)
    requires
        up_inv(programs, vis, q),
        q.len() == 0,
    ensures
        closed_up(programs, vis),
{
    reveal(up_inv);
}

/// Taking a step that leaves the set of reached programs as it is.
proof fn lemma_up_pop(programs: Seq<InternalProgram>, vis: Seq<usize>, vis2: Seq<usize>, q: Seq<Step>)
    requires
        programs_wf(programs),
        vis.len() == programs.len(),
        vis2.len() == vis.len(),
        up_inv(programs, vis, q),
        q.len() > 0,
        forall|i: int| 0 <= i < vis.len() ==> (vis[i] != 0) == (vis2[i] != 0),
        forall|c: usize| #[trigger] entry_at(q, 0, c) ==> c < vis.len() && vis2[c as int] != 0,
    ensures
        up_inv(programs, vis2, q.drop_first()),
{
    reveal(up_inv);
    let q2 = q.drop_first();
    assert forall|p: int, k: int|
        0 <= p < programs.len() && 0 <= k < programs[p].next.len() && vis2[p] != 0 implies vis2[
            #[trigger] programs[p].next@[k] as int] != 0 || entry_pending(q2, programs[p].next@[k]) by {
        let c = programs[p].next@[k];
        assert(c < programs.len());
        if vis2[c as int] == 0 {
            assert(vis[p] != 0);
            assert(vis[c as int] == 0);
            assert(entry_pending(q, c));
            let k0 = choose|k0: int| 0 <= k0 < q.len() && #[trigger] entry_at(q, k0, c);
            if k0 == 0 {
                assert(vis2[c as int] != 0);
            } else {
                assert(q2[k0 - 1] == q[k0]);
                assert(entry_at(q2, k0 - 1, c));
            }
        }
    }
}

/// Entering program `node` queues its successors.
proof fn lemma_up_enter(programs: Seq<InternalProgram>, vis: Seq<usize>, q: Seq<Step>, q2: Seq<Step>, node: usize)
    requires
        programs_wf(programs),
        vis.len() == programs.len(),
        node < programs.len(),
        up_inv(programs, vis, q),
        entry_at(q, 0, node),
        entered_queue(q, q2, programs[node as int].next@, node),
    ensures
        up_inv(programs, vis.update(node as int, 2), q2),
{
    reveal(up_inv);
    let v2 = vis.update(node as int, 2);
    assert forall|p: int, k: int|
        0 <= p < programs.len() && 0 <= k < programs[p].next.len() && v2[p] != 0 implies v2[
            #[trigger] programs[p].next@[k] as int] != 0 || entry_pending(q2, programs[p].next@[k]) by {
        let c = programs[p].next@[k];
        assert(c < programs.len());
        if p == node {
            assert(entry_at(q2, q.len() - 1 + k, programs[node as int].next@[k]));
        } else if v2[c as int] == 0 {
            assert(vis[p] != 0);
            assert(entry_pending(q, c));
            let k0 = choose|k0: int| 0 <= k0 < q.len() && #[trigger] entry_at(q, k0, c);
            if k0 == 0 {
                assert(c == node);
            } else {
                assert(q2[k0 - 1] == q[k0]);
                assert(entry_at(q2, k0 - 1, c));
            }
        }
    }
}

proof fn lemma_tree_init(programs: Seq<InternalProgram>, vis: Seq<usize>, start: usize)
    requires
        programs_wf(programs),
        vis.len() == programs.len(),
        start < programs.len(),
        closed_down(programs, vis),
        vis[start as int] == 0,
        !has_predecessor(programs, start as int),
    ensures
        tree_inv(programs, vis, seq![Step::Entry(start, None)]),
{
    reveal(tree_inv);
    let q = seq![Step::Entry(start, None)];
    assert forall|p: int, k: int|
        0 <= p < programs.len() && 0 <= k < programs[p].next.len() && vis[p] == 0 implies vis[
            #[trigger] programs[p].next@[k] as int] == 0 && !entry_pending(q, programs[p].next@[k]) by {
        if entry_pending(q, programs[p].next@[k]) {
            let k0 = choose|k0: int| 0 <= k0 < q.len() && #[trigger] entry_at(q, k0, programs[p].next@[k]);
            assert(k0 == 0);
            assert(has_predecessor(programs, start as int));
        }
    }
}

proof fn lemma_tree_head(programs: Seq<InternalProgram>, vis: Seq<usize>, q: Seq<Step>, node: usize)
    requires
        tree_inv(programs, vis, q),
        q.len() > 0,
        entry_at(q, 0, node),
    ensures
        node < vis.len(),
        vis[node as int] == 0,
{
    reveal(tree_inv);
}

proof fn lemma_tree_done(programs: Seq<InternalProgram>, vis: Seq<usize>, q: Seq<Step>)
    requires
        tree_inv(programs, vis, q),
    ensures
        closed_down(programs, vis),
{
    reveal(tree_inv);
}

/// Leaving a reached program.
proof fn lemma_tree_exit(programs: Seq<InternalProgram>, vis: Seq<usize>, q: Seq<Step>, node: usize)
    requires
        programs_wf(programs),
        vis.len() == programs.len(),
        tree_inv(programs, vis, q),
        q.len() > 0,
        q[0] matches Step::Exit(m) && m == node,
        node < vis.len(),
        vis[node as int] != 0,
    ensures
        tree_inv(programs, vis.update(node as int, 1), q.drop_first()),
{
    reveal(tree_inv);
    let v2 = vis.update(node as int, 1);
    let q2 = q.drop_first();
    assert forall|k: int, c: usize| 0 <= k < q2.len() && #[trigger] entry_at(q2, k, c) implies c < v2.len() && v2[c as int] == 0 by {
        assert(q2[k] == q[k + 1]);
        assert(entry_at(q, k + 1, c));
    }
    assert forall|k1: int, k2: int, c: usize|
        0 <= k1 < q2.len() && 0 <= k2 < q2.len() && #[trigger] entry_at(q2, k1, c) && #[trigger] entry_at(q2, k2, c) implies k1 == k2 by {
        assert(q2[k1] == q[k1 + 1]);
        assert(q2[k2] == q[k2 + 1]);
        assert(entry_at(q, k1 + 1, c));
        assert(entry_at(q, k2 + 1, c));
    }
    assert forall|p: int, k: int|
        0 <= p < programs.len() && 0 <= k < programs[p].next.len() && v2[p] == 0 implies v2[
            #[trigger] programs[p].next@[k] as int] == 0 && !entry_pending(q2, programs[p].next@[k]) by {
        let c = programs[p].next@[k];
        assert(vis[p] == 0);
        assert(vis[c as int] == 0);
        assert(!entry_pending(q, c));
        if entry_pending(q2, c) {
            let k0 = choose|k0: int| 0 <= k0 < q2.len() && #[trigger] entry_at(q2, k0, c);
            assert(q2[k0] == q[k0 + 1]);
            assert(entry_at(q, k0 + 1, c));
        }
    }
}

/// Entering an unreached program of a forest queues its successors, each once.
proof fn lemma_tree_enter(programs: Seq<InternalProgram>, vis: Seq<usize>, q: Seq<Step>, q2: Seq<Step>, node: usize)
    requires
        programs_wf(programs),
        single_parents(programs),
        vis.len() == programs.len(),
        node < programs.len(),
        tree_inv(programs, vis, q),
        entry_at(q, 0, node),
        entered_queue(q, q2, programs[node as int].next@, node),
    ensures
        tree_inv(programs, vis.update(node as int, 2), q2),
{
    reveal(tree_inv);
    let v2 = vis.update(node as int, 2);
    let kids = programs[node as int].next@;
    let base = q.len() - 1;
    assert(vis[node as int] == 0);
    // The successors of `node` were unreached and not queued, and are not `node`.
    assert forall|j: int| 0 <= j < kids.len() implies #[trigger] vis[kids[j] as int] == 0 && !entry_pending(q, kids[j]) && kids[j] != node by {
        assert(programs[node as int].next@[j] == kids[j]);
        if kids[j] == node {
            assert(entry_pending(q, node));
        }
    }
    // A queued program of `q2` is a queued program of `q` other than `node`, or a successor.
    assert forall|k: int, c: usize| 0 <= k < q2.len() && #[trigger] entry_at(q2, k, c) implies c < v2.len() && v2[c as int] == 0 by {
        if k < base {
            assert(q2[k] == q[k + 1]);
            assert(entry_at(q, k + 1, c));
            if c == node {
                assert(entry_at(q, 0, node));
            }
        } else if k < base + kids.len() {
            assert(entry_at(q2, k, kids[k - base]));
            assert(vis[kids[k - base] as int] == 0);
        }
    }
    assert forall|k1: int, k2: int, c: usize|
        0 <= k1 < q2.len() && 0 <= k2 < q2.len() && #[trigger] entry_at(q2, k1, c) && #[trigger] entry_at(q2, k2, c) implies k1 == k2 by {
        if k1 < base && k2 < base {
            assert(q2[k1] == q[k1 + 1]);
            assert(q2[k2] == q[k2 + 1]);
            assert(entry_at(q, k1 + 1, c));
            assert(entry_at(q, k2 + 1, c));
        } else if k1 < base && k2 < base + kids.len() {
            assert(q2[k1] == q[k1 + 1]);
            assert(entry_at(q, k1 + 1, c));
            assert(entry_at(q2, k2, kids[k2 - base]));
            assert(!entry_pending(q, kids[k2 - base]));
        } else if k2 < base && k1 < base + kids.len() {
            assert(q2[k2] == q[k2 + 1]);
            assert(entry_at(q, k2 + 1, c));
            assert(entry_at(q2, k1, kids[k1 - base]));
            assert(!entry_pending(q, kids[k1 - base]));
        } else if k1 < base + kids.len() && k2 < base + kids.len() {
            assert(entry_at(q2, k1, kids[k1 - base]));
            assert(entry_at(q2, k2, kids[k2 - base]));
            assert(programs[node as int].next@[k1 - base] == programs[node as int].next@[k2 - base]);
        }
    }
    assert forall|p: int, k: int|
        0 <= p < programs.len() && 0 <= k < programs[p].next.len() && v2[p] == 0 implies v2[
            #[trigger] programs[p].next@[k] as int] == 0 && !entry_pending(q2, programs[p].next@[k]) by {
        let c = programs[p].next@[k];
        assert(p != node);
        assert(vis[p] == 0);
        assert(vis[c as int] == 0 && !entry_pending(q, c));
        if c == node {
            assert(entry_pending(q, node));
        }
        if entry_pending(q2, c) {
            let k0 = choose|k0: int| 0 <= k0 < q2.len() && #[trigger] entry_at(q2, k0, c);
            if k0 < base {
                assert(q2[k0] == q[k0 + 1]);
                assert(entry_at(q, k0 + 1, c));
            } else if k0 < base + kids.len() {
                assert(entry_at(q2, k0, kids[k0 - base]));
                assert(programs[node as int].next@[k0 - base] == programs[p].next@[k]);
            }
        }
    }
}

/// In a forest whose roots are reached, and where successors of reached
/// programs are reached, every program is reached.
proof fn lemma_all_reached(programs: Seq<InternalProgram>, vis: Seq<usize>, d: Seq<nat>, c: int)
    requires
        programs_wf(programs),
        vis.len() == programs.len(),
        d.len() == programs.len(),
        forall|p: int, k: int|
            0 <= p < programs.len() && 0 <= k < programs[p].next.len() ==> d[#[trigger] programs[p].next@[k] as int] > d[p],
        closed_up(programs, vis),
        forall|r: int| 0 <= r < programs.len() && !has_predecessor(programs, r) ==> vis[r] != 0,
        0 <= c < programs.len(),
    ensures
        vis[c] != 0,
    decreases d[c],
{
    if has_predecessor(programs, c) {
        let (p, k) = choose|p: int, k: int| 0 <= p < programs.len() && 0 <= k < programs[p].next.len() && #[trigger] programs[p].next@[k] == c;
        assert(d[programs[p].next@[k] as int] > d[p]);
        lemma_all_reached(programs, vis, d, p);
    }
}

proof fn lemma_run_wf_frame(e1: &Experiment, e2: &Experiment, runs: Seq<Run>, i: int)
    requires
        run_wf(e1, runs, i),
        e1.programs == e2.programs,
        e1.inputs == e2.inputs,
        e1.seq == e2.seq,
        e1.output_folder == e2.output_folder,
        e1.metrics_folder == e2.metrics_folder,
    ensures
        run_wf(e2, runs, i),
{
    let r = runs[i];
    if r.parent is None {
        let name = r.generated_from_input->Some_0;
        let k = choose|k: int|
            0 <= k < e1.inputs.len() && #[trigger] e1.inputs@[k].0@ == name@ && input_view(r.input) == input_view(e1.inputs@[k].1);
        assert(e2.inputs@[k].0@ == name@);
    }
}

/// Whether every program without a predecessor has, for each input, a run made from it.
pub open spec fn roots_have_runs(exp: &Experiment, runs: Seq<Run>) -> bool {
    forall|p: int, k: int| 0 <= p < exp.programs.len() && !has_predecessor(exp.programs@, p) && 0 <= k < exp.inputs.len()
        ==> #[trigger] has_input_run(exp, runs, p, k)
}

/// Whether run `i` is a run of program `p` made from input `k` of the experiment.
pub open spec fn run_from_input(exp: &Experiment, runs: Seq<Run>, i: int, p: int, k: int) -> bool {
    &&& runs[i].program == p
    &&& runs[i].parent is None
    &&& runs[i].generated_from_input matches Some(n) && n@ == exp.inputs@[k].0@
}

/// Whether some run is a run of program `p` made from input `k` of the experiment.
pub open spec fn has_input_run(exp: &Experiment, runs: Seq<Run>, p: int, k: int) -> bool {
    exists|i: int| 0 <= i < runs.len() && #[trigger] run_from_input(exp, runs, i, p, k)
}

/// Whether no program lists a `next` program.
pub open spec fn no_edges(programs: Seq<InternalProgram>) -> bool {
    forall|p: int| 0 <= p < programs.len() ==> #[trigger] programs[p].next.len() == 0
}

/// Whether every `next` edge leads from a program to one with a larger number in `d`.
pub open spec fn edges_rise(programs: Seq<InternalProgram>, d: Seq<usize>) -> bool {
    forall|q: int, k: int|
        0 <= q < programs.len() && 0 <= k < programs[q].next.len() ==> d[q] < d[#[trigger] programs[q].next@[k] as int]
}

/// Numbers that rise along every edge rank the programs.
proof fn lemma_ranks_by(programs: Seq<InternalProgram>, d: Seq<usize>)
    requires
        d.len() == programs.len(),
        programs_wf(programs),
        edges_rise(programs, d),
    ensures
        ranked(programs),
{
    let r = Seq::new(d.len(), |i: int| d[i] as nat);
    assert forall|p: int, k: int| 0 <= p < programs.len() && 0 <= k < programs[p].next.len() implies r[#[trigger] programs[p].next@[k] as int] > r[p] by {
        let c = programs[p].next@[k] as int;
        assert(d[p] < d[c]);
        assert(0 <= c < d.len());
    }
    assert(ranks(programs, r));
}

/// Whether every `next` edge leads from a program to one with a larger number in `d`.
fn ranks_by(programs: &Vec<InternalProgram>, d: &Vec<usize>) -> (b: bool)
    requires
        d.len() == programs.len(),
        programs_wf(programs@),
    ensures
        b == edges_rise(programs@, d@),
{
    let n = programs.len();
    let mut q: usize = 0;
    while q < n
        invariant
            n == programs.len(),
            d.len() == n,
            programs_wf(programs@),
            q <= n,
            forall|q2: int, k: int| 0 <= q2 < q && 0 <= k < programs[q2].next.len() ==> d@[q2] < d@[#[trigger] programs[q2].next@[k] as int],
        decreases n - q,
    {
        let mut k: usize = 0;
        while k < programs[q].next.len()
            invariant
                n == programs.len(),
                d.len() == n,
                programs_wf(programs@),
                q < n,
                k <= programs[q as int].next.len(),
                forall|q2: int, k2: int| 0 <= q2 < q && 0 <= k2 < programs[q2].next.len() ==> d@[q2] < d@[#[trigger] programs[q2].next@[k2] as int],
                forall|k2: int| 0 <= k2 < k ==> d@[q as int] < d@[#[trigger] programs[q as int].next@[k2] as int],
            decreases programs[q as int].next.len() - k,
        {
            let c = programs[q].next[k];
            proof {
                assert(programs[q as int].next@[k as int] == c);
            }
            if d[q] >= d[c] {
                return false;
            }
            k = k + 1;
        }
        q = q + 1;
    }
    true
}

/// The length of a longest `next` path ending at each program, found by
/// raising each program above its predecessors as often as there are
/// programs (no higher than the number of programs).
fn longest_levels(programs: &Vec<InternalProgram>) -> (d: Vec<usize>)
    requires
        programs_wf(programs@),
    ensures
        d.len() == programs.len(),
{
    let n = programs.len();
    let mut d: Vec<usize> = Vec::new();
    while d.len() < n
        invariant
            d.len() <= n,
            forall|i: int| 0 <= i < d.len() ==> d@[i] <= n,
        decreases n - d.len(),
    {
        d.push(0);
    }
    let mut round: usize = 0;
    while round < n
        invariant
            n == programs.len(),
            d.len() == n,
            programs_wf(programs@),
            forall|i: int| 0 <= i < n ==> d@[i] <= n,
        decreases n - round,
    {
        let mut q: usize = 0;
        while q < n
            invariant
                n == programs.len(),
                d.len() == n,
                programs_wf(programs@),
                forall|i: int| 0 <= i < n ==> d@[i] <= n,
            decreases n - q,
        {
            let mut k: usize = 0;
            while k < programs[q].next.len()
                invariant
                    n == programs.len(),
                    d.len() == n,
                    programs_wf(programs@),
                    q < n,
                    forall|i: int| 0 <= i < n ==> d@[i] <= n,
                decreases programs[q as int].next.len() - k,
            {
                let c = programs[q].next[k];
                proof {
                    assert(programs[q as int].next@[k as int] == c);
                }
                if d[c] <= d[q] && d[q] < n {
                    let v = d[q] + 1;
                    d.set(c, v);
                }
                k = k + 1;
            }
            q = q + 1;
        }
        round = round + 1;
    }
    d
}

/// Lays out the runs of an experiment from its programs and inputs.
///
/// Every program with no predecessor starts a search (in index order) that
/// creates runs for it and for the programs after it: one run per input for
/// the first, one run per run of its predecessor for each program after it,
/// so every program gets as many runs as there are inputs, and the `k`-th run
/// of a program takes the output of the `k`-th run of its predecessor. The
/// layout fails with [`PlanError::Cycle`] when a search meets a program it is
/// still inside of, when some program is never reached, or when the `next`
/// edges hold a cycle.
pub fn lay_out_runs(exp: &Experiment) -> (res: Result<Vec<Run>, PlanError>)
    requires
        programs_wf(exp.programs@),
    ensures
        res matches Ok(runs) ==> runs_wf(exp, runs@),
        res matches Ok(runs) ==> roots_have_runs(exp, runs@),
        res matches Ok(runs) ==> runs.len() == exp.programs.len() * exp.inputs.len(),
        no_edges(exp.programs@) ==> (res matches Ok(runs) ==> forall|p: int, k: int|
            0 <= p < exp.programs.len() && 0 <= k < exp.inputs.len() ==> #[trigger] run_from_input(exp, runs@, p * exp.inputs.len() + k, p, k)),
        res matches Err(e) ==> e == PlanError::Cycle,
        tree_shaped(exp.programs@) ==> res is Ok,
        res is Ok ==> ranked(exp.programs@),
        res matches Ok(runs) ==> forall|p: int| 0 <= p < exp.programs.len() ==> #[trigger] count_program(runs@, p) == exp.inputs.len(),
        res matches Ok(runs) ==> forall|r: int| 0 <= r < runs.len() ==> #[trigger] rank_paired(exp, runs@, r),
{
    let n = exp.programs.len();
    let mut has_pred: Vec<bool> = Vec::new();
    while has_pred.len() < n
        invariant
            has_pred.len() <= n,
            forall|q: int| 0 <= q < has_pred.len() ==> !has_pred@[q],
        decreases n - has_pred.len(),
    {
        has_pred.push(false);
    }
    let mut q: usize = 0;
    while q < n
        invariant
            n == exp.programs.len(),
            programs_wf(exp.programs@),
            has_pred.len() == n,
            q <= n,
            forall|p: int| 0 <= p < n && #[trigger] has_pred@[p] ==> has_predecessor(exp.programs@, p),
            forall|r: int, k: int| 0 <= r < q && 0 <= k < exp.programs[r].next.len() ==> has_pred@[#[trigger] exp.programs[r].next@[k] as int],
        decreases n - q,
    {
        let mut k: usize = 0;
        while k < exp.programs[q].next.len()
            invariant
                n == exp.programs.len(),
                programs_wf(exp.programs@),
                has_pred.len() == n,
                q < n,
                k <= exp.programs[q as int].next.len(),
                forall|p: int| 0 <= p < n && #[trigger] has_pred@[p] ==> has_predecessor(exp.programs@, p),
                forall|r: int, j: int| 0 <= r < q && 0 <= j < exp.programs[r].next.len() ==> has_pred@[#[trigger] exp.programs[r].next@[j] as int],
                forall|j: int| 0 <= j < k ==> has_pred@[#[trigger] exp.programs[q as int].next@[j] as int],
            decreases exp.programs[q as int].next.len() - k,
        {
            let t = exp.programs[q].next[k];
            assert(exp.programs[q as int].next@[k as int] == t);
            has_pred.set(t, true);
            k = k + 1;
        }
        q = q + 1;
    }
    assert forall|r: int| 0 <= r < n && !has_pred@[r] implies !has_predecessor(exp.programs@, r) by {
        if has_predecessor(exp.programs@, r) {
            let (q, k) = choose|q: int, k: int| 0 <= q < exp.programs.len() && 0 <= k < exp.programs[q].next.len() && #[trigger] exp.programs[q].next@[k] == r;
            assert(has_pred@[r]);
        }
    }
    let mut visitation: Vec<usize> = Vec::new();
    while visitation.len() < n
        invariant
            visitation.len() <= n,
            forall|i: int| 0 <= i < visitation.len() ==> visitation@[i] == 0,
        decreases n - visitation.len(),
    {
        visitation.push(0);
    }
    let mut order: Vec<usize> = Vec::new();
    while order.len() < n
        invariant
            order.len() <= n,
        decreases n - order.len(),
    {
        order.push(0);
    }
    let mut entered: usize = 0;
    let mut runs: Vec<Run> = Vec::new();
    let mut p: usize = 0;
    let ghost n_in = exp.inputs.len() as int;
    proof {
        assert(closed_up(exp.programs@, visitation@));
        assert(closed_down(exp.programs@, visitation@));
        lemma_unvisited_extremes(visitation@);
    }
    while p < n
        invariant
            closed_up(exp.programs@, visitation@),
            tree_shaped(exp.programs@) ==> closed_down(exp.programs@, visitation@),
            n == exp.programs.len(),
            programs_wf(exp.programs@),
            has_pred.len() == n,
            visitation.len() == n,
            p <= n,
            forall|i: int| 0 <= i < n ==> #[trigger] visitation@[i] <= 2,
            forall|i: int| 0 <= i < n ==> #[trigger] visitation@[i] != 2,
            runs_wf(exp, runs@),
            forall|i: int| 0 <= i < n && #[trigger] visitation@[i] == 0 ==> forall|r: int| 0 <= r < runs.len() ==> runs@[r].program != i,
            forall|r: int| 0 <= r < p && !has_pred@[r] ==> visitation@[r] != 0,
            forall|r: int, k: int| 0 <= r < n && !has_pred@[r] && visitation@[r] != 0 && 0 <= k < exp.inputs.len() ==> #[trigger] has_input_run(exp, runs@, r, k),
            forall|r: int| 0 <= r < n && #[trigger] visitation@[r] != 0 ==> r < p || has_predecessor(exp.programs@, r),
            forall|r: int| 0 <= r < n && !has_pred@[r] ==> !has_predecessor(exp.programs@, r),
            forall|r: int| 0 <= r < n && #[trigger] has_pred@[r] ==> has_predecessor(exp.programs@, r),
            n_in == exp.inputs.len(),
            runs@.len() + n_in * unvisited(visitation@) == n_in * n,
            no_edges(exp.programs@) ==> runs@.len() == p * n_in && forall|q: int, k: int|
                0 <= q < p && 0 <= k < n_in ==> #[trigger] run_from_input(exp, runs@, q * n_in + k, q, k),
            order.len() == n,
            entered + unvisited(visitation@) == n,
            forall|c: int|
                0 <= c < n && #[trigger] visitation@[c] != 0 && has_predecessor(exp.programs@, c)
                    ==> entered_from(exp.programs@, visitation@, order@, c, order@[c] as int),
            forall|q: int| 0 <= q < n ==> #[trigger] count_program(runs@, q) == if visitation@[q] != 0 {
                exp.inputs.len() as nat
            } else {
                0nat
            },
            forall|r: int| 0 <= r < runs.len() ==> #[trigger] rank_paired(exp, runs@, r),
        decreases n - p,
    {
        if !has_pred[p] {
            let ghost before = runs@;
            let ghost vis_before = visitation@;
            assert(visitation@[p as int] == 0);
            proof {
                assert(!has_predecessor(exp.programs@, p as int));
                assert(forall|i: int| 0 <= i < visitation@.len() ==> visitation@[i] != 2);
            }
            let ghost order_before = order@;
            proof {
                assert forall|q: int| 0 <= q < n && vis_before[q] == 0 implies #[trigger] count_program(before, q) == 0 by {}
            }
            let r = dfs(&mut visitation, p, &mut runs, exp, &mut order, &mut entered);
            if r.is_err() {
                return Err(PlanError::Cycle);
            }
            proof {
                assert forall|q: int| 0 <= q < n && vis_before[q] != 0 implies visitation@[q] != 0 && order@[q] == order_before[q] by {}
                assert forall|c: int|
                    0 <= c < n && #[trigger] visitation@[c] != 0 && has_predecessor(exp.programs@, c)
                        implies entered_from(exp.programs@, visitation@, order@, c, order@[c] as int) by {
                    if vis_before[c] != 0 {
                        lemma_entered_from_grow(exp.programs@, vis_before, order_before, visitation@, order@, c, order_before[c] as int, order@[c] as int);
                    } else {
                        assert(c != p as int);
                    }
                }
                assert forall|q: int| 0 <= q < n implies #[trigger] count_program(runs@, q) == if visitation@[q] != 0 {
                    exp.inputs.len() as nat
                } else {
                    0nat
                } by {}
                assert forall|r: int| 0 <= r < runs.len() implies #[trigger] rank_paired(exp, runs@, r) by {
                    if r < before.len() {
                        assert(run_wf(exp, before, r));
                        lemma_paired_extends(exp, before, runs@, r);
                    }
                }
                assert forall|i: int| 0 <= i < n && #[trigger] visitation@[i] == 0 implies forall|r: int| 0 <= r < runs.len() ==> runs@[r].program != i by {
                    assert(vis_before[i] == 0);
                    assert forall|r: int| 0 <= r < runs.len() implies runs@[r].program != i by {
                        if r < before.len() {
                            assert(runs@[r] == runs@.subrange(0, before.len() as int)[r]);
                        }
                    }
                }
                assert forall|r: int, k: int| 0 <= r < n && !has_pred@[r] && visitation@[r] != 0 && 0 <= k < exp.inputs.len() implies #[trigger] has_input_run(exp, runs@, r, k) by {
                    if r != p {
                        if vis_before[r] == 0 {
                            assert(has_predecessor(exp.programs@, r));
                        }
                        assert(has_input_run(exp, before, r, k));
                        let i = choose|i: int| 0 <= i < before.len() && #[trigger] run_from_input(exp, before, i, r, k);
                        assert(runs@[i] == runs@.subrange(0, before.len() as int)[i]);
                        assert(run_from_input(exp, runs@, i, r, k));
                    } else {
                        assert(input_run_at(exp, runs@, before.len(), p, k));
                        assert(run_from_input(exp, runs@, before.len() + k, r, k));
                    }
                }
                if no_edges(exp.programs@) {
                    assert forall|i: int| 0 <= i < n && i != p implies (vis_before[i] == 0 <==> #[trigger] visitation@[i] == 0) by {
                        if vis_before[i] == 0 && visitation@[i] != 0 {
                            assert(has_predecessor(exp.programs@, i));
                            let (q, k) = choose|q: int, k: int| 0 <= q < exp.programs.len() && 0 <= k < exp.programs[q].next.len() && #[trigger] exp.programs[q].next@[k] == i;
                            assert(exp.programs[q].next.len() == 0);
                        }
                    }
                    lemma_unvisited_one_more(vis_before, visitation@, p as int);
                    let ub = unvisited(vis_before);
                    let ua = unvisited(visitation@);
                    let pp = p as int;
                    assert(n_in * ub == n_in * ua + n_in) by (nonlinear_arith)
                        requires
                            ub == ua + 1,
                    ;
                    assert((pp + 1) * n_in == pp * n_in + n_in) by (nonlinear_arith);
                    assert(runs@.len() == (pp + 1) * n_in);
                    assert(before.len() == pp * n_in);
                    assert forall|q: int, k: int| 0 <= q < p + 1 && 0 <= k < n_in implies #[trigger] run_from_input(exp, runs@, q * n_in + k, q, k) by {
                        if q < p {
                            assert(run_from_input(exp, before, q * n_in + k, q, k));
                            assert(0 <= q * n_in + k < pp * n_in) by (nonlinear_arith)
                                requires
                                    0 <= q < pp,
                                    0 <= k < n_in,
                            ;
                            assert(runs@[q * n_in + k] == runs@.subrange(0, before.len() as int)[q * n_in + k]);
                        } else {
                            assert(input_run_at(exp, runs@, before.len(), p, k));
                        }
                    }
                }
            }
        } else {
            proof {
                if no_edges(exp.programs@) {
                    assert(has_pred@[p as int]);
                    assert(has_predecessor(exp.programs@, p as int));
                    let (q, k) = choose|q: int, k: int| 0 <= q < exp.programs.len() && 0 <= k < exp.programs[q].next.len() && #[trigger] exp.programs[q].next@[k] == p as int;
                    assert(exp.programs[q].next.len() == 0);
                }
            }
        }
        p = p + 1;
    }
    assert(roots_have_runs(exp, runs@)) by {
        assert forall|r: int, k: int| 0 <= r < exp.programs.len() && !has_predecessor(exp.programs@, r) && 0 <= k < exp.inputs.len()
            implies #[trigger] has_input_run(exp, runs@, r, k) by {
            if has_pred@[r] {
                assert(has_predecessor(exp.programs@, r));
            }
        }
    }
    proof {
        if tree_shaped(exp.programs@) {
            let d = choose|d: Seq<nat>| #[trigger] ranks(exp.programs@, d);
            assert forall|r: int| 0 <= r < exp.programs@.len() && !has_predecessor(exp.programs@, r) implies visitation@[r] != 0 by {
                if has_pred@[r] {
                    assert(has_predecessor(exp.programs@, r));
                }
            }
            assert forall|c: int| 0 <= c < n implies visitation@[c] == 1 by {
                lemma_all_reached(exp.programs@, visitation@, d, c);
                assert(visitation@[c] <= 2 && visitation@[c] != 2);
            }
        }
    }
    let mut i: usize = 0;
    while i < n
        invariant
            tree_shaped(exp.programs@) ==> forall|j: int| 0 <= j < n ==> visitation@[j] == 1,
            roots_have_runs(exp, runs@),
            runs_wf(exp, runs@),
            visitation.len() == n,
            n == exp.programs.len(),
            i <= n,
            forall|j: int| 0 <= j < i ==> visitation@[j] == 1,
            n_in == exp.inputs.len(),
            runs@.len() + n_in * unvisited(visitation@) == n_in * n,
            no_edges(exp.programs@) ==> runs@.len() == n * n_in && forall|q: int, k: int|
                0 <= q < n && 0 <= k < n_in ==> #[trigger] run_from_input(exp, runs@, q * n_in + k, q, k),
            order.len() == n,
            programs_wf(exp.programs@),
            forall|c: int|
                0 <= c < n && #[trigger] visitation@[c] != 0 && has_predecessor(exp.programs@, c)
                    ==> entered_from(exp.programs@, visitation@, order@, c, order@[c] as int),
            forall|q: int| 0 <= q < n ==> #[trigger] count_program(runs@, q) == if visitation@[q] != 0 {
                exp.inputs.len() as nat
            } else {
                0nat
            },
            forall|r: int| 0 <= r < runs.len() ==> #[trigger] rank_paired(exp, runs@, r),
        decreases n - i,
    {
        if visitation[i] != 1 {
            return Err(PlanError::Cycle);
        }
        i = i + 1;
    }
    // The edges hold no cycle when every `next` edge leads to a program
    // entered later; where the entry order does not show it, longest-path
    // levels decide.
    if !ranks_by(&exp.programs, &order) {
        proof {
            if tree_shaped(exp.programs@) {
                let (q2, k2) = choose|q2: int, k2: int|
                    0 <= q2 < exp.programs.len() && 0 <= k2 < exp.programs[q2].next.len() && order@[q2]
                        >= order@[#[trigger] exp.programs[q2].next@[k2] as int];
                let c = exp.programs[q2].next@[k2] as int;
                assert(has_predecessor(exp.programs@, c));
                assert(visitation@[c] == 1);
                assert(entered_from(exp.programs@, visitation@, order@, c, order@[c] as int));
                let (q3, k3) = choose|q3: int, k3: int|
                    0 <= q3 < exp.programs@.len() && 0 <= k3 < exp.programs@[q3].next.len() && #[trigger] exp.programs@[q3].next@[k3] == c
                        && visitation@[q3] != 0 && order@[q3] < order@[c] as int;
                assert(exp.programs@[q2].next@[k2] == exp.programs@[q3].next@[k3]);
                assert(q2 == q3);
            }
        }
        let levels = longest_levels(&exp.programs);
        if !ranks_by(&exp.programs, &levels) {
            return Err(PlanError::Cycle);
        }
        proof {
            lemma_ranks_by(exp.programs@, levels@);
        }
    } else {
        proof {
            lemma_ranks_by(exp.programs@, order@);
        }
    }
    proof {
        lemma_unvisited_extremes(visitation@);
        assert(unvisited(visitation@) == 0);
        assert(n_in * 0 == 0);
        assert(n_in * n == n * n_in) by (nonlinear_arith);
    }
    Ok(runs)
}

/// The index of the first entry of `entries` whose name is `name`.
pub fn find_name<V>(entries: &Vec<(String, V)>, name: &String) -> (r: Option<usize>)
    ensures
        r matches Some(i) ==> i < entries.len() && entries@[i as int].0@ == name@ && forall|j: int| 0 <= j < i ==> #[trigger] entries@[j].0@ != name@,
        r is None ==> forall|j: int| 0 <= j < entries.len() ==> #[trigger] entries@[j].0@ != name@,
{
    let mut i: usize = 0;
    while i < entries.len()
        invariant
            i <= entries.len(),
            forall|j: int| 0 <= j < i ==> #[trigger] entries@[j].0@ != name@,
        decreases entries.len() - i,
    {
        if entries[i].0 == *name {
            return Some(i);
        }
        i = i + 1;
    }
    None
}

/// Whether `name` is the name of an entry of `entries`.
pub open spec fn names_contain<V>(entries: Seq<(String, V)>, name: Seq<char>) -> bool {
    exists|j: int| 0 <= j < entries.len() && #[trigger] entries[j].0@ == name
}

/// The limits a configured program runs with: its own, else the configuration's
/// default, else no limits.
pub open spec fn effective_limits(p: Program, default: Option<ResourceLimits>) -> ResourceLimits {
    match p.resource_limits {
        Some(l) => l,
        None => match default {
            Some(l) => l,
            None => ResourceLimits { time_limit_secs: 0, time_limit_nanos: 0, cpus: 0, mem_per_cpu: 0 },
        },
    }
}

/// Whether `ip` is the experiment form of program `name`/`p` of `conf`: same name,
/// binary, arguments and afterscript, its effective limits, and each `next`
/// name resolved to the index of the first program with that name.
pub open spec fn expanded_program(conf: &Config, name: Seq<char>, p: Program, ip: InternalProgram) -> bool {
    &&& ip.name@ == name
    &&& ip.binary@ == p.binary@
    &&& ip.arguments@ == p.arguments@
    &&& ip.afterscript == p.afterscript
    &&& ip.limits == effective_limits(p, conf.resource_limits)
    &&& ip.next.len() == p.next.len()
    &&& forall|k: int| 0 <= k < p.next.len() ==> {
        let t = #[trigger] ip.next@[k];
        &&& t < conf.programs.len()
        &&& conf.programs@[t as int].0@ == p.next@[k]@
        &&& forall|j: int| 0 <= j < t ==> #[trigger] conf.programs@[j].0@ != p.next@[k]@
    }
}

/// The programs of an experiment made from the configured ones, in the same order.
///
/// Fails with [`PlanError::UnknownProgram`] when a `next` field names a program
/// that is not configured.
pub fn expand_programs(conf: &Config) -> (res: Result<Vec<InternalProgram>, PlanError>)
    ensures
        res matches Ok(ps) ==> ps.len() == conf.programs.len() && programs_wf(ps@) && forall|i: int|
            0 <= i < ps.len() ==> #[trigger] expanded_program(conf, conf.programs@[i].0@, conf.programs@[i].1, ps@[i]),
        res matches Err(e) ==> e matches PlanError::UnknownProgram(n) && exists|i: int, k: int|
            0 <= i < conf.programs.len() && 0 <= k < conf.programs@[i].1.next.len()
                && #[trigger] conf.programs@[i].1.next@[k]@ == n@ && !names_contain(conf.programs@, n@),
        res is Ok <==> forall|i: int, k: int| 0 <= i < conf.programs.len() && 0 <= k < conf.programs@[i].1.next.len()
            ==> names_contain(conf.programs@, #[trigger] conf.programs@[i].1.next@[k]@),
{
    let mut out: Vec<InternalProgram> = Vec::new();
    let mut i: usize = 0;
    while i < conf.programs.len()
        invariant
            i <= conf.programs.len(),
            out.len() == i,
            forall|q: int| 0 <= q < i ==> #[trigger] expanded_program(conf, conf.programs@[q].0@, conf.programs@[q].1, out@[q]),
            forall|q: int, k: int| 0 <= q < i && 0 <= k < conf.programs@[q].1.next.len()
                ==> names_contain(conf.programs@, #[trigger] conf.programs@[q].1.next@[k]@),
        decreases conf.programs.len() - i,
    {
        let (name, p) = &conf.programs[i];
        let mut next: Vec<usize> = Vec::new();
        let mut k: usize = 0;
        while k < p.next.len()
            invariant
                i < conf.programs.len(),
                k <= p.next.len(),
                next.len() == k,
                *p == conf.programs@[i as int].1,
                forall|j: int| 0 <= j < k ==> {
                    let t = #[trigger] next@[j];
                    &&& t < conf.programs.len()
                    &&& conf.programs@[t as int].0@ == p.next@[j]@
                    &&& forall|m: int| 0 <= m < t ==> #[trigger] conf.programs@[m].0@ != p.next@[j]@
                },
            decreases p.next.len() - k,
        {
            match find_name(&conf.programs, &p.next[k]) {
                Some(t) => {
                    next.push(t);
                },
                None => {
                    proof {
                        assert(conf.programs@[i as int].1.next@[k as int]@ == p.next@[k as int]@);
                        if names_contain(conf.programs@, p.next@[k as int]@) {
                            let j = choose|j: int| 0 <= j < conf.programs.len() && #[trigger] conf.programs@[j].0@ == p.next@[k as int]@;
                            assert(conf.programs@[j].0@ != p.next@[k as int]@);
                        }
                        assert(!names_contain(conf.programs@, conf.programs@[i as int].1.next@[k as int]@));
                    }
                    let n = p.next[k].clone();
                    assert(n@ == conf.programs@[i as int].1.next@[k as int]@);
                    return Err(PlanError::UnknownProgram(n));
                },
            }
            k = k + 1;
        }
        let limits = match p.resource_limits {
            Some(l) => l,
            None => match conf.resource_limits {
                Some(l) => l,
                None => ResourceLimits::default(),
            },
        };
        out.push(InternalProgram {
            name: name.clone(),
            binary: p.binary.clone(),
            arguments: clone_strings(&p.arguments),
            afterscript: clone_opt_string(&p.afterscript),
            limits,
            next,
        });
        proof {
            assert forall|k: int| 0 <= k < conf.programs@[i as int].1.next.len() implies names_contain(conf.programs@, #[trigger] conf.programs@[i as int].1.next@[k]@) by {
                let t = next@[k];
                assert(conf.programs@[t as int].0@ == p.next@[k]@);
            }
        }
        i = i + 1;
    }
    proof {
        assert forall|p: int, k: int| 0 <= p < out.len() && 0 <= k < out@[p].next.len() implies #[trigger] out@[p].next@[k] < out.len() by {
            assert(expanded_program(conf, conf.programs@[p].0@, conf.programs@[p].1, out@[p]));
        }
    }
    Ok(out)
}

/// The inputs of an experiment made from the configured ones, in the same order.
pub fn expand_inputs(conf: &Config) -> (r: Vec<(String, RunInput)>)
    ensures
        r.len() == conf.inputs.len(),
        forall|i: int| 0 <= i < r.len() ==> #[trigger] r@[i].0@ == conf.inputs@[i].0@ && r@[i].1.file == conf.inputs@[i].1.input
            && r@[i].1.arguments@ == conf.inputs@[i].1.arguments@,
{
    let mut r: Vec<(String, RunInput)> = Vec::new();
    let mut i: usize = 0;
    while i < conf.inputs.len()
        invariant
            i <= conf.inputs.len(),
            r.len() == i,
            forall|j: int| 0 <= j < i ==> #[trigger] r@[j].0@ == conf.inputs@[j].0@ && r@[j].1.file == conf.inputs@[j].1.input
                && r@[j].1.arguments@ == conf.inputs@[j].1.arguments@,
        decreases conf.inputs.len() - i,
    {
        let (name, input) = &conf.inputs[i];
        assert(conf.inputs@[i as int].0 == *name && conf.inputs@[i as int].1 == *input);
        r.push((name.clone(), RunInput { file: clone_opt_string(&input.input), arguments: clone_strings(&input.arguments) }));
        i = i + 1;
    }
    r
}

/// The number of the next experiment: one after the latest, or 1 when there is none.
pub fn next_experiment_seq(latest: Option<usize>) -> (seq: usize)
    requires
        latest matches Some(l) ==> l < usize::MAX,
    ensures
        seq == match latest {
            Some(l) => l + 1,
            None => 1,
        },
{
    match latest {
        Some(l) => l + 1,
        None => 1,
    }
}

/// The suffix of experiment files.
pub open spec fn lock_suffix() -> Seq<char> {
    seq!['.', 'l', 'o', 'c', 'k']
}

/// Whether `s` ends with `.lock`.
pub open spec fn ends_lock(s: Seq<char>) -> bool {
    s.len() >= 5 && s.subrange(s.len() - 5, s.len() as int) == lock_suffix()
}

/// `s` with every trailing `.lock` removed, as `str::trim_end_matches` gives it.
pub open spec fn strip_locks(s: Seq<char>) -> Seq<char>
    decreases s.len(),
{
    if ends_lock(s) {
        strip_locks(s.subrange(0, s.len() - 5))
    } else {
        s
    }
}

/// The latest experiment number among the first `n` file names: the
/// largest number of a `*.lock` file, `None` where there is none; the first
/// `*.lock` file whose name is no number is the error.
pub open spec fn latest_upto(names: Seq<Seq<char>>, n: nat) -> Result<Option<nat>, Seq<char>>
    decreases n,
{
    if n == 0 {
        Ok(None)
    } else {
        match latest_upto(names, (n - 1) as nat) {
            Err(e) => Err(e),
            Ok(h) => {
                let s = names[n - 1];
                if !ends_lock(s) {
                    Ok(h)
                } else {
                    match crate::text::parse_unsigned(strip_locks(s), usize::MAX as nat) {
                        None => Err(s),
                        Some(v) => Ok(
                            match h {
                                Some(x) => if v > x {
                                    Some(v)
                                } else {
                                    Some(x)
                                },
                                None => Some(v),
                            },
                        ),
                    }
                }
            },
        }
    }
}

fn has_lock_suffix(s: &str, n: usize) -> (b: bool)
    requires
        n == s@.len(),
    ensures
        b == ends_lock(s@),
{
    if n < 5 {
        return false;
    }
    let r = s.get_char(n - 5) == '.' && s.get_char(n - 4) == 'l' && s.get_char(n - 3) == 'o' && s.get_char(n - 2)
        == 'c' && s.get_char(n - 1) == 'k';
    proof {
        if r {
            assert(s@.subrange(n - 5, n as int) =~= lock_suffix());
        } else {
            if s@.subrange(n - 5, n as int) == lock_suffix() {
                assert(s@.subrange(n - 5, n as int)[0] == s@[n - 5]);
                assert(s@.subrange(n - 5, n as int)[1] == s@[n - 4]);
                assert(s@.subrange(n - 5, n as int)[2] == s@[n - 3]);
                assert(s@.subrange(n - 5, n as int)[3] == s@[n - 2]);
                assert(s@.subrange(n - 5, n as int)[4] == s@[n - 1]);
            }
        }
    }
    r
}

fn strip_lock_suffixes(s: &str) -> (r: String)
    ensures
        r@ == strip_locks(s@),
{
    let mut cur = s.to_owned();
    let mut n = s.unicode_len();
    loop
        invariant
            n == cur@.len(),
            strip_locks(cur@) == strip_locks(s@),
        decreases n,
    {
        if !has_lock_suffix(cur.as_str(), n) {
            return cur;
        }
        let next = cur.as_str().substring_char(0, n - 5).to_owned();
        cur = next;
        n = n - 5;
    }
}

/// Finds the latest experiment number among the names of the regular files
/// of the experiments folder: the largest number `N` of a file `N.lock`.
/// Fails with the first `*.lock` file whose name is no number.
pub fn latest_id_from_names(names: &Vec<String>) -> (r: Result<Option<usize>, String>)
    ensures
        match latest_upto(names@.map_values(|s: String| s@), names.len() as nat) {
            Ok(Some(v)) => r == Ok::<Option<usize>, String>(Some(v as usize)),
            Ok(None) => r == Ok::<Option<usize>, String>(None),
            Err(e) => r matches Err(s) && s@ == e,
        },
{
    let ghost nv = names@.map_values(|s: String| s@);
    let mut highest: Option<usize> = None;
    let mut i: usize = 0;
    while i < names.len()
        invariant
            i <= names.len(),
            nv == names@.map_values(|s: String| s@),
            match latest_upto(nv, i as nat) {
                Ok(Some(v)) => highest == Some(v as usize) && v <= usize::MAX,
                Ok(None) => highest is None,
                Err(_) => false,
            },
        decreases names.len() - i,
    {
        let name = names[i].as_str();
        assert(nv[i as int] == name@);
        let n = name.unicode_len();
        if has_lock_suffix(name, n) {
            let stem = strip_lock_suffixes(name);
            match crate::text::parse_u64_upto(stem.as_str(), usize::MAX as u64) {
                None => {
                    proof {
                        lemma_latest_err(nv, (i + 1) as nat, names.len() as nat);
                    }
                    return Err(names[i].clone());
                },
                Some(v) => {
                    let v = v as usize;
                    highest = match highest {
                        Some(x) => if v > x {
                            Some(v)
                        } else {
                            Some(x)
                        },
                        None => Some(v),
                    };
                },
            }
        }
        i = i + 1;
    }
    assert(nv.len() == names.len());
    match highest {
        Some(h) => Ok(Some(h)),
        None => Ok(None),
    }
}

proof fn lemma_latest_err(names: Seq<Seq<char>>, m: nat, n: nat)
    requires
        m <= n,
        latest_upto(names, m) is Err,
    ensures
        latest_upto(names, n) == latest_upto(names, m),
    decreases n,
{
    if m < n {
        lemma_latest_err(names, m, (n - 1) as nat);
    }
}

/// Whether `e` is the experiment that [`from_config`] builds: it takes over the
/// configured programs, inputs, wrapper and Slurm settings, writes to the given
/// folders, has well-formed runs with a run for each root program, and no chunks.
pub open spec fn made_from_config(conf: &Config, time: Timestamp, env: Environment, seq: usize, output_folder: Seq<char>, metrics_folder: Seq<char>, e: &Experiment) -> bool {
    &&& e.seq == seq
    &&& e.creation_time == time
    &&& e.env == env
    &&& e.output_folder@ == output_folder
    &&& e.metrics_folder@ == metrics_folder
    &&& e.wrapper@ == conf.wrapper@
    &&& e.programs.len() == conf.programs.len()
    &&& forall|i: int| 0 <= i < e.programs.len() ==> #[trigger] expanded_program(conf, conf.programs@[i].0@, conf.programs@[i].1, e.programs@[i])
    &&& e.inputs.len() == conf.inputs.len()
    &&& forall|i: int| 0 <= i < e.inputs.len() ==> #[trigger] e.inputs@[i].0@ == conf.inputs@[i].0@ && e.inputs@[i].1.file == conf.inputs@[i].1.input
    &&& runs_wf(e, e.runs@)
    &&& roots_have_runs(e, e.runs@)
    &&& e.runs.len() == e.programs.len() * e.inputs.len()
    &&& ranked(e.programs@)
    &&& forall|p: int| 0 <= p < e.programs.len() ==> #[trigger] count_program(e.runs@, p) == e.inputs.len()
    &&& forall|r: int| 0 <= r < e.runs.len() ==> #[trigger] rank_paired(e, e.runs@, r)
    &&& (no_edges(e.programs@) ==> forall|p: int, k: int|
        0 <= p < e.programs.len() && 0 <= k < e.inputs.len() ==> #[trigger] run_from_input(e, e.runs@, p * e.inputs.len() + k, p, k))
    &&& e.chunks.len() == 0
    &&& (e.slurm is Some <==> conf.slurm is Some)
    &&& (e.slurm matches Some(a) ==> crate::model::same_slurm_config(a, conf.slurm->Some_0))
    &&& e.resource_limits == conf.resource_limits
}

/// Whether the programs of the configuration, with their `next` names resolved
/// to program indices, form a forest (see [`tree_shaped`]).
pub open spec fn config_is_forest(conf: &Config) -> bool {
    forall|ps: Seq<InternalProgram>|
        ps.len() == conf.programs.len() && (forall|i: int| 0 <= i < ps.len() ==> #[trigger] expanded_program(conf, conf.programs@[i].0@, conf.programs@[i].1, ps[i]))
            ==> #[trigger] tree_shaped(ps)
}

/// A program graph without any `next` edge is a forest.
pub proof fn lemma_no_edges_tree_shaped(programs: Seq<InternalProgram>)
    requires
        no_edges(programs),
    ensures
        tree_shaped(programs),
{
    let d = Seq::new(programs.len(), |i: int| 0nat);
    assert(ranks(programs, d));
}

/// Creates a new experiment from a configuration.
///
/// Programs and inputs are taken over from the configuration, and every program
/// is matched with every input along the program graph (see [`lay_out_runs`]).
/// `output_folder` and `metrics_folder` are the folders the runs write to.
pub fn from_config(
    conf: &Config,
    time: Timestamp,
    env: Environment,
    seq: usize,
    output_folder: String,
    metrics_folder: String,
    labels: Labels,
) -> (res: Result<Experiment, PlanError>)
    ensures
        res matches Ok(e) ==> made_from_config(conf, time, env, seq, output_folder@, metrics_folder@, &e),
        (forall|i: int, k: int| 0 <= i < conf.programs.len() && 0 <= k < conf.programs@[i].1.next.len()
            ==> names_contain(conf.programs@, #[trigger] conf.programs@[i].1.next@[k]@)) ==> !(res matches Err(PlanError::UnknownProgram(_))),
        res matches Err(PlanError::UnknownProgram(n)) ==> !names_contain(conf.programs@, n@),
        (forall|i: int, k: int| 0 <= i < conf.programs.len() && 0 <= k < conf.programs@[i].1.next.len()
            ==> names_contain(conf.programs@, #[trigger] conf.programs@[i].1.next@[k]@)) && config_is_forest(conf) ==> res is Ok,
        (forall|i: int| 0 <= i < conf.programs.len() ==> #[trigger] conf.programs@[i].1.next.len() == 0) ==> res is Ok,
{
    let programs = match expand_programs(conf) {
        Ok(p) => p,
        Err(e) => {
            return Err(e);
        },
    };
    let inputs = expand_inputs(conf);
    let ghost output_folder_view = output_folder@;
    let ghost metrics_folder_view = metrics_folder@;
    let slurm = match &conf.slurm {
        Some(s) => {
            let c = crate::model::clone_slurm_config(s);
            assert(crate::model::same_slurm_config(c, conf.slurm->Some_0));
            Some(c)
        },
        None => None,
    };
    let mut experiment = Experiment {
        seq,
        creation_time: time,
        env,
        wrapper: conf.wrapper.clone(),
        output_folder,
        metrics_folder,
        programs,
        inputs,
        runs: Vec::new(),
        chunks: Vec::new(),
        labels,
        slurm,
        resource_limits: conf.resource_limits,
    };
    proof {
        if config_is_forest(conf) {
            assert(tree_shaped(experiment.programs@));
        }
        if forall|i: int| 0 <= i < conf.programs.len() ==> #[trigger] conf.programs@[i].1.next.len() == 0 {
            assert forall|p: int| 0 <= p < experiment.programs.len() implies #[trigger] experiment.programs@[p].next.len() == 0 by {
                assert(expanded_program(conf, conf.programs@[p].0@, conf.programs@[p].1, experiment.programs@[p]));
            }
            lemma_no_edges_tree_shaped(experiment.programs@);
        }
    }
    let runs = match lay_out_runs(&experiment) {
        Ok(r) => r,
        Err(_) => {
            return Err(PlanError::Cycle);
        },
    };
    let ghost before = experiment;
    experiment.runs = runs;
    proof {
        assert forall|i: int| 0 <= i < experiment.runs@.len() implies #[trigger] run_wf(&experiment, experiment.runs@, i) by {
            lemma_run_wf_frame(&before, &experiment, experiment.runs@, i);
        }
        assert forall|p: int, k: int| 0 <= p < experiment.programs.len() && !has_predecessor(experiment.programs@, p) && 0 <= k < experiment.inputs.len()
            implies #[trigger] has_input_run(&experiment, experiment.runs@, p, k) by {
            assert(roots_have_runs(&before, experiment.runs@));
            assert(has_input_run(&before, experiment.runs@, p, k));
            let i = choose|i: int| 0 <= i < experiment.runs@.len() && #[trigger] run_from_input(&before, experiment.runs@, i, p, k);
            assert(run_from_input(&experiment, experiment.runs@, i, p, k));
        }
        assert forall|r: int| 0 <= r < experiment.runs.len() implies #[trigger] rank_paired(&experiment, experiment.runs@, r) by {
            assert(rank_paired(&before, experiment.runs@, r));
        }
        if no_edges(experiment.programs@) {
            assert forall|p: int, k: int| 0 <= p < experiment.programs.len() && 0 <= k < experiment.inputs.len()
                implies #[trigger] run_from_input(&experiment, experiment.runs@, p * experiment.inputs.len() + k, p, k) by {
                assert(run_from_input(&before, experiment.runs@, p * before.inputs.len() + k, p, k));
            }
        }
        assert(made_from_config(conf, time, env, seq, output_folder_view, metrics_folder_view, &experiment));
    }
    Ok(experiment)
}

} // verus!

verus! {

/// Whether the first `n` names hold a `*.lock` file whose name is the number `v`.
pub open spec fn has_lock_number(names: Seq<Seq<char>>, n: nat, v: nat) -> bool {
    exists|k: int| 0 <= k < n && #[trigger] ends_lock(names[k]) && crate::text::parse_unsigned(strip_locks(names[k]), usize::MAX as nat) == Some(v)
}

/// The latest experiment number is the largest one of the folder: it is the
/// number of one of the `*.lock` files, and no such file has a larger number;
/// where there is none, no `*.lock` file exists.
pub proof fn lemma_latest_is_largest(names: Seq<Seq<char>>, n: nat)
    requires
        n <= names.len(),
        latest_upto(names, n) is Ok,
    ensures
        latest_upto(names, n) matches Ok(Some(h)) ==> has_lock_number(names, n, h) && forall|k: int| 0 <= k < n && #[trigger] ends_lock(names[k])
            ==> (crate::text::parse_unsigned(strip_locks(names[k]), usize::MAX as nat) matches Some(v) && v <= h),
        latest_upto(names, n) matches Ok(None) ==> forall|k: int| 0 <= k < n ==> !#[trigger] ends_lock(names[k]),
    decreases n,
{
    if n > 0 {
        let prev = latest_upto(names, (n - 1) as nat);
        assert(prev is Ok);
        lemma_latest_is_largest(names, (n - 1) as nat);
        let s = names[n - 1];
        if ends_lock(s) {
            let v = crate::text::parse_unsigned(strip_locks(s), usize::MAX as nat)->0;
            match prev {
                Ok(Some(x)) => {
                    if v > x {
                        assert(has_lock_number(names, n, v));
                    } else {
                        let k0 = choose|k: int| 0 <= k < n - 1 && #[trigger] ends_lock(names[k]) && crate::text::parse_unsigned(strip_locks(names[k]), usize::MAX as nat) == Some(x);
                        assert(has_lock_number(names, n, x));
                    }
                },
                _ => {
                    assert(has_lock_number(names, n, v));
                },
            }
        } else {
            match prev {
                Ok(Some(x)) => {
                    let k0 = choose|k: int| 0 <= k < n - 1 && #[trigger] ends_lock(names[k]) && crate::text::parse_unsigned(strip_locks(names[k]), usize::MAX as nat) == Some(x);
                    assert(has_lock_number(names, n, x));
                },
                _ => {},
            }
        }
    }
}

} // verus!
