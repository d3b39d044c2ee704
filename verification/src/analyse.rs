//! Analysis of an experiment's runs: the rows of the metrics table and the
//! data of the cactus plot.
use vstd::prelude::*;

use crate::status::FileSystemBasedStatus;
use crate::status::FsState;
use crate::status::Measurement;
use crate::status::RUsage;
use crate::status::SlurmBasedStatus;
use crate::status::SlurmState;
use crate::text::dec;
use crate::text::sdec;

verus! {

/// The text `{:?}` gives for a duration of `secs` seconds and `nanos` nanoseconds.
pub uninterp spec fn duration_debug(secs: u64, nanos: u32) -> Seq<char>;

/// The debug rendering of a duration, such as `2.137ms`.
///
/// Calls `<Duration as Debug>::fmt` through `format!` on `Duration::new`.
/// Claims only that the result is `duration_debug` of the two parts.
#[verifier::external_body]
pub(crate) fn duration_debug_text(secs: u64, nanos: u32) -> (s: String)
    requires
        nanos < 1_000_000_000,
    ensures
        s@ == duration_debug(secs, nanos),
{
    format!("{:?}", std::time::Duration::new(secs, nanos))
}

/// The cells of the file-system part of a row: the run's id, its state, and
/// for a finished run its wall time, exit code and resource usage.
pub open spec fn fs_cells(id: usize, s: FileSystemBasedStatus) -> Seq<Seq<char>> {
    seq![dec(id as nat)] + match s.completion {
        FsState::Pending => seq!["pending"@, "..."@, "..."@, "..."@],
        FsState::Running => seq!["running"@, "..."@, "..."@, "..."@],
        FsState::Completed(m) => seq![
            "completed"@,
            duration_debug(m.wall_secs, m.wall_nanos),
            sdec(m.exit_code as int),
            rusage_text(m.rusage),
        ],
    }
}

/// Whether the sub-second parts of the durations of a measurement are below a second.
pub open spec fn measurement_ok(m: Measurement) -> bool {
    &&& m.wall_nanos < 1_000_000_000
    &&& m.rusage matches Some(r) ==> r.utime_nanos < 1_000_000_000 && r.stime_nanos < 1_000_000_000
}

/// Whether the durations of a file-system status are well formed.
pub open spec fn fs_status_ok(s: FileSystemBasedStatus) -> bool {
    s.completion matches FsState::Completed(m) ==> measurement_ok(m)
}

fn strings4(a: &str, b: &str, c: &str, d: &str) -> (v: Vec<String>)
    ensures
        v@.map_values(|s: String| s@) == seq![a@, b@, c@, d@],
{
    let mut v: Vec<String> = Vec::new();
    v.push(String::from_str(a));
    v.push(String::from_str(b));
    v.push(String::from_str(c));
    v.push(String::from_str(d));
    assert(v@.map_values(|s: String| s@) =~= seq![a@, b@, c@, d@]);
    v
}

/// Gets the file-system cells of a row of the metrics table.
pub fn get_fs_status_info(id: usize, fs_status: &FileSystemBasedStatus) -> (r: Vec<String>)
    requires
        fs_status_ok(*fs_status),
    ensures
        r@.map_values(|s: String| s@) == fs_cells(id, *fs_status),
{
    let rest = match fs_status.completion {
        FsState::Pending => strings4("pending", "...", "...", "..."),
        FsState::Running => strings4("running", "...", "...", "..."),
        FsState::Completed(m) => {
            let mut v: Vec<String> = Vec::new();
            v.push(String::from_str("completed"));
            v.push(duration_debug_text(m.wall_secs, m.wall_nanos));
            v.push(crate::text::i64_to_dec(m.exit_code as i64));
            v.push(format_rusage(m.rusage));
            assert(v@.map_values(|s: String| s@) =~= seq![
                "completed"@,
                duration_debug(m.wall_secs, m.wall_nanos),
                sdec(m.exit_code as int),
                rusage_text(m.rusage),
            ]);
            v
        },
    };
    let mut res: Vec<String> = Vec::new();
    res.push(crate::text::u64_to_dec(id as u64));
    let ghost head = res@.map_values(|s: String| s@);
    let mut i: usize = 0;
    while i < rest.len()
        invariant
            i <= rest.len(),
            res.len() == i + 1,
            res@.map_values(|s: String| s@) == head + rest@.map_values(|s: String| s@).take(i as int),
        decreases rest.len() - i,
    {
        let ghost before = res@.map_values(|s: String| s@);
        let c = rest[i].clone();
        res.push(c);
        assert(res@.map_values(|s: String| s@) =~= before.push(c@));
        assert(rest@.map_values(|s: String| s@).take(i + 1) =~= rest@.map_values(|s: String| s@).take(i as int).push(c@));
        i = i + 1;
    }
    assert(rest@.map_values(|s: String| s@).take(rest.len() as int) =~= rest@.map_values(|s: String| s@));
    res
}

/// One field of the pretty debug rendering: `    name: value,` and a newline.
pub open spec fn field_line(name: Seq<char>, value: Seq<char>) -> Seq<char> {
    "    "@ + name + ": "@ + value + ",\n"@
}

/// The pretty debug rendering (`{:#?}`) of resource usage, or `none`.
pub open spec fn rusage_text(r: Option<RUsage>) -> Seq<char> {
    match r {
        None => "none"@,
        Some(u) => "RUsage {\n"@ + field_line("utime"@, duration_debug(u.utime_secs, u.utime_nanos))
            + field_line("stime"@, duration_debug(u.stime_secs, u.stime_nanos))
            + field_line("maxrss"@, sdec(u.maxrss as int)) + field_line("ixrss"@, sdec(u.ixrss as int))
            + field_line("idrss"@, sdec(u.idrss as int)) + field_line("isrss"@, sdec(u.isrss as int))
            + field_line("minflt"@, sdec(u.minflt as int)) + field_line("majflt"@, sdec(u.majflt as int))
            + field_line("nswap"@, sdec(u.nswap as int)) + field_line("inblock"@, sdec(u.inblock as int))
            + field_line("oublock"@, sdec(u.oublock as int)) + field_line("msgsnd"@, sdec(u.msgsnd as int))
            + field_line("msgrcv"@, sdec(u.msgrcv as int)) + field_line("nsignals"@, sdec(u.nsignals as int))
            + field_line("nvcsw"@, sdec(u.nvcsw as int)) + field_line("nivcsw"@, sdec(u.nivcsw as int)) + "}"@,
    }
}

fn push_field(out: &mut String, name: &str, value: &str)
    ensures
        final(out)@ == old(out)@ + field_line(name@, value@),
{
    out.append("    ");
    out.append(name);
    out.append(": ");
    out.append(value);
    out.append(",\n");
}

fn push_int_field(out: &mut String, name: &str, value: i64)
    ensures
        final(out)@ == old(out)@ + field_line(name@, sdec(value as int)),
{
    let v = crate::text::i64_to_dec(value);
    push_field(out, name, v.as_str());
}

/// Formats the resource usage of a run for the metrics table.
pub fn format_rusage(rusage: Option<RUsage>) -> (s: String)
    requires
        rusage matches Some(r) ==> r.utime_nanos < 1_000_000_000 && r.stime_nanos < 1_000_000_000,
    ensures
        s@ == rusage_text(rusage),
{
    match rusage {
        None => String::from_str("none"),
        Some(u) => {
            let mut s = String::from_str("RUsage {\n");
            push_field(&mut s, "utime", duration_debug_text(u.utime_secs, u.utime_nanos).as_str());
            push_field(&mut s, "stime", duration_debug_text(u.stime_secs, u.stime_nanos).as_str());
            push_int_field(&mut s, "maxrss", u.maxrss);
            push_int_field(&mut s, "ixrss", u.ixrss);
            push_int_field(&mut s, "idrss", u.idrss);
            push_int_field(&mut s, "isrss", u.isrss);
            push_int_field(&mut s, "minflt", u.minflt);
            push_int_field(&mut s, "majflt", u.majflt);
            push_int_field(&mut s, "nswap", u.nswap);
            push_int_field(&mut s, "inblock", u.inblock);
            push_int_field(&mut s, "oublock", u.oublock);
            push_int_field(&mut s, "msgsnd", u.msgsnd);
            push_int_field(&mut s, "msgrcv", u.msgrcv);
            push_int_field(&mut s, "nsignals", u.nsignals);
            push_int_field(&mut s, "nvcsw", u.nvcsw);
            push_int_field(&mut s, "nivcsw", u.nivcsw);
            s.append("}");
            s
        },
    }
}

/// The name of a Slurm state, as its debug rendering gives it.
pub open spec fn slurm_state_name(s: SlurmState) -> Seq<char> {
    match s {
        SlurmState::BootFail => "BootFail"@,
        SlurmState::Cancelled => "Cancelled"@,
        SlurmState::Deadline => "Deadline"@,
        SlurmState::NodeFail => "NodeFail"@,
        SlurmState::OutOfMemory => "OutOfMemory"@,
        SlurmState::Preempted => "Preempted"@,
        SlurmState::SlurmFail => "SlurmFail"@,
        SlurmState::Success => "Success"@,
        SlurmState::Timeout => "Timeout"@,
    }
}

/// Gets the Slurm cell of a row of the metrics table: the Slurm state, or
/// `...` for a run not on Slurm.
pub fn get_slurm_status_info(slurm_status: &Option<SlurmBasedStatus>) -> (r: Vec<String>)
    ensures
        r@.map_values(|s: String| s@) == seq![match *slurm_status {
            Some(inner) => slurm_state_name(inner.completion),
            None => "..."@,
        }],
{
    let text = match slurm_status {
        Some(inner) => match inner.completion {
            SlurmState::BootFail => "BootFail",
            SlurmState::Cancelled => "Cancelled",
            SlurmState::Deadline => "Deadline",
            SlurmState::NodeFail => "NodeFail",
            SlurmState::OutOfMemory => "OutOfMemory",
            SlurmState::Preempted => "Preempted",
            SlurmState::SlurmFail => "SlurmFail",
            SlurmState::Success => "Success",
            SlurmState::Timeout => "Timeout",
        },
        None => "...",
    };
    let mut r: Vec<String> = Vec::new();
    r.push(String::from_str(text));
    assert(r@.map_values(|s: String| s@) =~= seq![text@]);
    r
}

/// The afterscript cell of a row: the label, or whether the afterscript ran.
pub open spec fn afterscript_cell(a: Option<Option<String>>) -> Seq<char> {
    match a {
        Some(Some(label)) => label@,
        Some(None) => "done, no label"@,
        None => "no afterscript"@,
    }
}

/// Gets the afterscript cell of a row of the metrics table.
pub fn get_afterscript_output_info(afterscript_completion: &Option<Option<String>>) -> (r: Vec<String>)
    ensures
        r@.map_values(|s: String| s@) == seq![afterscript_cell(*afterscript_completion)],
{
    let text = match afterscript_completion {
        Some(Some(label)) => label.clone(),
        Some(None) => String::from_str("done, no label"),
        None => String::from_str("no afterscript"),
    };
    let mut r: Vec<String> = Vec::new();
    r.push(text);
    assert(r@.map_values(|s: String| s@) =~= seq![afterscript_cell(*afterscript_completion)]);
    r
}

/// Why a run has no completion time.
#[derive(Debug, Clone, Copy, PartialEq, Eq, Structural)]
pub enum CompletionError {
    /// The run completed but its resource usage is not known.
    NoRUsage,
    /// The run has not completed.
    NotCompleted,
}

/// Gets the completion time of a run: the user time its resource usage
/// reports, as whole seconds and nanoseconds.
pub fn get_completion_time(state: FsState) -> (r: Result<(u64, u32), CompletionError>)
    ensures
        match state {
            FsState::Completed(m) => match m.rusage {
                Some(u) => r == Ok::<(u64, u32), CompletionError>((u.utime_secs, u.utime_nanos)),
                None => r == Err::<(u64, u32), CompletionError>(CompletionError::NoRUsage),
            },
            _ => r == Err::<(u64, u32), CompletionError>(CompletionError::NotCompleted),
        },
{
    match state {
        FsState::Completed(m) => match m.rusage {
            Some(u) => Ok((u.utime_secs, u.utime_nanos)),
            None => Err(CompletionError::NoRUsage),
        },
        _ => Err(CompletionError::NotCompleted),
    }
}

} // verus!

verus! {

/// Whether `v` is in increasing order.
pub open spec fn sorted_u128(v: Seq<u128>) -> bool {
    forall|a: int, b: int| 0 <= a < b < v.len() ==> v[a] <= v[b]
}

/// Sorts times in increasing order.
pub fn sort_times(v: &Vec<u128>) -> (r: Vec<u128>)
    ensures
        sorted_u128(r@),
        r@.to_multiset() == v@.to_multiset(),
{
    broadcast use vstd::seq_lib::to_multiset_insert, vstd::seq_lib::to_multiset_build;

    let mut r: Vec<u128> = Vec::new();
    let mut i: usize = 0;
    assert(r@ =~= v@.take(0));
    while i < v.len()
        invariant
            i <= v.len(),
            sorted_u128(r@),
            r@.to_multiset() == v@.take(i as int).to_multiset(),
        decreases v.len() - i,
    {
        let x = v[i];
        let mut p: usize = 0;
        while p < r.len() && r[p] <= x
            invariant
                p <= r.len(),
                forall|q: int| 0 <= q < p ==> r@[q] <= x,
            decreases r.len() - p,
        {
            p = p + 1;
        }
        let ghost before = r@;
        r.insert(p, x);
        proof {
            assert(r@ == before.insert(p as int, x));
            assert(v@.take(i + 1) =~= v@.take(i as int).push(x));
            vstd::seq_lib::to_multiset_insert(before, p as int, x);
            vstd::seq_lib::to_multiset_build(v@.take(i as int), x);
            assert forall|a: int, b: int| 0 <= a < b < r.len() implies r@[a] <= r@[b] by {
                if b < p {
                } else if a < p && b == p {
                } else if a < p {
                    assert(r@[b] == before[b - 1]);
                    if b - 1 < before.len() && p < before.len() {
                        assert(before[p as int] > x);
                    }
                } else if a == p {
                    assert(r@[b] == before[b - 1]);
                    assert(before[p as int] > x);
                    assert(before[p as int] <= before[b - 1]);
                } else {
                    assert(r@[a] == before[a - 1]);
                    assert(r@[b] == before[b - 1]);
                }
            }
        }
        i = i + 1;
    }
    assert(v@.take(v.len() as int) =~= v@);
    r
}

/// The completion time of a run in nanoseconds, where it finished with a
/// known resource usage.
pub open spec fn completion_nanos(s: crate::status::Status) -> Option<u128> {
    match s.fs_status.completion {
        FsState::Completed(m) => match m.rusage {
            Some(u) => Some((u.utime_secs as nat * 1_000_000_000 + u.utime_nanos as nat) as u128),
            None => None,
        },
        _ => None,
    }
}

/// The name of the program of run `id`.
pub open spec fn run_program_name(exp: &crate::model::Experiment, id: int) -> Seq<char> {
    exp.programs@[exp.runs@[id].program as int].name@
}

/// The completion times of the first `n` runs whose program is called `name`, in run order.
pub open spec fn times_of(exp: &crate::model::Experiment, statuses: Seq<crate::status::Status>, name: Seq<char>, n: nat) -> Seq<u128>
    decreases n,
{
    if n == 0 {
        Seq::empty()
    } else {
        let rest = times_of(exp, statuses, name, (n - 1) as nat);
        if run_program_name(exp, n - 1) == name && completion_nanos(statuses[n - 1]) is Some {
            rest.push(completion_nanos(statuses[n - 1])->0)
        } else {
            rest
        }
    }
}

/// Whether `c` groups the completion times of the first `n` runs by program
/// name: each name once, each with its times.
pub open spec fn groups_times(exp: &crate::model::Experiment, statuses: Seq<crate::status::Status>, c: Seq<(Seq<char>, Seq<u128>)>, n: nat) -> bool {
    &&& forall|a: int, b: int| 0 <= a < b < c.len() ==> c[a].0 != c[b].0
    &&& forall|k: int| 0 <= k < c.len() ==> #[trigger] c[k].1.to_multiset() == times_of(exp, statuses, c[k].0, n).to_multiset()
        && c[k].1.len() > 0
    &&& forall|j: int| 0 <= j < n && completion_nanos(statuses[j]) is Some ==> exists|k: int| 0 <= k < c.len() && #[trigger] c[k].0 == run_program_name(exp, j)
}

/// The completions as plain values.
pub open spec fn completions_view(c: Seq<(String, Vec<u128>)>) -> Seq<(Seq<char>, Seq<u128>)> {
    c.map_values(|e: (String, Vec<u128>)| (e.0@, e.1@))
}

proof fn lemma_times_of_other(exp: &crate::model::Experiment, statuses: Seq<crate::status::Status>, name: Seq<char>, n: nat)
    requires
        n < statuses.len(),
        run_program_name(exp, n as int) != name || completion_nanos(statuses[n as int]) is None,
    ensures
        times_of(exp, statuses, name, n + 1) == times_of(exp, statuses, name, n),
{
}

/// Gets the completion times of the finished runs with a known resource
/// usage, grouped by program name (names in the order they first appear),
/// each group's times in increasing order.
#[verifier::spinoff_prover]
#[verifier::rlimit(40)]
pub fn get_completions(statuses: &Vec<crate::status::Status>, experiment: &crate::model::Experiment) -> (c: Vec<(String, Vec<u128>)>)
    requires
        crate::rerun::statuses_match(experiment, statuses@),
        crate::rerun::run_programs_valid(experiment),
    ensures
        groups_times(experiment, statuses@, completions_view(c@), statuses.len() as nat),
        forall|k: int| 0 <= k < c.len() ==> sorted_u128(#[trigger] c@[k].1@),
{
    let mut c: Vec<(String, Vec<u128>)> = Vec::new();
    let mut id: usize = 0;
    while id < statuses.len()
        invariant
            id <= statuses.len(),
            crate::rerun::statuses_match(experiment, statuses@),
            crate::rerun::run_programs_valid(experiment),
            groups_times(experiment, statuses@, completions_view(c@), id as nat),
        decreases statuses.len() - id,
    {
        let ghost before = completions_view(c@);
        let time = match get_completion_time(statuses[id].fs_status.completion) {
            Ok((s, n)) => Some((s as u128) * 1_000_000_000 + (n as u128)),
            Err(_) => None,
        };
        assert(time == completion_nanos(statuses@[id as int]));
        match time {
            None => {
                proof {
                    assert forall|k: int| 0 <= k < before.len() implies #[trigger] before[k].1.to_multiset()
                        == times_of(experiment, statuses@, before[k].0, (id + 1) as nat).to_multiset() && before[k].1.len() > 0 by {
                        lemma_times_of_other(experiment, statuses@, before[k].0, id as nat);
                    }
                }
            },
            Some(t) => {
                let name = &experiment.programs[experiment.runs[id].program].name;
                assert(name@ == run_program_name(experiment, id as int));
                let mut k: usize = 0;
                while k < c.len() && !c[k].0.eq(name)
                    invariant
                        k <= c.len(),
                        before == completions_view(c@),
                        forall|q: int| 0 <= q < k ==> #[trigger] before[q].0 != name@,
                    decreases c.len() - k,
                {
                    k = k + 1;
                }
                if k < c.len() {
                    let (n0, mut times) = c.remove(k);
                    times.push(t);
                    c.insert(k, (n0, times));
                    proof {
                        broadcast use vstd::seq_lib::to_multiset_build;
                        assert(completions_view(c@) == before.update(k as int, (name@, before[k as int].1.push(t))));
                        assert forall|q: int| 0 <= q < c.len() implies #[trigger] completions_view(c@)[q].1.to_multiset()
                            == times_of(experiment, statuses@, completions_view(c@)[q].0, (id + 1) as nat).to_multiset()
                            && completions_view(c@)[q].1.len() > 0 by {
                            if q != k {
                                lemma_times_of_other(experiment, statuses@, before[q].0, id as nat);
                            } else {
                                assert(before[k as int].0 == name@);
                                assert(times_of(experiment, statuses@, name@, (id + 1) as nat) == times_of(experiment, statuses@, name@, id as nat).push(t));
                                vstd::seq_lib::to_multiset_build(times_of(experiment, statuses@, name@, id as nat), t);
                                vstd::seq_lib::to_multiset_build(before[k as int].1, t);
                            }
                        }
                    }
                } else {
                    let mut times: Vec<u128> = Vec::new();
                    times.push(t);
                    c.push((name.clone(), times));
                    proof {
                        broadcast use vstd::seq_lib::to_multiset_build;
                        assert(completions_view(c@) == before.push((name@, seq![t])));
                        assert(times_of(experiment, statuses@, name@, id as nat).len() == 0) by {
                            lemma_times_of_absent(experiment, statuses@, name@, id as nat, before);
                        }
                        assert(times_of(experiment, statuses@, name@, id as nat) =~= Seq::<u128>::empty());
                        assert(seq![t] =~= Seq::<u128>::empty().push(t));
                        assert forall|q: int| 0 <= q < c.len() implies #[trigger] completions_view(c@)[q].1.to_multiset()
                            == times_of(experiment, statuses@, completions_view(c@)[q].0, (id + 1) as nat).to_multiset()
                            && completions_view(c@)[q].1.len() > 0 by {
                            if q < before.len() {
                                lemma_times_of_other(experiment, statuses@, before[q].0, id as nat);
                            }
                        }
                    }
                }
                proof {
                    assert(completions_view(c@)[k as int].0 == name@);
                }
            },
        }
        proof {
            let cv = completions_view(c@);
            assert forall|j: int| 0 <= j < id + 1 && completion_nanos(statuses@[j]) is Some implies exists|q: int| 0 <= q < cv.len() && #[trigger] cv[q].0 == run_program_name(experiment, j) by {
                if j < id {
                    let q = choose|q: int| 0 <= q < before.len() && #[trigger] before[q].0 == run_program_name(experiment, j);
                    assert(cv[q].0 == before[q].0);
                }
            }
            assert forall|a: int, b: int| 0 <= a < b < cv.len() implies cv[a].0 != cv[b].0 by {
                if b < before.len() {
                    assert(cv[a].0 == before[a].0);
                    assert(cv[b].0 == before[b].0);
                }
            }
        }
        id = id + 1;
    }
    let out = sort_each(&c);
    proof {
        assert forall|q: int| 0 <= q < out.len() implies #[trigger] completions_view(out@)[q].0 == completions_view(c@)[q].0
            && completions_view(out@)[q].1.to_multiset() == completions_view(c@)[q].1.to_multiset()
            && completions_view(out@)[q].1.len() == completions_view(c@)[q].1.len() && sorted_u128(out@[q].1@) by {
            assert(out@[q].0@ == c@[q].0@);
        }
    }
    proof {
        let ov = completions_view(out@);
        let cv = completions_view(c@);
        assert forall|j: int| 0 <= j < statuses.len() && completion_nanos(statuses@[j]) is Some implies exists|q: int| 0 <= q < ov.len() && #[trigger] ov[q].0 == run_program_name(experiment, j) by {
            let q = choose|q: int| 0 <= q < cv.len() && #[trigger] cv[q].0 == run_program_name(experiment, j);
            assert(ov[q].0 == cv[q].0);
        }
        assert forall|a: int, b: int| 0 <= a < b < ov.len() implies ov[a].0 != ov[b].0 by {
            assert(ov[a].0 == cv[a].0);
            assert(ov[b].0 == cv[b].0);
        }
        assert forall|q: int| 0 <= q < ov.len() implies #[trigger] ov[q].1.to_multiset() == times_of(experiment, statuses@, ov[q].0, statuses.len() as nat).to_multiset()
            && ov[q].1.len() > 0 by {
            assert(cv[q].1.to_multiset() == times_of(experiment, statuses@, cv[q].0, statuses.len() as nat).to_multiset());
        }
    }
    out
}


/// Each group's times in increasing order; names, and the times as multisets, kept.
fn sort_each(c: &Vec<(String, Vec<u128>)>) -> (out: Vec<(String, Vec<u128>)>)
    ensures
        out.len() == c.len(),
        forall|q: int| #![trigger out@[q]] 0 <= q < c.len() ==> out@[q].0@ == c@[q].0@ && out@[q].1@.to_multiset()
            == c@[q].1@.to_multiset() && out@[q].1@.len() == c@[q].1@.len() && sorted_u128(out@[q].1@),
{
    let mut out: Vec<(String, Vec<u128>)> = Vec::new();
    let mut k: usize = 0;
    while k < c.len()
        invariant
            k <= c.len(),
            out.len() == k,
            forall|q: int| #![trigger out@[q]] 0 <= q < k ==> out@[q].0@ == c@[q].0@ && out@[q].1@.to_multiset()
                == c@[q].1@.to_multiset() && out@[q].1@.len() == c@[q].1@.len() && sorted_u128(out@[q].1@),
        decreases c.len() - k,
    {
        let sorted = sort_times(&c[k].1);
        proof {
            vstd::seq_lib::to_multiset_len(sorted@);
            vstd::seq_lib::to_multiset_len(c@[k as int].1@);
        }
        let nm = c[k].0.clone();
        let ghost old_out = out@;
        out.push((nm, sorted));
        assert forall|q: int| #![trigger out@[q]] 0 <= q < k + 1 implies out@[q].0@ == c@[q].0@ && out@[q].1@.to_multiset()
            == c@[q].1@.to_multiset() && out@[q].1@.len() == c@[q].1@.len() && sorted_u128(out@[q].1@) by {
            if q < k {
                assert(out@[q] == old_out[q]);
            }
        }
        k = k + 1;
    }
    out
}

proof fn lemma_times_of_absent(
    exp: &crate::model::Experiment,
    statuses: Seq<crate::status::Status>,
    name: Seq<char>,
    n: nat,
    c: Seq<(Seq<char>, Seq<u128>)>,
)
    requires
        n <= statuses.len(),
        forall|j: int| 0 <= j < n && completion_nanos(statuses[j]) is Some ==> exists|k: int| 0 <= k < c.len() && #[trigger] c[k].0 == run_program_name(exp, j),
        forall|k: int| 0 <= k < c.len() ==> #[trigger] c[k].0 != name,
    ensures
        times_of(exp, statuses, name, n).len() == 0,
    decreases n,
{
    if n > 0 {
        lemma_times_of_absent(exp, statuses, name, (n - 1) as nat, c);
        if run_program_name(exp, n - 1) == name && completion_nanos(statuses[n - 1]) is Some {
            let k = choose|k: int| 0 <= k < c.len() && #[trigger] c[k].0 == run_program_name(exp, n - 1);
            assert(c[k].0 != name);
        }
    }
}

} // verus!

verus! {

/// The largest of the first `n` times of `v`, with `acc` as a lower start.
pub open spec fn max_of(v: Seq<u128>, n: nat, acc: Option<u128>) -> Option<u128>
    decreases n,
{
    if n == 0 {
        acc
    } else {
        let m = max_of(v, (n - 1) as nat, acc);
        match m {
            None => Some(v[n - 1]),
            Some(x) => if x < v[n - 1] {
                Some(v[n - 1])
            } else {
                Some(x)
            },
        }
    }
}

/// The largest time of the first `n` programs.
pub open spec fn all_max(c: Seq<(Seq<char>, Seq<u128>)>, n: nat) -> Option<u128>
    decreases n,
{
    if n == 0 {
        None
    } else {
        max_of(c[n - 1].1, c[n - 1].1.len(), all_max(c, (n - 1) as nat))
    }
}

/// The largest number of times of the first `n` programs.
pub open spec fn max_len(c: Seq<(Seq<char>, Seq<u128>)>, n: nat) -> nat
    decreases n,
{
    if n == 0 {
        0
    } else {
        let m = max_len(c, (n - 1) as nat);
        if m < c[n - 1].1.len() {
            c[n - 1].1.len()
        } else {
            m
        }
    }
}

/// How many of the first `n` times of `v` are at most `t`.
pub open spec fn count_le(v: Seq<u128>, t: u128, n: nat) -> nat
    decreases n,
{
    if n == 0 {
        0
    } else {
        count_le(v, t, (n - 1) as nat) + if v[n - 1] <= t {
            1nat
        } else {
            0nat
        }
    }
}

/// The cactus curve of one program up to time `m`: for each time from 0 to
/// `m`, how many of its runs had finished by then.
pub open spec fn curve(v: Seq<u128>, m: u128) -> Seq<(u128, u128)> {
    Seq::new((m + 1) as nat, |t: int| (t as u128, count_le(v, t as u128, v.len()) as u128))
}

/// The plot data: the largest time, the largest number of runs of one
/// program, and the curve of each program; all zero and empty where there
/// are no times.
pub open spec fn plot_data(c: Seq<(Seq<char>, Seq<u128>)>) -> (u128, u128, Seq<(Seq<char>, Seq<(u128, u128)>)>) {
    match all_max(c, c.len()) {
        None => (0, 0, Seq::empty()),
        Some(m) => (m, max_len(c, c.len()) as u128, c.map_values(|e: (Seq<char>, Seq<u128>)| (e.0, curve(e.1, m)))),
    }
}

/// The largest number of times among the first `n` programs is at least the
/// number of times of each of them, and is the number of times of one of
/// them where there is any program.
pub proof fn lemma_max_len_is_most(c: Seq<(Seq<char>, Seq<u128>)>, n: nat)
    requires
        n <= c.len(),
    ensures
        forall|i: int| 0 <= i < n ==> (#[trigger] c[i]).1.len() <= max_len(c, n),
        n > 0 ==> exists|i: int| 0 <= i < n && max_len(c, n) == (#[trigger] c[i]).1.len(),
    decreases n,
{
    if n > 0 {
        lemma_max_len_is_most(c, (n - 1) as nat);
        if n == 1 {
            assert(max_len(c, 1) == c[0].1.len());
        } else {
            let m = max_len(c, (n - 1) as nat);
            if m < c[n - 1].1.len() {
                assert(max_len(c, n) == c[n - 1].1.len());
            } else {
                let i = choose|i: int| 0 <= i < n - 1 && m == (#[trigger] c[i]).1.len();
                assert(max_len(c, n) == c[i].1.len());
            }
        }
    }
}

proof fn lemma_max_of_some(v: Seq<u128>, n: nat, acc: Option<u128>)
    requires
        n > 0 || acc is Some,
    ensures
        max_of(v, n, acc) is Some,
    decreases n,
{
    if n > 1 {
        lemma_max_of_some(v, (n - 1) as nat, acc);
    }
}

/// Where the first `n` programs have no largest time, none of them has any
/// time.
pub proof fn lemma_all_max_none(c: Seq<(Seq<char>, Seq<u128>)>, n: nat)
    requires
        n <= c.len(),
        all_max(c, n) is None,
    ensures
        forall|i: int| 0 <= i < n ==> (#[trigger] c[i]).1.len() == 0,
    decreases n,
{
    if n > 0 {
        let prev = all_max(c, (n - 1) as nat);
        if prev is Some || c[n - 1].1.len() > 0 {
            lemma_max_of_some(c[n - 1].1, c[n - 1].1.len(), prev);
        }
        lemma_all_max_none(c, (n - 1) as nat);
    }
}

proof fn lemma_max_of_bounds(v: Seq<u128>, n: nat, acc: Option<u128>)
    requires
        n <= v.len(),
    ensures
        match max_of(v, n, acc) {
            Some(m) => {
                &&& forall|j: int| 0 <= j < n ==> #[trigger] v[j] <= m
                &&& (acc matches Some(a) ==> a <= m)
                &&& (acc == Some(m) || exists|j: int| 0 <= j < n && #[trigger] v[j] == m)
            },
            None => acc is None && n == 0,
        },
    decreases n,
{
    if n > 0 {
        lemma_max_of_bounds(v, (n - 1) as nat, acc);
        let prev = max_of(v, (n - 1) as nat, acc);
        let m = max_of(v, n, acc).unwrap();
        assert(v[n - 1] <= m);
        if m == v[n - 1] {
            assert(exists|j: int| 0 <= j < n && #[trigger] v[j] == m);
        } else {
            assert(prev == Some(m));
            if acc != Some(m) {
                let j = choose|j: int| 0 <= j < n - 1 && #[trigger] v[j] == m;
                assert(0 <= j < n && v[j] == m);
            }
        }
    }
}

/// Where the first `n` programs have times, their largest time is at least
/// each of their times and is one of them.
pub proof fn lemma_all_max_is_largest(c: Seq<(Seq<char>, Seq<u128>)>, n: nat)
    requires
        n <= c.len(),
    ensures
        all_max(c, n) matches Some(m) ==> {
            &&& forall|i: int, j: int| 0 <= i < n && 0 <= j < c[i].1.len() ==> #[trigger] c[i].1[j] <= m
            &&& exists|i: int, j: int| 0 <= i < n && 0 <= j < c[i].1.len() && #[trigger] c[i].1[j] == m
        },
    decreases n,
{
    if n > 0 {
        lemma_all_max_is_largest(c, (n - 1) as nat);
        let prev = all_max(c, (n - 1) as nat);
        let v = c[n - 1].1;
        lemma_max_of_bounds(v, v.len(), prev);
        if let Some(m) = all_max(c, n) {
            assert forall|i: int, j: int| 0 <= i < n && 0 <= j < c[i].1.len() implies #[trigger] c[i].1[j] <= m by {
                if i == n - 1 {
                    assert(v[j] <= m);
                } else {
                    match prev {
                        Some(p) => assert(c[i].1[j] <= p),
                        None => lemma_all_max_none(c, (n - 1) as nat),
                    }
                }
            }
            if prev == Some(m) {
                let (i, j) = choose|i: int, j: int| 0 <= i < n - 1 && 0 <= j < c[i].1.len() && #[trigger] c[i].1[j] == m;
                assert(0 <= i < n && c[i].1[j] == m);
            } else {
                let j = choose|j: int| 0 <= j < v.len() && #[trigger] v[j] == m;
                assert(c[n - 1].1[j] == m);
            }
        }
    }
}

proof fn lemma_count_le_bound(v: Seq<u128>, t: u128, n: nat)
    ensures
        count_le(v, t, n) <= n,
    decreases n,
{
    if n > 0 {
        lemma_count_le_bound(v, t, (n - 1) as nat);
    }
}

fn count_upto(v: &Vec<u128>, t: u128) -> (r: u128)
    ensures
        r == count_le(v@, t, v.len() as nat),
{
    let mut r: u128 = 0;
    let mut i: usize = 0;
    while i < v.len()
        invariant
            i <= v.len(),
            r == count_le(v@, t, i as nat),
        decreases v.len() - i,
    {
        proof {
            lemma_count_le_bound(v@, t, i as nat);
        }
        if v[i] <= t {
            r = r + 1;
        }
        i = i + 1;
    }
    r
}

fn curve_of(v: &Vec<u128>, m: u128) -> (r: Vec<(u128, u128)>)
    ensures
        r@ == curve(v@, m),
{
    let mut r: Vec<(u128, u128)> = Vec::new();
    let mut t: u128 = 0;
    loop
        invariant_except_break
            t <= m,
            r.len() == t,
            forall|q: int| 0 <= q < t ==> #[trigger] r@[q] == curve(v@, m)[q],
        ensures
            r.len() == m + 1,
            forall|q: int| 0 <= q <= m ==> #[trigger] r@[q] == curve(v@, m)[q],
        decreases m - t,
    {
        let n = count_upto(v, t);
        r.push((t, n));
        if t == m {
            break;
        }
        t = t + 1;
    }
    assert(r@ =~= curve(v@, m));
    r
}

fn max_into(v: &Vec<u128>, acc: Option<u128>) -> (r: Option<u128>)
    ensures
        r == max_of(v@, v.len() as nat, acc),
{
    let mut m = acc;
    let mut i: usize = 0;
    while i < v.len()
        invariant
            i <= v.len(),
            m == max_of(v@, i as nat, acc),
        decreases v.len() - i,
    {
        m = match m {
            None => Some(v[i]),
            Some(x) => if x < v[i] {
                Some(v[i])
            } else {
                Some(x)
            },
        };
        i = i + 1;
    }
    m
}

/// Gets the data of the cactus plot from the completion times of each program.
pub fn get_data_for_plot(completions: &Vec<(String, Vec<u128>)>) -> (r: (u128, u128, Vec<(String, Vec<(u128, u128)>)>))
    ensures
        ({
            let p = plot_data(completions_view(completions@));
            &&& r.0 == p.0
            &&& r.1 == p.1
            &&& r.2@.map_values(|e: (String, Vec<(u128, u128)>)| (e.0@, e.1@)) == p.2
        }),
        forall|i: int| 0 <= i < completions.len() ==> (#[trigger] completions@[i]).1.len() <= r.1,
        completions.len() > 0 ==> exists|i: int| 0 <= i < completions.len() && r.1 == (#[trigger] completions@[i]).1.len(),
        forall|i: int, j: int| 0 <= i < completions.len() && 0 <= j < completions@[i].1.len() ==> #[trigger] completions@[i].1@[j] <= r.0,
        (exists|i: int, j: int| 0 <= i < completions.len() && 0 <= j < completions@[i].1.len() && #[trigger] completions@[i].1@[j] == r.0)
            || (r.0 == 0 && forall|i: int| 0 <= i < completions.len() ==> (#[trigger] completions@[i]).1.len() == 0),
{
    let ghost cv = completions_view(completions@);
    let mut top: Option<u128> = None;
    let mut most: usize = 0;
    let mut i: usize = 0;
    while i < completions.len()
        invariant
            i <= completions.len(),
            cv == completions_view(completions@),
            top == all_max(cv, i as nat),
            most == max_len(cv, i as nat),
        decreases completions.len() - i,
    {
        assert(cv[i as int].1 == completions@[i as int].1@);
        top = max_into(&completions[i].1, top);
        if most < completions[i].1.len() {
            most = completions[i].1.len();
        }
        i = i + 1;
    }
    let mut data: Vec<(String, Vec<(u128, u128)>)> = Vec::new();
    match top {
        None => {
            assert(data@.map_values(|e: (String, Vec<(u128, u128)>)| (e.0@, e.1@)) =~= Seq::<(Seq<char>, Seq<(u128, u128)>)>::empty());
            proof {
                lemma_all_max_none(cv, cv.len());
                assert forall|i: int| 0 <= i < completions.len() implies (#[trigger] completions@[i]).1.len() == 0 by {
                    assert(cv[i].1 == completions@[i].1@);
                }
                if completions.len() > 0 {
                    assert(completions@[0].1.len() == 0);
                }
            }
            (0, 0, data)
        },
        Some(m) => {
            let mut k: usize = 0;
            while k < completions.len()
                invariant
                    k <= completions.len(),
                    cv == completions_view(completions@),
                    data.len() == k,
                    forall|q: int| #![trigger data@[q]] 0 <= q < k ==> data@[q].0@ == cv[q].0 && data@[q].1@ == curve(cv[q].1, m),
                decreases completions.len() - k,
            {
                let c = curve_of(&completions[k].1, m);
                let nm = completions[k].0.clone();
                let ghost old_data = data@;
                assert(cv[k as int] == (completions@[k as int].0@, completions@[k as int].1@));
                data.push((nm, c));
                assert forall|q: int| #![trigger data@[q]] 0 <= q < k + 1 implies data@[q].0@ == cv[q].0 && data@[q].1@ == curve(cv[q].1, m) by {
                    if q < k {
                        assert(data@[q] == old_data[q]);
                    }
                }
                k = k + 1;
            }
            assert(data@.map_values(|e: (String, Vec<(u128, u128)>)| (e.0@, e.1@)) =~= cv.map_values(
                |e: (Seq<char>, Seq<u128>)| (e.0, curve(e.1, m)),
            ));
            proof {
                lemma_all_max_is_largest(cv, cv.len());
                assert forall|i: int, j: int| 0 <= i < completions.len() && 0 <= j < completions@[i].1.len() implies #[trigger] completions@[i].1@[j] <= m by {
                    assert(cv[i].1 == completions@[i].1@);
                }
                let (i0, j0) = choose|i: int, j: int| 0 <= i < cv.len() && 0 <= j < cv[i].1.len() && #[trigger] cv[i].1[j] == m;
                assert(cv[i0].1 == completions@[i0].1@);
                assert(completions@[i0].1@[j0] == m);
                lemma_max_len_is_most(cv, cv.len());
                assert forall|i: int| 0 <= i < completions.len() implies (#[trigger] completions@[i]).1.len() <= most by {
                    assert(cv[i].1 == completions@[i].1@);
                }
                if completions.len() > 0 {
                    let j = choose|j: int| 0 <= j < cv.len() && max_len(cv, cv.len()) == (#[trigger] cv[j]).1.len();
                    assert(cv[j].1 == completions@[j].1@);
                    assert(most as u128 == completions@[j].1.len());
                }
            }
            (m, most as u128, data)
        },
    }
}

} // verus!

verus! {

/// The header of the metrics table.
pub open spec fn analysis_header() -> Seq<Seq<char>> {
    seq![
        "id"@,
        "file system status"@,
        "wall micros"@,
        "exit code"@,
        "RUsage"@,
        "afterscript output"@,
        "slurm completion"@,
    ]
}

/// What the afterscript cell reads of an afterscript's state: its label
/// once it succeeded, nothing otherwise.
pub open spec fn afterscript_of(c: Option<crate::status::PostprocessCompletion>) -> Option<Option<String>> {
    match c {
        Some(crate::status::PostprocessCompletion::Success(l)) => Some(l),
        _ => None,
    }
}

/// The row of the metrics table for run `id`.
pub open spec fn analysis_row(id: usize, s: crate::status::Status) -> Seq<Seq<char>> {
    fs_cells(id, s.fs_status) + seq![afterscript_cell(afterscript_of(s.fs_status.afterscript_completion))] + seq![
        match s.slurm_status {
            Some(inner) => slurm_state_name(inner.completion),
            None => "..."@,
        },
    ]
}

fn append_cells(out: &mut Vec<String>, more: Vec<String>)
    ensures
        final(out)@.map_values(|s: String| s@) == old(out)@.map_values(|s: String| s@) + more@.map_values(|s: String| s@),
{
    let ghost start = out@.map_values(|s: String| s@);
    let mut i: usize = 0;
    while i < more.len()
        invariant
            i <= more.len(),
            out@.map_values(|s: String| s@) == start + more@.map_values(|s: String| s@).take(i as int),
        decreases more.len() - i,
    {
        let ghost before = out@.map_values(|s: String| s@);
        let c = more[i].clone();
        out.push(c);
        assert(out@.map_values(|s: String| s@) =~= before.push(c@));
        assert(more@.map_values(|s: String| s@).take(i + 1) =~= more@.map_values(|s: String| s@).take(i as int).push(c@));
        i = i + 1;
    }
    assert(more@.map_values(|s: String| s@).take(more.len() as int) =~= more@.map_values(|s: String| s@));
}

/// The metrics table of an experiment: the header, then one row per run
/// (runs by id) with its state, measurements, afterscript output and Slurm state.
pub fn analysis_table(statuses: &Vec<crate::status::Status>) -> (t: Vec<Vec<String>>)
    requires
        forall|k: int| 0 <= k < statuses.len() ==> fs_status_ok(#[trigger] statuses@[k].fs_status),
    ensures
        t.len() == statuses.len() + 1,
        t@[0]@.map_values(|s: String| s@) == analysis_header(),
        forall|k: int| 0 <= k < statuses.len() ==> (#[trigger] t@[k + 1])@.map_values(|s: String| s@) == analysis_row(k as usize, statuses@[k]),
{
    let mut header: Vec<String> = Vec::new();
    header.push(String::from_str("id"));
    header.push(String::from_str("file system status"));
    header.push(String::from_str("wall micros"));
    header.push(String::from_str("exit code"));
    header.push(String::from_str("RUsage"));
    header.push(String::from_str("afterscript output"));
    header.push(String::from_str("slurm completion"));
    assert(header@.map_values(|s: String| s@) =~= analysis_header());
    let mut t: Vec<Vec<String>> = Vec::new();
    t.push(header);
    let mut id: usize = 0;
    while id < statuses.len()
        invariant
            id <= statuses.len(),
            forall|k: int| 0 <= k < statuses.len() ==> fs_status_ok(#[trigger] statuses@[k].fs_status),
            t.len() == id + 1,
            t@[0]@.map_values(|s: String| s@) == analysis_header(),
            forall|k: int| 0 <= k < id ==> (#[trigger] t@[k + 1])@.map_values(|s: String| s@) == analysis_row(k as usize, statuses@[k]),
        decreases statuses.len() - id,
    {
        let status = &statuses[id];
        let mut record = get_fs_status_info(id, &status.fs_status);
        let after: Option<Option<String>> = match &status.fs_status.afterscript_completion {
            Some(crate::status::PostprocessCompletion::Success(l)) => Some(crate::plan::clone_opt_string(l)),
            _ => None,
        };
        let a = get_afterscript_output_info(&after);
        assert(afterscript_cell(after) == afterscript_cell(afterscript_of(status.fs_status.afterscript_completion)));
        append_cells(&mut record, a);
        let sl = get_slurm_status_info(&status.slurm_status);
        append_cells(&mut record, sl);
        let ghost old_t = t@;
        t.push(record);
        assert forall|k: int| 0 <= k < id + 1 implies (#[trigger] t@[k + 1])@.map_values(|s: String| s@) == analysis_row(k as usize, statuses@[k]) by {
            if k < id {
                assert(t@[k + 1] == old_t[k + 1]);
            }
        }
        id = id + 1;
    }
    t
}

} // verus!

verus! {

proof fn lemma_count_le_mono(v: Seq<u128>, s: u128, t: u128, n: nat)
    requires
        s <= t,
    ensures
        count_le(v, s, n) <= count_le(v, t, n),
    decreases n,
{
    if n > 0 {
        lemma_count_le_mono(v, s, t, (n - 1) as nat);
    }
}

proof fn lemma_count_le_all(v: Seq<u128>, t: u128, n: nat)
    requires
        n <= v.len(),
        forall|i: int| 0 <= i < v.len() ==> #[trigger] v[i] <= t,
    ensures
        count_le(v, t, n) == n,
    decreases n,
{
    if n > 0 {
        lemma_count_le_all(v, t, (n - 1) as nat);
    }
}

/// A cactus curve never falls, and by the latest time it has counted every
/// run of the program.
pub proof fn lemma_curve_counts_all(v: Seq<u128>, m: u128)
    requires
        forall|i: int| 0 <= i < v.len() ==> #[trigger] v[i] <= m,
        v.len() <= u128::MAX,
    ensures
        forall|a: int, b: int| 0 <= a <= b <= m ==> #[trigger] curve(v, m)[a].1 <= #[trigger] curve(v, m)[b].1,
        curve(v, m)[m as int] == (m, v.len() as u128),
{
    assert forall|a: int, b: int| 0 <= a <= b <= m implies #[trigger] curve(v, m)[a].1 <= #[trigger] curve(v, m)[b].1 by {
        lemma_count_le_mono(v, a as u128, b as u128, v.len());
        lemma_count_le_bound(v, a as u128, v.len());
        lemma_count_le_bound(v, b as u128, v.len());
        assert(curve(v, m)[a] == (a as u128, count_le(v, a as u128, v.len()) as u128));
        assert(curve(v, m)[b] == (b as u128, count_le(v, b as u128, v.len()) as u128));
    }
    lemma_count_le_all(v, m, v.len());
}

} // verus!
