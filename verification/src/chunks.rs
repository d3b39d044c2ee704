//! Splitting the runs of an experiment into chunks: Slurm arrays of jobs
//! with common resource limits.
use vstd::prelude::*;

use crate::model::limits_less;
use crate::model::limits_lt;
use crate::model::Experiment;
use crate::model::ResourceLimits;
use crate::status::Status;

verus! {

/// A job: the runs (by id) that one array task executes.
#[derive(Debug, Clone, PartialEq, Eq)]
pub struct Job(pub Vec<usize>);

/// A chunk: a Slurm array of jobs with common resource limits.
#[derive(Debug, Clone, PartialEq, Eq)]
pub struct Chunk {
    /// The jobs of this chunk.
    pub runs: Vec<Job>,
    /// The resource limits of this chunk.
    resource_limits: ResourceLimits,
}

/// A chunk as plain values: its jobs' run ids and its limits.
pub type ChunkView = (Seq<Seq<usize>>, ResourceLimits);

impl View for Chunk {
    type V = ChunkView;

    closed spec fn view(&self) -> ChunkView {
        (jobs_view(self.runs@), self.resource_limits)
    }
}

/// The run ids of each job.
pub open spec fn jobs_view(v: Seq<Job>) -> Seq<Seq<usize>> {
    v.map_values(|j: Job| j.0@)
}

/// The chunk order: by number of jobs, then by resource limits.
pub open spec fn chunk_less(a: ChunkView, b: ChunkView) -> bool {
    a.0.len() < b.0.len() || (a.0.len() == b.0.len() && limits_less(a.1, b.1))
}

impl Chunk {
    /// Creates a chunk of jobs with common resource limits.
    pub fn new(runs: Vec<Job>, resource_limits: ResourceLimits) -> (c: Chunk)
        ensures
            c@.0 == jobs_view(runs@),
            c@.1 == resource_limits,
    {
        Chunk { runs, resource_limits }
    }

    /// The jobs of the chunk.
    pub fn jobs(&self) -> (r: &Vec<Job>)
        ensures
            jobs_view(r@) == self@.0,
    {
        &self.runs
    }

    /// The resource limits of the chunk.
    pub fn limits(&self) -> (l: ResourceLimits)
        ensures
            l == self@.1,
    {
        self.resource_limits
    }

    /// Whether this chunk comes strictly before `other`: it has fewer jobs, or as
    /// many jobs and smaller resource limits.
    pub fn is_before(&self, other: &Chunk) -> (b: bool)
        ensures
            b == chunk_less(self@, other@),
    {
        if self.runs.len() != other.runs.len() {
            self.runs.len() < other.runs.len()
        } else {
            limits_lt(&self.resource_limits, &other.resource_limits)
        }
    }
}

/// Why no chunks could be made.
#[derive(Debug, Clone, Copy, PartialEq, Eq, Structural)]
pub enum ChunkError {
    /// All available runs have already been scheduled.
    NoRunsLeft,
}

/// Whether run `i` can still be scheduled: Slurm does not know it, it has not
/// finished, it has no Slurm id, and its parent (if any) has finished.
pub open spec fn is_unscheduled(exp: &Experiment, status: Seq<Status>, i: int) -> bool {
    &&& !status[i].scheduled()
    &&& !status[i].completed()
    &&& exp.runs@[i].slurm_id is None
    &&& !(exp.runs@[i].parent matches Some(d) && !status[d as int].completed())
}

/// The runs among the first `k` that can still be scheduled, in order.
pub open spec fn unscheduled_upto(exp: &Experiment, status: Seq<Status>, k: nat) -> Seq<usize>
    decreases k,
{
    if k == 0 {
        Seq::empty()
    } else {
        let rest = unscheduled_upto(exp, status, (k - 1) as nat);
        if is_unscheduled(exp, status, k - 1) {
            rest.push((k - 1) as usize)
        } else {
            rest
        }
    }
}

/// Whether the statuses cover the runs and every parent is a run.
pub open spec fn status_covers(exp: &Experiment, status: Seq<Status>) -> bool {
    &&& status.len() == exp.runs.len()
    &&& forall|i: int| 0 <= i < exp.runs.len() ==> (#[trigger] exp.runs@[i].parent matches Some(d) ==> d < exp.runs.len())
}

/// The runs that can still be scheduled, in order of id.
pub fn unscheduled(exp: &Experiment, status: &Vec<Status>) -> (r: Vec<usize>)
    requires
        status_covers(exp, status@),
    ensures
        r@ == unscheduled_upto(exp, status@, exp.runs.len() as nat),
        forall|k: int| 0 <= k < r.len() ==> #[trigger] r@[k] < exp.runs.len() && exp.runs@[r@[k] as int].slurm_id is None
            && !status@[r@[k] as int].scheduled() && !status@[r@[k] as int].completed(),
{
    proof {
        lemma_unscheduled_exactly(exp, status@, exp.runs.len() as nat);
        assert forall|k: int| 0 <= k < unscheduled_upto(exp, status@, exp.runs.len() as nat).len() implies unscheduled_upto(exp, status@, exp.runs.len() as nat).contains(
            #[trigger] unscheduled_upto(exp, status@, exp.runs.len() as nat)[k],
        ) by {}
    }
    let mut r: Vec<usize> = Vec::new();
    let mut i: usize = 0;
    while i < exp.runs.len()
        invariant
            i <= exp.runs.len(),
            status_covers(exp, status@),
            r@ == unscheduled_upto(exp, status@, i as nat),
        decreases exp.runs.len() - i,
    {
        let run = &exp.runs[i];
        let parent_done = match run.parent {
            Some(d) => status[d].is_completed(),
            None => true,
        };
        if !status[i].is_scheduled() && !status[i].is_completed() && run.slurm_id.is_none() && parent_done {
            r.push(i);
        }
        i = i + 1;
    }
    r
}

/// Runs with equal limits that stand next to each other, grouped (as `slice::chunk_by`).
pub open spec fn groups(p: Seq<(usize, ResourceLimits)>) -> Seq<Seq<(usize, ResourceLimits)>>
    decreases p.len(),
{
    if p.len() == 0 {
        Seq::empty()
    } else {
        let g = groups(p.drop_last());
        if g.len() > 0 && g.last().last().1 == p.last().1 {
            g.update(g.len() - 1, g.last().push(p.last()))
        } else {
            g.push(seq![p.last()])
        }
    }
}

/// The run ids of `ids`, each with the limits of its run.
pub open spec fn with_limits(exp: &Experiment, ids: Seq<usize>) -> Seq<(usize, ResourceLimits)> {
    ids.map_values(|i: usize| (i, exp.runs@[i as int].limits))
}

/// The full jobs of `rpj` runs each, in order, and the runs left over (as `slice::chunks_exact`).
pub open spec fn split_jobs(ids: Seq<usize>, rpj: nat) -> (Seq<Seq<usize>>, Seq<usize>)
    decreases ids.len(),
{
    if rpj == 0 || ids.len() < rpj {
        (Seq::empty(), ids)
    } else {
        let (js, rem) = split_jobs(ids.skip(rpj as int), rpj);
        (seq![ids.take(rpj as int)] + js, rem)
    }
}

/// Jobs packed into arrays of at most `cl` jobs, in order (as `slice::chunks`).
pub open spec fn pack(jobs: Seq<Seq<usize>>, cl: nat) -> Seq<Seq<Seq<usize>>>
    decreases jobs.len(),
{
    if jobs.len() == 0 || cl == 0 {
        Seq::empty()
    } else if jobs.len() <= cl {
        seq![jobs]
    } else {
        seq![jobs.take(cl as int)] + pack(jobs.skip(cl as int), cl)
    }
}

/// The chunks made from one group of runs with limits `lim`: its full jobs packed
/// into arrays of at most `cl` jobs, then one chunk of the single job of the runs left.
pub open spec fn group_chunks(ids: Seq<usize>, lim: ResourceLimits, rpj: nat, cl: nat) -> Seq<ChunkView> {
    let (jobs, rem) = split_jobs(ids, rpj);
    pack(jobs, cl).map_values(|js: Seq<Seq<usize>>| (js, lim)) + seq![(seq![rem], lim)]
}

/// The chunks of every group, in order.
pub open spec fn all_chunks(gs: Seq<Seq<(usize, ResourceLimits)>>, rpj: nat, cl: nat) -> Seq<ChunkView>
    decreases gs.len(),
{
    if gs.len() == 0 {
        Seq::empty()
    } else {
        all_chunks(gs.drop_last(), rpj, cl) + group_chunks(
            gs.last().map_values(|p: (usize, ResourceLimits)| p.0),
            gs.last()[0].1,
            rpj,
            cl,
        )
    }
}

/// `s` with `x` put after every element that does not come after it in the chunk order.
pub open spec fn insert_desc(s: Seq<ChunkView>, x: ChunkView) -> Seq<ChunkView>
    decreases s.len(),
{
    if s.len() == 0 {
        seq![x]
    } else if chunk_less(s.last(), x) {
        insert_desc(s.drop_last(), x).push(s.last())
    } else {
        s.push(x)
    }
}

/// The chunks in decreasing chunk order; chunks that compare equal keep their order.
pub open spec fn sort_desc(s: Seq<ChunkView>) -> Seq<ChunkView>
    decreases s.len(),
{
    if s.len() == 0 {
        Seq::empty()
    } else {
        insert_desc(sort_desc(s.drop_last()), s.last())
    }
}

/// The groups as plain values.
pub open spec fn groups_view(gs: Seq<Vec<(usize, ResourceLimits)>>) -> Seq<Seq<(usize, ResourceLimits)>> {
    gs.map_values(|g: Vec<(usize, ResourceLimits)>| g@)
}

/// Groups the runs `ids` into stretches of neighbours with equal resource limits.
fn group_by_limits(exp: &Experiment, ids: &Vec<usize>) -> (gs: Vec<Vec<(usize, ResourceLimits)>>)
    requires
        forall|k: int| 0 <= k < ids.len() ==> #[trigger] ids@[k] < exp.runs.len(),
    ensures
        groups_view(gs@) == groups(with_limits(exp, ids@)),
{
    let ghost pairs = with_limits(exp, ids@);
    let mut gs: Vec<Vec<(usize, ResourceLimits)>> = Vec::new();
    let mut k: usize = 0;
    while k < ids.len()
        invariant
            k <= ids.len(),
            pairs == with_limits(exp, ids@),
            forall|j: int| 0 <= j < ids.len() ==> #[trigger] ids@[j] < exp.runs.len(),
            groups_view(gs@) == groups(pairs.take(k as int)),
        decreases ids.len() - k,
    {
        let id = ids[k];
        let p = (id, exp.runs[id].limits);
        assert(pairs[k as int] == p);
        assert(pairs.take(k + 1).drop_last() =~= pairs.take(k as int));
        assert(pairs.take(k + 1).last() == p);
        let ghost g = groups(pairs.take(k as int));
        let n = gs.len();
        let mut joined = false;
        if n > 0 {
            let ll = gs[n - 1].len();
            if ll > 0 && gs[n - 1][ll - 1].1 == p.1 {
                let mut last = gs.pop().unwrap();
                last.push(p);
                gs.push(last);
                joined = true;
                proof {
                    assert(groups_view(gs@) =~= g.update(g.len() - 1, g.last().push(p)));
                }
            }
        }
        if !joined {
            proof {
                if n > 0 {
                    assert(g.last() == gs@[n - 1]@);
                }
            }
            let mut fresh: Vec<(usize, ResourceLimits)> = Vec::new();
            fresh.push(p);
            gs.push(fresh);
            proof {
                assert(groups_view(gs@) =~= g.push(seq![p]));
            }
        }
        k = k + 1;
    }
    assert(pairs.take(ids.len() as int) =~= pairs);
    gs
}

proof fn lemma_split_step(ids: Seq<usize>, pos: int, rpj: nat)
    requires
        0 <= pos <= ids.len(),
        rpj > 0,
        ids.len() - pos >= rpj,
    ensures
        split_jobs(ids.skip(pos), rpj) == (
            seq![ids.subrange(pos, pos + rpj)] + split_jobs(ids.skip(pos + rpj), rpj).0,
            split_jobs(ids.skip(pos + rpj), rpj).1,
        ),
{
    assert(ids.skip(pos).skip(rpj as int) =~= ids.skip(pos + rpj));
    assert(ids.skip(pos).take(rpj as int) =~= ids.subrange(pos, pos + rpj));
}

proof fn lemma_pack_step(jobs: Seq<Seq<usize>>, pos: int, cl: nat)
    requires
        0 <= pos < jobs.len(),
        cl > 0,
    ensures
        pack(jobs.skip(pos), cl) == if jobs.len() - pos <= cl {
            seq![jobs.skip(pos)]
        } else {
            seq![jobs.subrange(pos, pos + cl)] + pack(jobs.skip(pos + cl), cl)
        },
{
    if jobs.len() - pos > cl {
        assert(jobs.skip(pos).skip(cl as int) =~= jobs.skip(pos + cl));
        assert(jobs.skip(pos).take(cl as int) =~= jobs.subrange(pos, pos + cl));
    }
}

/// A job of the runs `ids[from..to]`.
fn job_of(ids: &Vec<usize>, from: usize, to: usize) -> (j: Job)
    requires
        from <= to <= ids.len(),
    ensures
        j.0@ == ids@.subrange(from as int, to as int),
{
    let mut v: Vec<usize> = Vec::new();
    let mut i = from;
    while i < to
        invariant
            from <= i <= to <= ids.len(),
            v@ == ids@.subrange(from as int, i as int),
        decreases to - i,
    {
        v.push(ids[i]);
        i = i + 1;
        assert(v@ =~= ids@.subrange(from as int, i as int));
    }
    Job(v)
}

/// The chunks of one group of runs with common limits `lim`: the full jobs of
/// `rpj` runs packed into arrays of at most `cl` jobs, then one chunk holding the
/// single job of the runs left over (which may be empty).
fn chunks_of_group(ids: &Vec<usize>, lim: ResourceLimits, rpj: usize, cl: usize) -> (cs: Vec<Chunk>)
    requires
        rpj > 0,
        cl > 0,
    ensures
        cs@.map_values(|c: Chunk| c@) == group_chunks(ids@, lim, rpj as nat, cl as nat),
{
    let ghost split = split_jobs(ids@, rpj as nat);
    // Full jobs.
    let mut jobs: Vec<Job> = Vec::new();
    let mut pos: usize = 0;
    assert(ids@.skip(0) =~= ids@);
    while ids.len() - pos >= rpj
        invariant
            rpj > 0,
            pos <= ids.len(),
            split == split_jobs(ids@, rpj as nat),
            split == (jobs_view(jobs@) + split_jobs(ids@.skip(pos as int), rpj as nat).0, split_jobs(ids@.skip(pos as int), rpj as nat).1),
        decreases ids.len() - pos,
    {
        proof {
            lemma_split_step(ids@, pos as int, rpj as nat);
        }
        let j = job_of(ids, pos, pos + rpj);
        let ghost before = jobs_view(jobs@);
        jobs.push(j);
        assert(jobs_view(jobs@) =~= before.push(ids@.subrange(pos as int, pos + rpj)));
        assert(jobs_view(jobs@) + split_jobs(ids@.skip(pos + rpj), rpj as nat).0 =~= before + (seq![ids@.subrange(pos as int, pos + rpj)] + split_jobs(ids@.skip(pos + rpj), rpj as nat).0));
        pos = pos + rpj;
    }
    assert(split_jobs(ids@.skip(pos as int), rpj as nat) == (Seq::<Seq<usize>>::empty(), ids@.skip(pos as int)));
    assert(jobs_view(jobs@) =~= split.0);
    let rem = job_of(ids, pos, ids.len());
    assert(rem.0@ =~= split.1);
    // Pack the full jobs.
    let ghost packed = pack(split.0, cl as nat);
    let mut cs: Vec<Chunk> = Vec::new();
    let mut taken: usize = 0;
    let njobs = jobs.len();
    let ghost all_jobs = split.0;
    assert(all_jobs.skip(0) =~= all_jobs);
    assert(cs@.map_values(|c: Chunk| c@) + packed.map_values(|js: Seq<Seq<usize>>| (js, lim)) =~= packed.map_values(|js: Seq<Seq<usize>>| (js, lim)));
    while jobs.len() > 0
        invariant
            cl > 0,
            njobs == all_jobs.len(),
            taken + jobs.len() == njobs,
            jobs_view(jobs@) == all_jobs.skip(taken as int),
            packed == pack(all_jobs, cl as nat),
            cs@.map_values(|c: Chunk| c@) + pack(all_jobs.skip(taken as int), cl as nat).map_values(|js: Seq<Seq<usize>>| (js, lim))
                == packed.map_values(|js: Seq<Seq<usize>>| (js, lim)),
        decreases jobs.len(),
    {
        proof {
            lemma_pack_step(all_jobs, taken as int, cl as nat);
        }
        let take = if jobs.len() <= cl { jobs.len() } else { cl };
        let mut part: Vec<Job> = Vec::new();
        let mut i: usize = 0;
        let ghost rest_before = jobs_view(jobs@);
        while i < take
            invariant
                i <= take <= cl,
                take <= jobs.len() + i,
                rest_before.len() == jobs.len() + i,
                jobs_view(part@) == rest_before.take(i as int),
                jobs_view(jobs@) == rest_before.skip(i as int),
            decreases take - i,
        {
            let ghost jv = jobs_view(jobs@);
            let ghost pv = jobs_view(part@);
            let j = jobs.remove(0);
            assert(j.0@ == jv[0]);
            assert(jobs_view(jobs@) =~= jv.drop_first());
            part.push(j);
            assert(jobs_view(part@) =~= pv.push(jv[0]));
            i = i + 1;
            assert(jobs_view(part@) =~= rest_before.take(i as int));
            assert(jobs_view(jobs@) =~= rest_before.skip(i as int));
        }
        let ghost before = cs@.map_values(|c: Chunk| c@);
        cs.push(Chunk { runs: part, resource_limits: lim });
        proof {
            assert(cs@.map_values(|c: Chunk| c@) =~= before.push((rest_before.take(take as int), lim)));
            assert(rest_before.take(take as int) =~= if njobs - taken <= cl {
                all_jobs.skip(taken as int)
            } else {
                all_jobs.subrange(taken as int, taken + cl)
            });
            assert(all_jobs.skip(taken as int).skip(take as int) =~= all_jobs.skip(taken + take));
            if njobs - taken <= cl {
                assert(all_jobs.skip(taken + take) =~= Seq::<Seq<usize>>::empty());
            }
            let f = |js: Seq<Seq<usize>>| (js, lim);
            let tail = pack(all_jobs.skip(taken + take), cl as nat);
            assert((seq![rest_before.take(take as int)] + tail).map_values(f) =~= seq![(rest_before.take(take as int), lim)] + tail.map_values(f));
        }
        taken = taken + take;
    }
    assert(all_jobs.skip(taken as int) =~= Seq::<Seq<usize>>::empty());
    let ghost before = cs@.map_values(|c: Chunk| c@);
    let mut last_jobs: Vec<Job> = Vec::new();
    last_jobs.push(rem);
    cs.push(Chunk { runs: last_jobs, resource_limits: lim });
    proof {
        assert(jobs_view(last_jobs@) =~= seq![split.1]);
        assert(cs@.map_values(|c: Chunk| c@) =~= before + seq![(seq![split.1], lim)]);
    }
    cs
}

proof fn lemma_insert_desc(s: Seq<ChunkView>, x: ChunkView, j: int)
    requires
        0 <= j <= s.len(),
        forall|k: int| j <= k < s.len() ==> chunk_less(#[trigger] s[k], x),
        j == 0 || !chunk_less(s[j - 1], x),
    ensures
        insert_desc(s, x) == s.take(j).push(x) + s.skip(j),
    decreases s.len() - j,
{
    if s.len() == j {
        if s.len() == 0 {
            assert(s.take(j).push(x) + s.skip(j) =~= seq![x]);
        } else {
            assert(s.take(j) =~= s);
            assert(s.take(j).push(x) + s.skip(j) =~= s.push(x));
        }
    } else {
        let t = s.drop_last();
        assert forall|k: int| j <= k < t.len() implies chunk_less(#[trigger] t[k], x) by {
            assert(t[k] == s[k]);
        }
        if j > 0 {
            assert(t[j - 1] == s[j - 1]);
        }
        lemma_insert_desc(t, x, j);
        assert(s.take(j).push(x) + s.skip(j) =~= (t.take(j).push(x) + t.skip(j)).push(s.last()));
    }
}

/// Puts `x` into the decreasingly ordered `sorted`, after every chunk that does not come after it.
fn insert_sorted(sorted: &mut Vec<Chunk>, x: Chunk)
    ensures
        final(sorted)@.map_values(|c: Chunk| c@) == insert_desc(old(sorted)@.map_values(|c: Chunk| c@), x@),
{
    let ghost sv = sorted@.map_values(|c: Chunk| c@);
    let mut j = sorted.len();
    while j > 0 && sorted[j - 1].is_before(&x)
        invariant
            j <= sorted.len(),
            sv == sorted@.map_values(|c: Chunk| c@),
            forall|k: int| j <= k < sv.len() ==> chunk_less(#[trigger] sv[k], x@),
        decreases j,
    {
        j = j - 1;
    }
    proof {
        lemma_insert_desc(sv, x@, j as int);
    }
    sorted.insert(j, x);
    assert(sorted@.map_values(|c: Chunk| c@) =~= sv.take(j as int).push(x@) + sv.skip(j as int));
}

/// The chunks in decreasing chunk order, equal chunks in the order they came in.
fn sort_chunks_desc(chunks: Vec<Chunk>) -> (r: Vec<Chunk>)
    ensures
        r@.map_values(|c: Chunk| c@) == sort_desc(chunks@.map_values(|c: Chunk| c@)),
{
    let ghost all = chunks@.map_values(|c: Chunk| c@);
    assert(all.len() == chunks.len());
    let mut input = chunks;
    let mut sorted: Vec<Chunk> = Vec::new();
    let mut done: usize = 0;
    assert(all.take(0) =~= Seq::<ChunkView>::empty());
    while input.len() > 0
        invariant
            all.len() <= usize::MAX,
            done + input.len() == all.len(),
            input@.map_values(|c: Chunk| c@) == all.skip(done as int),
            sorted@.map_values(|c: Chunk| c@) == sort_desc(all.take(done as int)),
        decreases input.len(),
    {
        let ghost iv = input@.map_values(|c: Chunk| c@);
        let x = input.remove(0);
        assert(x@ == iv[0]);
        assert(input@.map_values(|c: Chunk| c@) =~= iv.drop_first());
        insert_sorted(&mut sorted, x);
        proof {
            assert(all.take(done + 1).drop_last() =~= all.take(done as int));
            assert(all.take(done + 1).last() == all[done as int]);
            assert(all[done as int] == iv[0]);
            assert(all.skip(done + 1) =~= iv.drop_first());
        }
        done = done + 1;
    }
    assert(all.take(done as int) =~= all);
    sorted
}

proof fn lemma_unscheduled_bounded(exp: &Experiment, status: Seq<Status>, k: nat)
    ensures
        forall|i: int| 0 <= i < unscheduled_upto(exp, status, k).len() ==> #[trigger] unscheduled_upto(exp, status, k)[i] < k,
    decreases k,
{
    if k > 0 {
        lemma_unscheduled_bounded(exp, status, (k - 1) as nat);
        let rest = unscheduled_upto(exp, status, (k - 1) as nat);
        assert forall|i: int| 0 <= i < unscheduled_upto(exp, status, k).len() implies #[trigger] unscheduled_upto(exp, status, k)[i] < k by {
            if i < rest.len() {
                assert(rest[i] < k - 1);
            }
        }
    }
}

proof fn lemma_groups_nonempty(p: Seq<(usize, ResourceLimits)>)
    ensures
        forall|i: int| 0 <= i < groups(p).len() ==> #[trigger] groups(p)[i].len() > 0,
    decreases p.len(),
{
    if p.len() > 0 {
        lemma_groups_nonempty(p.drop_last());
        let g = groups(p.drop_last());
        assert forall|i: int| 0 <= i < groups(p).len() implies #[trigger] groups(p)[i].len() > 0 by {
            if i < g.len() {
                assert(g[i].len() > 0);
            }
        }
    }
}

/// The chunks that can be scheduled next, largest first.
///
/// The runs that can still be scheduled are grouped into neighbouring runs with
/// equal resource limits. Each group is cut into jobs of `runs_per_job` runs; the
/// full jobs are packed into chunks of at most `chunk_length` jobs, and the runs
/// left over form one more chunk of a single job. All chunks are put in
/// decreasing order of size (then of limits) and the first `how_many` returned.
/// Fails with [`ChunkError::NoRunsLeft`] exactly when no run can be scheduled.
pub fn next_chunks(
    exp: &Experiment,
    chunk_length: usize,
    runs_per_job: usize,
    how_many: usize,
    status: &Vec<Status>,
) -> (res: Result<Vec<Chunk>, ChunkError>)
    requires
        chunk_length > 0,
        runs_per_job > 0,
        status_covers(exp, status@),
    ensures
        res is Err <==> unscheduled_upto(exp, status@, exp.runs.len() as nat).len() == 0,
        res matches Ok(cs) ==> {
            let all = sort_desc(all_chunks(groups(with_limits(exp, unscheduled_upto(exp, status@, exp.runs.len() as nat))), runs_per_job as nat, chunk_length as nat));
            cs@.map_values(|c: Chunk| c@) == if how_many <= all.len() {
                all.take(how_many as int)
            } else {
                all
            }
        },
        res matches Ok(cs) ==> forall|k: int, r: usize|
            0 <= k < cs.len() && #[trigger] job_runs(cs@[k]@.0).contains(r) ==> r < exp.runs.len() && exp.runs@[r as int].slurm_id is None
                && !status@[r as int].scheduled() && !status@[r as int].completed()
                && !(exp.runs@[r as int].parent matches Some(d) && !status@[d as int].completed()),
{
    proof {
        lemma_next_chunks_fresh(exp, status@, runs_per_job as nat, chunk_length as nat, how_many as nat);
    }
    let ids = unscheduled(exp, status);
    if ids.len() == 0 {
        return Err(ChunkError::NoRunsLeft);
    }
    proof {
        lemma_unscheduled_bounded(exp, status@, exp.runs.len() as nat);
    }
    let gs = group_by_limits(exp, &ids);
    let ghost gv = groups(with_limits(exp, ids@));
    proof {
        lemma_groups_nonempty(with_limits(exp, ids@));
    }
    let mut all: Vec<Chunk> = Vec::new();
    let mut k: usize = 0;
    while k < gs.len()
        invariant
            k <= gs.len(),
            runs_per_job > 0,
            chunk_length > 0,
            groups_view(gs@) == gv,
            forall|i: int| 0 <= i < gv.len() ==> #[trigger] gv[i].len() > 0,
            all@.map_values(|c: Chunk| c@) == all_chunks(gv.take(k as int), runs_per_job as nat, chunk_length as nat),
        decreases gs.len() - k,
    {
        let g = &gs[k];
        assert(g@ == gv[k as int]);
        let mut gids: Vec<usize> = Vec::new();
        let mut i: usize = 0;
        while i < g.len()
            invariant
                i <= g.len(),
                gids@ == g@.take(i as int).map_values(|p: (usize, ResourceLimits)| p.0),
            decreases g.len() - i,
        {
            gids.push(g[i].0);
            i = i + 1;
            assert(gids@ =~= g@.take(i as int).map_values(|p: (usize, ResourceLimits)| p.0));
        }
        assert(g@.take(g.len() as int) =~= g@);
        let lim = g[0].1;
        let mut cs = chunks_of_group(&gids, lim, runs_per_job, chunk_length);
        let ghost before = all@.map_values(|c: Chunk| c@);
        let ghost csv = cs@.map_values(|c: Chunk| c@);
        all.append(&mut cs);
        proof {
            assert(all@.map_values(|c: Chunk| c@) =~= before + csv);
            assert(gv.take(k + 1).drop_last() =~= gv.take(k as int));
            assert(gv.take(k + 1).last() == gv[k as int]);
        }
        k = k + 1;
    }
    assert(gv.take(gs.len() as int) =~= gv);
    let mut sorted = sort_chunks_desc(all);
    let ghost sv = sorted@.map_values(|c: Chunk| c@);
    sorted.truncate(how_many);
    assert(sorted@.map_values(|c: Chunk| c@) =~= if how_many <= sv.len() {
        sv.take(how_many as int)
    } else {
        sv
    });
    proof {
        let out = scheduled_chunks(exp, ids@, runs_per_job as nat, chunk_length as nat, how_many as nat);
        assert(sorted@.map_values(|c: Chunk| c@) == out);
        assert forall|k: int, r: usize| 0 <= k < sorted.len() && #[trigger] job_runs(sorted@[k]@.0).contains(r) implies r < exp.runs.len()
            && exp.runs@[r as int].slurm_id is None && !status@[r as int].scheduled() && !status@[r as int].completed()
            && !(exp.runs@[r as int].parent matches Some(d) && !status@[d as int].completed()) by {
            assert(sorted@.map_values(|c: Chunk| c@)[k] == sorted@[k]@);
            assert(job_runs(out[k].0).contains(r));
        }
    }
    Ok(sorted)
}

/// The scheduled chunks as plain values.
pub open spec fn chunks_view(c: Seq<Vec<Vec<usize>>>) -> Seq<Seq<Seq<usize>>> {
    c.map_values(|ch: Vec<Vec<usize>>| ch@.map_values(|j: Vec<usize>| j@))
}

/// Records the jobs of a chunk in the experiment, so the wrapper can find them;
/// returns the index of the recorded chunk.
pub fn register_runs(exp: &mut Experiment, runs: &Vec<Job>) -> (idx: usize)
    requires
        old(exp).chunks.len() < usize::MAX,
    ensures
        idx == old(exp).chunks.len(),
        chunks_view(final(exp).chunks@) == chunks_view(old(exp).chunks@).push(jobs_view(runs@)),
        final(exp).runs == old(exp).runs,
        final(exp).programs == old(exp).programs,
        crate::model::same_setup(*final(exp), *old(exp)),
{
    let mut c: Vec<Vec<usize>> = Vec::new();
    let mut i: usize = 0;
    while i < runs.len()
        invariant
            i <= runs.len(),
            c@.map_values(|j: Vec<usize>| j@) == jobs_view(runs@).take(i as int),
        decreases runs.len() - i,
    {
        let ghost before = c@.map_values(|j: Vec<usize>| j@);
        let copy = crate::plan::clone_usizes(&runs[i].0);
        assert(jobs_view(runs@)[i as int] == copy@);
        c.push(copy);
        assert(c@.map_values(|j: Vec<usize>| j@) =~= before.push(copy@));
        assert(jobs_view(runs@).take(i + 1) =~= jobs_view(runs@).take(i as int).push(copy@));
        i = i + 1;
        assert(c@.map_values(|j: Vec<usize>| j@) =~= jobs_view(runs@).take(i as int));
    }
    assert(jobs_view(runs@).take(runs.len() as int) =~= jobs_view(runs@));
    let ghost before = chunks_view(exp.chunks@);
    exp.chunks.push(c);
    assert(chunks_view(exp.chunks@) =~= before.push(jobs_view(runs@)));
    exp.chunks.len() - 1
}

/// Whether run `r` is job `t`'s `k`-th run in `jobs`.
pub open spec fn occurs_at(jobs: Seq<Seq<usize>>, r: usize, t: int, k: int) -> bool {
    0 <= t < jobs.len() && 0 <= k < jobs[t].len() && jobs[t][k] == r
}

/// Whether position `(t2, k2)` comes after `(t, k)`.
pub open spec fn pos_after(t2: int, k2: int, t: int, k: int) -> bool {
    t2 > t || (t2 == t && k2 > k)
}

/// The Slurm id of the `k`-th run of task `t` of the array `batch`: `{batch}_{t}.{k}`.
pub open spec fn array_run_id(batch: Seq<char>, t: nat, k: nat) -> Seq<char> {
    batch + seq!['_'] + crate::text::dec(t) + seq!['.'] + crate::text::dec(k)
}

/// Whether the Slurm id of run `r` is what marking chunk `jobs` as `batch` gives:
/// the id of the last place the run has in the chunk, or its old id where it has none.
pub open spec fn marked_id(jobs: Seq<Seq<usize>>, batch: Seq<char>, r: usize, old_id: Option<String>, new_id: Option<String>) -> bool {
    &&& (forall|t: int, k: int| !#[trigger] occurs_at(jobs, r, t, k)) ==> new_id == old_id
    &&& forall|t: int, k: int| #[trigger] occurs_at(jobs, r, t, k) && (forall|t2: int, k2: int| #[trigger] occurs_at(jobs, r, t2, k2) ==> !pos_after(t2, k2, t, k))
        ==> (new_id matches Some(s) && s@ == array_run_id(batch, t as nat, k as nat))
}

/// Whether run `a` is run `b` with perhaps another Slurm id.
pub open spec fn same_but_slurm_id(a: crate::model::Run, b: crate::model::Run) -> bool {
    a == (crate::model::Run { slurm_id: a.slurm_id, ..b })
}

/// Once a chunk has been scheduled as the array `batch_id`, gives each of its runs
/// the id `{batch_id}_{task}.{index}` of its task and place in the task.
pub fn mark_chunk_scheduled(exp: &mut Experiment, chunk: &Chunk, batch_id: &String)
    requires
        forall|t: int, k: int| #[trigger] occurs_at(chunk@.0, chunk@.0[t][k], t, k) ==> chunk@.0[t][k] < old(exp).runs.len(),
    ensures
        final(exp).runs.len() == old(exp).runs.len(),
        forall|r: int| 0 <= r < final(exp).runs.len() ==> #[trigger] marked_id(chunk@.0, batch_id@, r as usize, old(exp).runs@[r].slurm_id, final(exp).runs@[r].slurm_id),
        forall|r: int| 0 <= r < final(exp).runs.len() ==> same_but_slurm_id(#[trigger] final(exp).runs@[r], old(exp).runs@[r]),
        final(exp).programs == old(exp).programs,
        final(exp).chunks == old(exp).chunks,
        crate::model::same_setup(*final(exp), *old(exp)),
{
    let ghost jobs = chunk@.0;
    let ghost old_runs = exp.runs@;
    let mut t: usize = 0;
    while t < chunk.runs.len()
        invariant
            jobs == chunk@.0,
            jobs.len() == chunk.runs.len(),
            t <= chunk.runs.len(),
            forall|t: int, k: int| #[trigger] occurs_at(jobs, jobs[t][k], t, k) ==> jobs[t][k] < exp.runs.len(),
            exp.runs.len() == old_runs.len(),
            exp.programs == old(exp).programs,
            exp.seq == old(exp).seq,
            old_runs == old(exp).runs@,
            forall|r: int| 0 <= r < exp.runs.len() ==> #[trigger] marked_upto(jobs, batch_id@, r as usize, old_runs[r].slurm_id, exp.runs@[r].slurm_id, t as int, 0),
            forall|r: int| 0 <= r < exp.runs.len() ==> same_but_slurm_id(#[trigger] exp.runs@[r], old_runs[r]),
            exp.chunks == old(exp).chunks,
            crate::model::same_setup(*exp, *old(exp)),
        decreases chunk.runs.len() - t,
    {
        let job = &chunk.runs[t].0;
        assert(job@ == jobs[t as int]);
        let mut k: usize = 0;
        while k < job.len()
            invariant
                jobs == chunk@.0,
                t < jobs.len(),
                job@ == jobs[t as int],
                k <= job.len(),
                forall|t: int, k: int| #[trigger] occurs_at(jobs, jobs[t][k], t, k) ==> jobs[t][k] < exp.runs.len(),
                exp.runs.len() == old_runs.len(),
                exp.programs == old(exp).programs,
                exp.seq == old(exp).seq,
                old_runs == old(exp).runs@,
                forall|r: int| 0 <= r < exp.runs.len() ==> #[trigger] marked_upto(jobs, batch_id@, r as usize, old_runs[r].slurm_id, exp.runs@[r].slurm_id, t as int, k as int),
                forall|r: int| 0 <= r < exp.runs.len() ==> same_but_slurm_id(#[trigger] exp.runs@[r], old_runs[r]),
                exp.chunks == old(exp).chunks,
                crate::model::same_setup(*exp, *old(exp)),
            decreases job.len() - k,
        {
            let id = job[k];
            assert(occurs_at(jobs, jobs[t as int][k as int], t as int, k as int));
            let sid = array_id_string(batch_id, t, k);
            let ghost before = exp.runs@;
            exp.runs[id].slurm_id = Some(sid);
            proof {
                assert forall|r: int| 0 <= r < exp.runs.len() implies #[trigger] marked_upto(jobs, batch_id@, r as usize, old_runs[r].slurm_id, exp.runs@[r].slurm_id, t as int, k + 1) by {
                    assert(marked_upto(jobs, batch_id@, r as usize, old_runs[r].slurm_id, before[r].slurm_id, t as int, k as int));
                    if r != id as int {
                        assert(exp.runs@[r] == before[r]);
                        assert forall|t1: int, k1: int| #[trigger] occurs_at(jobs, r as usize, t1, k1) implies (processed(t1, k1, t as int, k + 1) <==> processed(t1, k1, t as int, k as int)) by {
                            if t1 == t && k1 == k {
                                assert(jobs[t1][k1] == id);
                            }
                        }
                    } else {
                        assert forall|t1: int, k1: int| #[trigger] occurs_at(jobs, r as usize, t1, k1) && processed(t1, k1, t as int, k + 1)
                            && (forall|t2: int, k2: int| #[trigger] occurs_at(jobs, r as usize, t2, k2) && processed(t2, k2, t as int, k + 1) ==> !pos_after(t2, k2, t1, k1))
                            implies (exp.runs@[r].slurm_id matches Some(s) && s@ == array_run_id(batch_id@, t1 as nat, k1 as nat)) by {
                            assert(occurs_at(jobs, r as usize, t as int, k as int));
                            assert(processed(t as int, k as int, t as int, k + 1));
                        }
                    }
                }
            }
            k = k + 1;
        }
        proof {
            assert forall|r: int| 0 <= r < exp.runs.len() implies #[trigger] marked_upto(jobs, batch_id@, r as usize, old_runs[r].slurm_id, exp.runs@[r].slurm_id, t + 1, 0) by {
                assert(marked_upto(jobs, batch_id@, r as usize, old_runs[r].slurm_id, exp.runs@[r].slurm_id, t as int, job.len() as int));
                assert forall|t1: int, k1: int| #[trigger] occurs_at(jobs, r as usize, t1, k1) implies (processed(t1, k1, t + 1, 0) <==> processed(t1, k1, t as int, job.len() as int)) by {}
            }
        }
        t = t + 1;
    }
    proof {
        assert forall|r: int| 0 <= r < exp.runs.len() implies #[trigger] marked_id(jobs, batch_id@, r as usize, old_runs[r].slurm_id, exp.runs@[r].slurm_id) by {
            assert(marked_upto(jobs, batch_id@, r as usize, old_runs[r].slurm_id, exp.runs@[r].slurm_id, t as int, 0));
            assert forall|t1: int, k1: int| #[trigger] occurs_at(jobs, r as usize, t1, k1) implies processed(t1, k1, t as int, 0) by {}
        }
    }
}

/// Whether position `(t, k)` comes before `(tt, kk)`.
pub open spec fn processed(t: int, k: int, tt: int, kk: int) -> bool {
    t < tt || (t == tt && k < kk)
}

/// [`marked_id`] for the positions before `(tt, kk)` only.
pub open spec fn marked_upto(jobs: Seq<Seq<usize>>, batch: Seq<char>, r: usize, old_id: Option<String>, new_id: Option<String>, tt: int, kk: int) -> bool {
    &&& (forall|t: int, k: int| #[trigger] occurs_at(jobs, r, t, k) ==> !processed(t, k, tt, kk)) ==> new_id == old_id
    &&& forall|t: int, k: int| #[trigger] occurs_at(jobs, r, t, k) && processed(t, k, tt, kk)
        && (forall|t2: int, k2: int| #[trigger] occurs_at(jobs, r, t2, k2) && processed(t2, k2, tt, kk) ==> !pos_after(t2, k2, t, k))
        ==> (new_id matches Some(s) && s@ == array_run_id(batch, t as nat, k as nat))
}

/// The Slurm id `{batch}_{t}.{k}`.
fn array_id_string(batch: &String, t: usize, k: usize) -> (s: String)
    ensures
        s@ == array_run_id(batch@, t as nat, k as nat),
{
    let mut s = batch.clone();
    crate::text::push_char(&mut s, '_');
    s.append(crate::text::u64_to_dec(t as u64).as_str());
    crate::text::push_char(&mut s, '.');
    s.append(crate::text::u64_to_dec(k as u64).as_str());
    s
}

/// The run ids of the jobs, in order.
pub open spec fn ids_of_jobs(js: Seq<Seq<usize>>) -> Seq<usize>
    decreases js.len(),
{
    if js.len() == 0 {
        Seq::empty()
    } else {
        ids_of_jobs(js.drop_last()) + js.last()
    }
}

/// The run ids of the chunks, in order.
pub open spec fn ids_of_chunks(cs: Seq<Seq<Seq<usize>>>) -> Seq<usize>
    decreases cs.len(),
{
    if cs.len() == 0 {
        Seq::empty()
    } else {
        ids_of_chunks(cs.drop_last()) + ids_of_jobs(cs.last())
    }
}

/// Whether `x` is in `v`.
fn contains_usize(v: &Vec<usize>, x: usize) -> (b: bool)
    ensures
        b == v@.contains(x),
{
    let mut i: usize = 0;
    while i < v.len()
        invariant
            i <= v.len(),
            forall|j: int| 0 <= j < i ==> v@[j] != x,
        decreases v.len() - i,
    {
        if v[i] == x {
            assert(v@[i as int] == x);
            return true;
        }
        i = i + 1;
    }
    false
}

/// The number of different runs in the scheduled chunks.
pub fn scheduled_nodep(exp: &Experiment) -> (n: usize)
    ensures
        n == ids_of_chunks(chunks_view(exp.chunks@)).to_set().len(),
{
    broadcast use vstd::seq_lib::group_seq_properties;
    let ghost cv = chunks_view(exp.chunks@);
    let mut seen: Vec<usize> = Vec::new();
    let ghost mut processed: Seq<usize> = Seq::empty();
    let mut a: usize = 0;
    while a < exp.chunks.len()
        invariant
            a <= exp.chunks.len(),
            cv == chunks_view(exp.chunks@),
            processed == ids_of_chunks(cv.take(a as int)),
            seen@.no_duplicates(),
            seen@.to_set() == processed.to_set(),
        decreases exp.chunks.len() - a,
    {
        let chunk = &exp.chunks[a];
        let ghost cj = cv[a as int];
        assert(cj == chunk@.map_values(|j: Vec<usize>| j@));
        let mut b: usize = 0;
        while b < chunk.len()
            invariant
                b <= chunk.len(),
                cj == chunk@.map_values(|j: Vec<usize>| j@),
                processed == ids_of_chunks(cv.take(a as int)) + ids_of_jobs(cj.take(b as int)),
                seen@.no_duplicates(),
                seen@.to_set() == processed.to_set(),
            decreases chunk.len() - b,
        {
            let job = &chunk[b];
            assert(job@ == cj[b as int]);
            let mut d: usize = 0;
            let ghost base = processed;
            while d < job.len()
                invariant
                    d <= job.len(),
                    processed == base + job@.take(d as int),
                    seen@.no_duplicates(),
                    seen@.to_set() == processed.to_set(),
                decreases job.len() - d,
            {
                let id = job[d];
                proof {
                    processed.lemma_push_to_set_commute(id);
                    seen@.lemma_push_to_set_commute(id);
                    processed = processed.push(id);
                    assert(base + job@.take(d + 1) =~= processed);
                }
                if !contains_usize(&seen, id) {
                    seen.push(id);
                } else {
                    assert(seen@.to_set().contains(id));
                    assert(seen@.to_set().insert(id) =~= seen@.to_set());
                }
                d = d + 1;
            }
            proof {
                assert(job@.take(job.len() as int) =~= job@);
                assert(cj.take(b + 1).drop_last() =~= cj.take(b as int));
                assert(ids_of_jobs(cj.take(b + 1)) == ids_of_jobs(cj.take(b as int)) + cj[b as int]);
                assert(processed =~= ids_of_chunks(cv.take(a as int)) + ids_of_jobs(cj.take(b + 1)));
            }
            b = b + 1;
        }
        proof {
            assert(cj.take(chunk.len() as int) =~= cj);
            assert(cv.take(a + 1).drop_last() =~= cv.take(a as int));
            assert(cv.take(a + 1).last() == cj);
        }
        a = a + 1;
    }
    proof {
        assert(cv.take(exp.chunks.len() as int) =~= cv);
        seen@.unique_seq_to_set();
    }
    seen.len()
}

} // verus!

verus! {

/// All runs of a list of jobs, in order.
pub open spec fn job_runs(js: Seq<Seq<usize>>) -> Seq<usize>
    decreases js.len(),
{
    if js.len() == 0 {
        Seq::empty()
    } else {
        js[0] + job_runs(js.drop_first())
    }
}

/// All runs of a list of chunks, in order.
pub open spec fn chunk_runs(cs: Seq<ChunkView>) -> Seq<usize>
    decreases cs.len(),
{
    if cs.len() == 0 {
        Seq::empty()
    } else {
        job_runs(cs[0].0) + chunk_runs(cs.drop_first())
    }
}

/// The run ids of groups of runs, in order.
pub open spec fn group_ids(gs: Seq<Seq<(usize, ResourceLimits)>>) -> Seq<usize>
    decreases gs.len(),
{
    if gs.len() == 0 {
        Seq::empty()
    } else {
        group_ids(gs.drop_last()) + gs.last().map_values(|p: (usize, ResourceLimits)| p.0)
    }
}

proof fn lemma_job_runs_append(a: Seq<Seq<usize>>, b: Seq<Seq<usize>>)
    ensures
        job_runs(a + b) == job_runs(a) + job_runs(b),
    decreases a.len(),
{
    if a.len() == 0 {
        assert(a + b =~= b);
    } else {
        lemma_job_runs_append(a.drop_first(), b);
        assert((a + b).drop_first() =~= a.drop_first() + b);
        assert(job_runs(a + b) =~= a[0] + job_runs(a.drop_first() + b));
    }
}

proof fn lemma_chunk_runs_append(a: Seq<ChunkView>, b: Seq<ChunkView>)
    ensures
        chunk_runs(a + b) == chunk_runs(a) + chunk_runs(b),
    decreases a.len(),
{
    if a.len() == 0 {
        assert(a + b =~= b);
    } else {
        lemma_chunk_runs_append(a.drop_first(), b);
        assert((a + b).drop_first() =~= a.drop_first() + b);
        assert(chunk_runs(a + b) =~= job_runs(a[0].0) + chunk_runs(a.drop_first() + b));
    }
}

proof fn lemma_split_jobs_runs(ids: Seq<usize>, rpj: nat)
    requires
        rpj > 0,
    ensures
        job_runs(split_jobs(ids, rpj).0) + split_jobs(ids, rpj).1 == ids,
        forall|k: int| 0 <= k < split_jobs(ids, rpj).0.len() ==> #[trigger] split_jobs(ids, rpj).0[k].len() == rpj,
        split_jobs(ids, rpj).1.len() < rpj,
    decreases ids.len(),
{
    if ids.len() < rpj {
        assert(job_runs(Seq::<Seq<usize>>::empty()) + ids =~= ids);
    } else {
        let (js, rem) = split_jobs(ids.skip(rpj as int), rpj);
        lemma_split_jobs_runs(ids.skip(rpj as int), rpj);
        let all = seq![ids.take(rpj as int)] + js;
        assert(all.drop_first() =~= js);
        assert(job_runs(all) == ids.take(rpj as int) + job_runs(js));
        assert(ids.take(rpj as int) + job_runs(js) + rem =~= ids.take(rpj as int) + (job_runs(js) + rem));
        assert(ids.take(rpj as int) + ids.skip(rpj as int) =~= ids);
        assert forall|k: int| 0 <= k < all.len() implies #[trigger] all[k].len() == rpj by {
            if k > 0 {
                assert(all[k] == js[k - 1]);
            }
        }
    }
}

proof fn lemma_pack_runs(jobs: Seq<Seq<usize>>, cl: nat, lim: ResourceLimits)
    requires
        cl > 0,
    ensures
        chunk_runs(pack(jobs, cl).map_values(|js: Seq<Seq<usize>>| (js, lim))) == job_runs(jobs),
        forall|k: int| 0 <= k < pack(jobs, cl).len() ==> #[trigger] pack(jobs, cl)[k].len() <= cl,
        forall|k: int, i: int| 0 <= k < pack(jobs, cl).len() && 0 <= i < pack(jobs, cl)[k].len()
            ==> jobs.contains(#[trigger] pack(jobs, cl)[k][i]),
    decreases jobs.len(),
{
    let p = pack(jobs, cl);
    let pm = p.map_values(|js: Seq<Seq<usize>>| (js, lim));
    if jobs.len() == 0 {
        assert(pm =~= Seq::<ChunkView>::empty());
    } else if jobs.len() <= cl {
        assert(pm.drop_first() =~= Seq::<ChunkView>::empty());
        assert(p == seq![jobs]);
        assert(pm[0].0 == jobs);
        assert(chunk_runs(Seq::<ChunkView>::empty()) == Seq::<usize>::empty());
        assert(chunk_runs(pm) == job_runs(pm[0].0) + chunk_runs(pm.drop_first()));
        assert(chunk_runs(pm) =~= job_runs(jobs) + Seq::<usize>::empty());
        assert forall|k: int, i: int| 0 <= k < p.len() && 0 <= i < p[k].len() implies jobs.contains(#[trigger] p[k][i]) by {
            assert(p[k][i] == jobs[i]);
        }
    } else {
        let rest = pack(jobs.skip(cl as int), cl);
        lemma_pack_runs(jobs.skip(cl as int), cl, lim);
        assert(pm.drop_first() =~= rest.map_values(|js: Seq<Seq<usize>>| (js, lim)));
        assert(pm[0] == (jobs.take(cl as int), lim));
        lemma_job_runs_append(jobs.take(cl as int), jobs.skip(cl as int));
        assert(jobs.take(cl as int) + jobs.skip(cl as int) =~= jobs);
        assert forall|k: int| 0 <= k < p.len() implies #[trigger] p[k].len() <= cl by {
            if k > 0 {
                assert(p[k] == rest[k - 1]);
            }
        }
        assert forall|k: int, i: int| 0 <= k < p.len() && 0 <= i < p[k].len() implies jobs.contains(#[trigger] p[k][i]) by {
            if k == 0 {
                assert(p[0][i] == jobs[i]);
            } else {
                assert(p[k] == rest[k - 1]);
                assert(jobs.skip(cl as int).contains(rest[k - 1][i]));
                let j = choose|j: int| 0 <= j < jobs.skip(cl as int).len() && jobs.skip(cl as int)[j] == rest[k - 1][i];
                assert(jobs[j + cl] == p[k][i]);
            }
        }
    }
}

proof fn lemma_group_chunks_runs(ids: Seq<usize>, lim: ResourceLimits, rpj: nat, cl: nat)
    requires
        rpj > 0,
        cl > 0,
    ensures
        chunk_runs(group_chunks(ids, lim, rpj, cl)) == ids,
{
    let (jobs, rem) = split_jobs(ids, rpj);
    lemma_split_jobs_runs(ids, rpj);
    lemma_pack_runs(jobs, cl, lim);
    let packed = pack(jobs, cl).map_values(|js: Seq<Seq<usize>>| (js, lim));
    let last = seq![(seq![rem], lim)];
    lemma_chunk_runs_append(packed, last);
    assert(last.drop_first() =~= Seq::<ChunkView>::empty());
    assert(seq![rem].drop_first() =~= Seq::<Seq<usize>>::empty());
    assert(job_runs(Seq::<Seq<usize>>::empty()) == Seq::<usize>::empty());
    assert(job_runs(seq![rem]) == seq![rem][0] + job_runs(seq![rem].drop_first()));
    assert(job_runs(seq![rem]) =~= rem);
    assert(chunk_runs(Seq::<ChunkView>::empty()) == Seq::<usize>::empty());
    assert(chunk_runs(last) == job_runs(last[0].0) + chunk_runs(last.drop_first()));
    assert(chunk_runs(last) =~= rem);
}

proof fn lemma_all_chunks_runs(gs: Seq<Seq<(usize, ResourceLimits)>>, rpj: nat, cl: nat)
    requires
        rpj > 0,
        cl > 0,
    ensures
        chunk_runs(all_chunks(gs, rpj, cl)) == group_ids(gs),
    decreases gs.len(),
{
    if gs.len() > 0 {
        lemma_all_chunks_runs(gs.drop_last(), rpj, cl);
        let ids = gs.last().map_values(|p: (usize, ResourceLimits)| p.0);
        lemma_group_chunks_runs(ids, gs.last()[0].1, rpj, cl);
        lemma_chunk_runs_append(all_chunks(gs.drop_last(), rpj, cl), group_chunks(ids, gs.last()[0].1, rpj, cl));
    }
}

proof fn lemma_groups_ids(p: Seq<(usize, ResourceLimits)>)
    ensures
        group_ids(groups(p)) == p.map_values(|q: (usize, ResourceLimits)| q.0),
    decreases p.len(),
{
    if p.len() > 0 {
        lemma_groups_ids(p.drop_last());
        let g = groups(p.drop_last());
        let x = p.last();
        assert(p.map_values(|q: (usize, ResourceLimits)| q.0) =~= p.drop_last().map_values(|q: (usize, ResourceLimits)| q.0).push(x.0));
        if g.len() > 0 && g.last().last().1 == x.1 {
            let ng = g.update(g.len() - 1, g.last().push(x));
            assert(ng.drop_last() =~= g.drop_last());
            assert(ng.last().map_values(|q: (usize, ResourceLimits)| q.0) =~= g.last().map_values(|q: (usize, ResourceLimits)| q.0).push(x.0));
        } else {
            let ng = g.push(seq![x]);
            assert(ng.drop_last() =~= g);
            assert(ng.last().map_values(|q: (usize, ResourceLimits)| q.0) =~= seq![x.0]);
        }
    }
}

/// The chunks of the schedulable runs hold every one of them exactly once,
/// in order: whatever the chunk and job sizes, no run is scheduled twice and
/// none is left out.
pub proof fn lemma_chunks_hold_each_run_once(exp: &Experiment, ids: Seq<usize>, runs_per_job: nat, chunk_length: nat)
    requires
        runs_per_job > 0,
        chunk_length > 0,
    ensures
        chunk_runs(all_chunks(groups(with_limits(exp, ids)), runs_per_job, chunk_length)) == ids,
{
    lemma_all_chunks_runs(groups(with_limits(exp, ids)), runs_per_job, chunk_length);
    lemma_groups_ids(with_limits(exp, ids));
    assert(with_limits(exp, ids).map_values(|q: (usize, ResourceLimits)| q.0) =~= ids);
}

} // verus!

verus! {

/// Whether every run of chunk `c` has the chunk's resource limits.
pub open spec fn chunk_uniform(exp: &Experiment, c: ChunkView) -> bool {
    forall|r: usize| #[trigger] job_runs(c.0).contains(r) ==> exp.runs@[r as int].limits == c.1
}

/// Whether every pair names a run with the pair's limits.
pub open spec fn pairs_ok(exp: &Experiment, g: Seq<(usize, ResourceLimits)>) -> bool {
    forall|i: int| #![trigger g[i]] 0 <= i < g.len() ==> g[i].1 == exp.runs@[g[i].0 as int].limits
}

/// Whether a group is non-empty, names runs with their limits, and all its
/// runs have the limits of its first.
pub open spec fn group_ok(exp: &Experiment, g: Seq<(usize, ResourceLimits)>) -> bool {
    &&& pairs_ok(exp, g)
    &&& g.len() > 0
    &&& forall|i: int| #![trigger g[i]] 0 <= i < g.len() ==> g[i].1 == g[0].1
}

proof fn lemma_groups_uniform(exp: &Experiment, p: Seq<(usize, ResourceLimits)>)
    requires
        pairs_ok(exp, p),
    ensures
        forall|k: int| 0 <= k < groups(p).len() ==> #[trigger] group_ok(exp, groups(p)[k]),
    decreases p.len(),
{
    if p.len() > 0 {
        let q = p.drop_last();
        assert forall|i: int| #![trigger q[i]] 0 <= i < q.len() implies q[i].1 == exp.runs@[q[i].0 as int].limits by {
            assert(q[i] == p[i]);
        }
        lemma_groups_uniform(exp, q);
        let g = groups(q);
        let x = p.last();
        assert(x == p[p.len() - 1]);
        let ng = groups(p);
        if g.len() > 0 && g.last().last().1 == x.1 {
            assert(ng == g.update(g.len() - 1, g.last().push(x)));
            assert forall|k: int| 0 <= k < ng.len() implies #[trigger] group_ok(exp, ng[k]) by {
                if k < g.len() - 1 {
                    assert(ng[k] == g[k]);
                    assert(group_ok(exp, g[k]));
                } else {
                    let lg = g.last();
                    assert(group_ok(exp, g[g.len() - 1]));
                    assert(ng[k] == lg.push(x));
                    assert forall|i: int| #![trigger ng[k][i]] 0 <= i < ng[k].len() implies ng[k][i].1 == exp.runs@[ng[k][i].0 as int].limits
                        && ng[k][i].1 == ng[k][0].1 by {
                        if i < lg.len() {
                            assert(ng[k][i] == lg[i]);
                        }
                        assert(lg[lg.len() - 1].1 == lg[0].1);
                        assert(ng[k][0] == lg[0]);
                    }
                }
            }
        } else {
            assert(ng == g.push(seq![x]));
            assert forall|k: int| 0 <= k < ng.len() implies #[trigger] group_ok(exp, ng[k]) by {
                if k < g.len() {
                    assert(ng[k] == g[k]);
                    assert(group_ok(exp, g[k]));
                } else {
                    assert(ng[k] == seq![x]);
                }
            }
        }
    }
}

proof fn lemma_in_chunk_in_all(cs: Seq<ChunkView>, k: int, r: usize)
    requires
        0 <= k < cs.len(),
        job_runs(cs[k].0).contains(r),
    ensures
        chunk_runs(cs).contains(r),
    decreases cs.len(),
{
    if k == 0 {
        let j = choose|j: int| 0 <= j < job_runs(cs[0].0).len() && job_runs(cs[0].0)[j] == r;
        assert(chunk_runs(cs)[j] == r);
    } else {
        lemma_in_chunk_in_all(cs.drop_first(), k - 1, r);
        let rest = chunk_runs(cs.drop_first());
        let j = choose|j: int| 0 <= j < rest.len() && rest[j] == r;
        assert(chunk_runs(cs)[job_runs(cs[0].0).len() + j] == r);
    }
}

proof fn lemma_group_chunks_limits(ids: Seq<usize>, lim: ResourceLimits, rpj: nat, cl: nat)
    ensures
        forall|k: int| 0 <= k < group_chunks(ids, lim, rpj, cl).len() ==> (#[trigger] group_chunks(ids, lim, rpj, cl)[k]).1 == lim,
{
    let (jobs, rem) = split_jobs(ids, rpj);
    let packed = pack(jobs, cl).map_values(|js: Seq<Seq<usize>>| (js, lim));
    let gc = group_chunks(ids, lim, rpj, cl);
    assert forall|k: int| 0 <= k < gc.len() implies (#[trigger] gc[k]).1 == lim by {
        if k < packed.len() {
            assert(gc[k] == packed[k]);
        } else {
            assert(gc[k] == (seq![rem], lim));
        }
    }
}

proof fn lemma_all_chunks_uniform(exp: &Experiment, gs: Seq<Seq<(usize, ResourceLimits)>>, rpj: nat, cl: nat)
    requires
        rpj > 0,
        cl > 0,
        forall|k: int| 0 <= k < gs.len() ==> #[trigger] group_ok(exp, gs[k]),
    ensures
        forall|k: int| 0 <= k < all_chunks(gs, rpj, cl).len() ==> #[trigger] chunk_uniform(exp, all_chunks(gs, rpj, cl)[k]),
    decreases gs.len(),
{
    if gs.len() > 0 {
        let front = gs.drop_last();
        assert forall|k: int| 0 <= k < front.len() implies #[trigger] group_ok(exp, front[k]) by {
            assert(front[k] == gs[k]);
            assert(group_ok(exp, gs[k]));
        }
        lemma_all_chunks_uniform(exp, front, rpj, cl);
        let g = gs.last();
        assert(g == gs[gs.len() - 1]);
        assert(group_ok(exp, gs[gs.len() - 1]));
        let ids = g.map_values(|p: (usize, ResourceLimits)| p.0);
        let lim = g[0].1;
        let gc = group_chunks(ids, lim, rpj, cl);
        lemma_group_chunks_runs(ids, lim, rpj, cl);
        lemma_group_chunks_limits(ids, lim, rpj, cl);
        let before = all_chunks(front, rpj, cl);
        let all = all_chunks(gs, rpj, cl);
        assert(all == before + gc);
        assert forall|k: int| 0 <= k < all.len() implies #[trigger] chunk_uniform(exp, all[k]) by {
            if k < before.len() {
                assert(all[k] == before[k]);
            } else {
                let c = gc[k - before.len()];
                assert(all[k] == c);
                assert forall|r: usize| #[trigger] job_runs(c.0).contains(r) implies exp.runs@[r as int].limits == c.1 by {
                    lemma_in_chunk_in_all(gc, k - before.len(), r);
                    let j = choose|j: int| 0 <= j < ids.len() && ids[j] == r;
                    assert(g[j].0 == r);
                    assert(g[j].1 == exp.runs@[g[j].0 as int].limits);
                    assert(g[j].1 == g[0].1);
                }
            }
        }
    }
}

/// Every chunk of the schedulable runs holds runs of one kind only: every
/// run in it has the chunk's resource limits.
pub proof fn lemma_chunks_share_limits(exp: &Experiment, ids: Seq<usize>, runs_per_job: nat, chunk_length: nat)
    requires
        runs_per_job > 0,
        chunk_length > 0,
    ensures
        forall|k: int| 0 <= k < all_chunks(groups(with_limits(exp, ids)), runs_per_job, chunk_length).len() ==> #[trigger] chunk_uniform(
            exp,
            all_chunks(groups(with_limits(exp, ids)), runs_per_job, chunk_length)[k],
        ),
{
    let p = with_limits(exp, ids);
    assert forall|i: int| #![trigger p[i]] 0 <= i < p.len() implies p[i].1 == exp.runs@[p[i].0 as int].limits by {}
    lemma_groups_uniform(exp, p);
    lemma_all_chunks_uniform(exp, groups(p), runs_per_job, chunk_length);
}

} // verus!

verus! {

/// Whether a chunk holds at most `cl` jobs of at most `rpj` runs each.
pub open spec fn chunk_fits(c: ChunkView, rpj: nat, cl: nat) -> bool {
    c.0.len() <= cl && forall|j: int| 0 <= j < c.0.len() ==> #[trigger] c.0[j].len() <= rpj
}

proof fn lemma_group_chunks_fit(ids: Seq<usize>, lim: ResourceLimits, rpj: nat, cl: nat)
    requires
        rpj > 0,
        cl > 0,
    ensures
        forall|k: int| 0 <= k < group_chunks(ids, lim, rpj, cl).len() ==> #[trigger] chunk_fits(group_chunks(ids, lim, rpj, cl)[k], rpj, cl),
{
    let (jobs, rem) = split_jobs(ids, rpj);
    lemma_split_jobs_runs(ids, rpj);
    lemma_pack_runs(jobs, cl, lim);
    let p = pack(jobs, cl);
    let packed = p.map_values(|js: Seq<Seq<usize>>| (js, lim));
    let gc = group_chunks(ids, lim, rpj, cl);
    assert forall|k: int| 0 <= k < gc.len() implies #[trigger] chunk_fits(gc[k], rpj, cl) by {
        if k < packed.len() {
            assert(gc[k] == packed[k]);
            assert(gc[k].0 == p[k]);
            assert forall|j: int| 0 <= j < p[k].len() implies #[trigger] p[k][j].len() <= rpj by {
                assert(jobs.contains(p[k][j]));
                let q = choose|q: int| 0 <= q < jobs.len() && jobs[q] == p[k][j];
                assert(jobs[q].len() == rpj);
            }
        } else {
            assert(gc[k] == (seq![rem], lim));
        }
    }
}

proof fn lemma_all_chunks_fit(gs: Seq<Seq<(usize, ResourceLimits)>>, rpj: nat, cl: nat)
    requires
        rpj > 0,
        cl > 0,
    ensures
        forall|k: int| 0 <= k < all_chunks(gs, rpj, cl).len() ==> #[trigger] chunk_fits(all_chunks(gs, rpj, cl)[k], rpj, cl),
    decreases gs.len(),
{
    if gs.len() > 0 {
        lemma_all_chunks_fit(gs.drop_last(), rpj, cl);
        let ids = gs.last().map_values(|p: (usize, ResourceLimits)| p.0);
        let lim = gs.last()[0].1;
        lemma_group_chunks_fit(ids, lim, rpj, cl);
        let before = all_chunks(gs.drop_last(), rpj, cl);
        let gc = group_chunks(ids, lim, rpj, cl);
        let all = all_chunks(gs, rpj, cl);
        assert(all == before + gc);
        assert forall|k: int| 0 <= k < all.len() implies #[trigger] chunk_fits(all[k], rpj, cl) by {
            if k < before.len() {
                assert(all[k] == before[k]);
            } else {
                assert(all[k] == gc[k - before.len()]);
            }
        }
    }
}

/// Every chunk of the schedulable runs fits Slurm's limits: at most
/// `chunk_length` jobs, each of at most `runs_per_job` runs.
pub proof fn lemma_chunk_sizes(exp: &Experiment, ids: Seq<usize>, runs_per_job: nat, chunk_length: nat)
    requires
        runs_per_job > 0,
        chunk_length > 0,
    ensures
        forall|k: int| 0 <= k < all_chunks(groups(with_limits(exp, ids)), runs_per_job, chunk_length).len() ==> #[trigger] chunk_fits(
            all_chunks(groups(with_limits(exp, ids)), runs_per_job, chunk_length)[k],
            runs_per_job,
            chunk_length,
        ),
{
    lemma_all_chunks_fit(groups(with_limits(exp, ids)), runs_per_job, chunk_length);
}

/// The order key of a chunk: its number of jobs, then its limits.
pub open spec fn chunk_key(c: ChunkView) -> (nat, u64, u32, usize, usize) {
    (c.0.len(), c.1.time_limit_secs, c.1.time_limit_nanos, c.1.cpus, c.1.mem_per_cpu)
}

/// Whether chunks are in decreasing order: no chunk comes before a later one.
pub open spec fn desc_ordered(s: Seq<ChunkView>) -> bool {
    forall|i: int, j: int| 0 <= i < j < s.len() ==> !chunk_less(s[i], s[j])
}

proof fn lemma_less_trans(a: ChunkView, b: ChunkView, c: ChunkView)
    ensures
        chunk_less(a, b) && chunk_less(b, c) ==> chunk_less(a, c),
        !chunk_less(a, b) && !chunk_less(b, c) ==> !chunk_less(a, c),
        chunk_less(a, b) ==> !chunk_less(b, a),
{
}

proof fn lemma_insert_desc_sorted(s: Seq<ChunkView>, x: ChunkView)
    requires
        desc_ordered(s),
    ensures
        desc_ordered(insert_desc(s, x)),
        insert_desc(s, x).to_multiset() == s.to_multiset().insert(x),
        insert_desc(s, x).len() == s.len() + 1,
        forall|i: int| 0 <= i < insert_desc(s, x).len() ==> #[trigger] insert_desc(s, x)[i] == x || s.contains(insert_desc(s, x)[i]),
    decreases s.len(),
{
    broadcast use vstd::seq_lib::to_multiset_build;

    if s.len() == 0 {
        assert(insert_desc(s, x) == seq![x]);
        assert(seq![x] =~= Seq::<ChunkView>::empty().push(x));
        assert(s =~= Seq::<ChunkView>::empty());
    } else if chunk_less(s.last(), x) {
        let front = s.drop_last();
        assert forall|i: int, j: int| 0 <= i < j < front.len() implies !chunk_less(front[i], front[j]) by {
            assert(front[i] == s[i] && front[j] == s[j]);
        }
        lemma_insert_desc_sorted(front, x);
        let t = insert_desc(front, x);
        let r = t.push(s.last());
        assert(insert_desc(s, x) == r);
        assert(s =~= front.push(s.last()));
        assert forall|i: int, j: int| 0 <= i < j < r.len() implies !chunk_less(r[i], r[j]) by {
            if j < t.len() {
                assert(r[i] == t[i] && r[j] == t[j]);
            } else {
                assert(r[j] == s.last());
                assert(r[i] == t[i]);
                if t[i] == x {
                    lemma_less_trans(x, s.last(), x);
                } else {
                    assert(front.contains(t[i]));
                    let q = choose|q: int| 0 <= q < front.len() && front[q] == t[i];
                    assert(s[q] == t[i]);
                    assert(!chunk_less(s[q], s[s.len() - 1]));
                }
            }
        }
        assert forall|i: int| 0 <= i < r.len() implies #[trigger] r[i] == x || s.contains(r[i]) by {
            if i < t.len() {
                assert(r[i] == t[i]);
                if t[i] != x {
                    assert(front.contains(t[i]));
                    let q = choose|q: int| 0 <= q < front.len() && front[q] == t[i];
                    assert(s[q] == t[i]);
                }
            } else {
                assert(r[i] == s[s.len() - 1]);
            }
        }
        assert(r.to_multiset() == t.to_multiset().insert(s.last()));
        assert(s.to_multiset() == front.to_multiset().insert(s.last()));
        assert(r.to_multiset() =~= s.to_multiset().insert(x));
    } else {
        let r = s.push(x);
        assert(insert_desc(s, x) == r);
        assert forall|i: int, j: int| 0 <= i < j < r.len() implies !chunk_less(r[i], r[j]) by {
            if j < s.len() {
                assert(r[i] == s[i] && r[j] == s[j]);
            } else {
                assert(r[j] == x);
                assert(r[i] == s[i]);
                if i < s.len() - 1 {
                    assert(!chunk_less(s[i], s[s.len() - 1]));
                    lemma_less_trans(s[i], s[s.len() - 1], x);
                }
            }
        }
        assert forall|i: int| 0 <= i < r.len() implies #[trigger] r[i] == x || s.contains(r[i]) by {
            if i < s.len() {
                assert(r[i] == s[i]);
            }
        }
    }
}

/// Sorting chunks for scheduling keeps them all and puts them in decreasing
/// order: largest first, so that as much as possible is scheduled first.
pub proof fn lemma_sort_desc(s: Seq<ChunkView>)
    ensures
        desc_ordered(sort_desc(s)),
        sort_desc(s).to_multiset() == s.to_multiset(),
        sort_desc(s).len() == s.len(),
    decreases s.len(),
{
    broadcast use vstd::seq_lib::to_multiset_build;

    if s.len() == 0 {
        assert(sort_desc(s) =~= Seq::<ChunkView>::empty());
        assert(s =~= Seq::<ChunkView>::empty());
    } else {
        lemma_sort_desc(s.drop_last());
        lemma_insert_desc_sorted(sort_desc(s.drop_last()), s.last());
        assert(s =~= s.drop_last().push(s.last()));
    }
}

} // verus!

verus! {

/// The chunks that [`next_chunks`] hands out for run ids `ids`.
pub open spec fn scheduled_chunks(exp: &Experiment, ids: Seq<usize>, runs_per_job: nat, chunk_length: nat, how_many: nat) -> Seq<ChunkView> {
    let all = sort_desc(all_chunks(groups(with_limits(exp, ids)), runs_per_job, chunk_length));
    if how_many <= all.len() {
        all.take(how_many as int)
    } else {
        all
    }
}

proof fn lemma_chunk_runs_contains(cs: Seq<ChunkView>, k: int, r: usize)
    requires
        0 <= k < cs.len(),
        job_runs(cs[k].0).contains(r),
    ensures
        chunk_runs(cs).contains(r),
    decreases cs.len(),
{
    let x = job_runs(cs[0].0);
    if k == 0 {
        let i = choose|i: int| 0 <= i < x.len() && x[i] == r;
        assert(chunk_runs(cs)[i] == r);
    } else {
        lemma_chunk_runs_contains(cs.drop_first(), k - 1, r);
        let rest = chunk_runs(cs.drop_first());
        let i = choose|i: int| 0 <= i < rest.len() && rest[i] == r;
        assert(chunk_runs(cs)[x.len() + i] == r);
    }
}

/// The runs listed as still to be scheduled are exactly the runs that have
/// not been submitted (they have no Slurm id), that Slurm does not know of,
/// that have not finished, and whose parent, if any, has finished.
pub proof fn lemma_unscheduled_exactly(exp: &Experiment, status: Seq<Status>, k: nat)
    requires
        k <= exp.runs.len(),
    ensures
        forall|x: usize|
            #[trigger] unscheduled_upto(exp, status, k).contains(x) <==> (x < k && !status[x as int].scheduled()
                && !status[x as int].completed() && exp.runs@[x as int].slurm_id is None && !(exp.runs@[x as int].parent matches Some(d)
                && !status[d as int].completed())),
    decreases k,
{
    if k > 0 {
        lemma_unscheduled_exactly(exp, status, (k - 1) as nat);
        let rest = unscheduled_upto(exp, status, (k - 1) as nat);
        let cur = unscheduled_upto(exp, status, k);
        if is_unscheduled(exp, status, k - 1) {
            assert(cur == rest.push((k - 1) as usize));
        } else {
            assert(cur == rest);
        }
        assert forall|x: usize|
            #[trigger] cur.contains(x) <==> (x < k && !status[x as int].scheduled() && !status[x as int].completed()
                && exp.runs@[x as int].slurm_id is None && !(exp.runs@[x as int].parent matches Some(d) && !status[d as int].completed())) by {
            if cur.contains(x) {
                let i = choose|i: int| 0 <= i < cur.len() && cur[i] == x;
                if i < rest.len() {
                    assert(rest[i] == x);
                    assert(rest.contains(x));
                }
            }
            if x < k && !status[x as int].scheduled() && !status[x as int].completed() && exp.runs@[x as int].slurm_id is None
                && !(exp.runs@[x as int].parent matches Some(d) && !status[d as int].completed()) {
                if x < k - 1 {
                    assert(rest.contains(x));
                    let i = choose|i: int| 0 <= i < rest.len() && rest[i] == x;
                    assert(cur[i] == x);
                } else {
                    assert(cur[cur.len() - 1] == x);
                }
            }
        }
    }
}

/// No run handed out for scheduling has been submitted before (it has no
/// Slurm id), is known to Slurm, or has finished: every run in the chunks is
/// a run of the experiment that can still be scheduled.
pub proof fn lemma_next_chunks_fresh(exp: &Experiment, status: Seq<Status>, runs_per_job: nat, chunk_length: nat, how_many: nat)
    requires
        runs_per_job > 0,
        chunk_length > 0,
    ensures
        ({
            let out = scheduled_chunks(exp, unscheduled_upto(exp, status, exp.runs.len() as nat), runs_per_job, chunk_length, how_many);
            forall|k: int, r: usize|
                0 <= k < out.len() && #[trigger] job_runs(out[k].0).contains(r) ==> r < exp.runs.len() && exp.runs@[r as int].slurm_id is None
                    && !status[r as int].scheduled() && !status[r as int].completed()
                    && !(exp.runs@[r as int].parent matches Some(d) && !status[d as int].completed())
        }),
{
    broadcast use vstd::seq_lib::to_multiset_contains;

    let ids = unscheduled_upto(exp, status, exp.runs.len() as nat);
    let all = all_chunks(groups(with_limits(exp, ids)), runs_per_job, chunk_length);
    let out = scheduled_chunks(exp, ids, runs_per_job, chunk_length, how_many);
    lemma_next_chunks_sound(exp, ids, runs_per_job, chunk_length, how_many);
    lemma_unscheduled_exactly(exp, status, exp.runs.len() as nat);
    assert forall|k: int, r: usize| 0 <= k < out.len() && #[trigger] job_runs(out[k].0).contains(r) implies r < exp.runs.len()
        && exp.runs@[r as int].slurm_id is None && !status[r as int].scheduled() && !status[r as int].completed()
        && !(exp.runs@[r as int].parent matches Some(d) && !status[d as int].completed()) by {
        let c = out[k];
        assert(out.contains(c));
        assert(out.to_multiset().count(c) > 0);
        assert(all.to_multiset().count(c) > 0);
        assert(all.contains(c));
        let q = choose|q: int| 0 <= q < all.len() && all[q] == c;
        lemma_chunk_runs_contains(all, q, r);
        assert(ids.contains(r));
    }
}

/// The chunks handed out for scheduling come largest first, are at most
/// `how_many`, and each is one of the chunks of the schedulable runs: it
/// fits Slurm's limits and holds runs of its limits only. Together, those
/// chunks hold every schedulable run exactly once.
pub proof fn lemma_next_chunks_sound(exp: &Experiment, ids: Seq<usize>, runs_per_job: nat, chunk_length: nat, how_many: nat)
    requires
        runs_per_job > 0,
        chunk_length > 0,
    ensures
        ({
            let all = all_chunks(groups(with_limits(exp, ids)), runs_per_job, chunk_length);
            let out = scheduled_chunks(exp, ids, runs_per_job, chunk_length, how_many);
            &&& desc_ordered(out)
            &&& out.len() <= how_many
            &&& out.to_multiset().subset_of(all.to_multiset())
            &&& forall|k: int| 0 <= k < out.len() ==> #[trigger] chunk_fits(out[k], runs_per_job, chunk_length)
                && chunk_uniform(exp, out[k])
            &&& chunk_runs(all) == ids
        }),
{
    broadcast use vstd::seq_lib::to_multiset_contains, vstd::seq_lib::lemma_multiset_commutative;

    let all = all_chunks(groups(with_limits(exp, ids)), runs_per_job, chunk_length);
    let sorted = sort_desc(all);
    let out = scheduled_chunks(exp, ids, runs_per_job, chunk_length, how_many);
    lemma_sort_desc(all);
    lemma_chunks_hold_each_run_once(exp, ids, runs_per_job, chunk_length);
    lemma_chunks_share_limits(exp, ids, runs_per_job, chunk_length);
    lemma_chunk_sizes(exp, ids, runs_per_job, chunk_length);
    if how_many <= sorted.len() {
        let n = how_many as int;
        assert(sorted == sorted.take(n) + sorted.skip(n));
        assert((sorted.take(n) + sorted.skip(n)).to_multiset() =~= sorted.take(n).to_multiset().add(sorted.skip(n).to_multiset()));
        assert forall|i: int, j: int| 0 <= i < j < out.len() implies !chunk_less(out[i], out[j]) by {
            assert(out[i] == sorted[i] && out[j] == sorted[j]);
        }
    }
    assert(out.to_multiset().subset_of(all.to_multiset()));
    assert forall|k: int| 0 <= k < out.len() implies #[trigger] chunk_fits(out[k], runs_per_job, chunk_length)
        && chunk_uniform(exp, out[k]) by {
        let c = out[k];
        assert(out.contains(c));
        assert(out.to_multiset().count(c) > 0);
        assert(all.to_multiset().count(c) > 0);
        assert(all.contains(c));
        let q = choose|q: int| 0 <= q < all.len() && all[q] == c;
        assert(chunk_fits(all[q], runs_per_job, chunk_length));
        assert(chunk_uniform(exp, all[q]));
    }
}

} // verus!
