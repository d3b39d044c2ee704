//! Slurm arrays of runs: which runs are still unscheduled, and how they are
//! cut into arrays of bounded length.
use vstd::prelude::*;

use vstd::multiset::Multiset;

use crate::model::Experiment;
use crate::model::ResourceLimits;
use crate::slurm::SlurmCheckError;

verus! {

/// Where an array stands.
#[derive(Debug, Clone, Copy, PartialEq, Eq, Structural)]
pub enum ChunkRunStatus {
    /// Not yet submitted.
    Pending,
    /// Submitted.
    Scheduled,
}

/// A Slurm array of runs with common resource limits.
#[derive(Debug, Clone, PartialEq, Eq)]
pub struct Chunk {
    /// The runs (by id) of the array.
    pub runs: Vec<usize>,
    /// The resource limits of the array.
    pub resource_limits: Option<ResourceLimits>,
    /// Whether the array was submitted.
    pub status: ChunkRunStatus,
}

/// Whether run `i` is in one of the arrays.
pub open spec fn in_some_chunk(chunks: Seq<Chunk>, i: usize) -> bool {
    exists|c: int| 0 <= c < chunks.len() && #[trigger] chunks[c].runs@.contains(i)
}

/// The runs among the first `k` that are in no array, in increasing order.
pub open spec fn unscheduled_below(chunks: Seq<Chunk>, k: nat) -> Seq<usize>
    decreases k,
{
    if k == 0 {
        Seq::empty()
    } else {
        let rest = unscheduled_below(chunks, (k - 1) as nat);
        if in_some_chunk(chunks, (k - 1) as usize) {
            rest
        } else {
            rest.push((k - 1) as usize)
        }
    }
}

/// Gets the runs (out of `run_count`) that are in none of the arrays, in increasing order.
pub fn get_unscheduled_runs(run_count: usize, chunks: &Vec<Chunk>) -> (r: Vec<usize>)
    ensures
        r@ == unscheduled_below(chunks@, run_count as nat),
{
    let mut r: Vec<usize> = Vec::new();
    let mut i: usize = 0;
    while i < run_count
        invariant
            i <= run_count,
            r@ == unscheduled_below(chunks@, i as nat),
        decreases run_count - i,
    {
        let mut found = false;
        let mut c: usize = 0;
        while c < chunks.len()
            invariant
                c <= chunks.len(),
                found == exists|x: int| 0 <= x < c && #[trigger] chunks@[x].runs@.contains(i),
            decreases chunks.len() - c,
        {
            let runs = &chunks[c].runs;
            let mut j: usize = 0;
            let mut here = false;
            while j < runs.len()
                invariant
                    j <= runs.len(),
                    here == exists|y: int| 0 <= y < j && runs@[y] == i,
                decreases runs.len() - j,
            {
                if runs[j] == i {
                    here = true;
                }
                j = j + 1;
            }
            assert(here == chunks@[c as int].runs@.contains(i));
            if here {
                found = true;
            }
            c = c + 1;
        }
        if !found {
            r.push(i);
        }
        i = i + 1;
    }
    r
}

/// `ids` cut into consecutive pieces of `cl` ids, the last one possibly shorter.
pub open spec fn pieces(ids: Seq<usize>, cl: nat) -> Seq<Seq<usize>>
    decreases ids.len(),
{
    if ids.len() == 0 || cl == 0 {
        Seq::empty()
    } else if ids.len() <= cl {
        seq![ids]
    } else {
        seq![ids.take(cl as int)] + pieces(ids.skip(cl as int), cl)
    }
}

/// The runs of each array.
pub open spec fn chunk_runs(cs: Seq<Chunk>) -> Seq<Seq<usize>> {
    cs.map_values(|c: Chunk| c.runs@)
}

/// Allocates the runs `ids` of a Slurm experiment to at most `num_chunks`
/// arrays of at most `chunk_length` runs each, in order; all arrays get the
/// experiment's resource limits.
///
/// Fails with [`SlurmCheckError::NoSlurmConfig`] when the experiment has no
/// Slurm settings.
pub fn create_chunks(
    exp: &Experiment,
    chunk_length: usize,
    num_chunks: usize,
    ids: &Vec<usize>,
) -> (r: Result<Vec<Chunk>, SlurmCheckError>)
    requires
        chunk_length > 0,
    ensures
        r is Err <==> exp.slurm is None,
        r matches Err(e) ==> e == SlurmCheckError::NoSlurmConfig,
        r matches Ok(cs) ==> chunk_runs(cs@) == if num_chunks <= pieces(ids@, chunk_length as nat).len() {
            pieces(ids@, chunk_length as nat).take(num_chunks as int)
        } else {
            pieces(ids@, chunk_length as nat)
        },
        r matches Ok(cs) ==> forall|c: int| 0 <= c < cs.len() ==> #[trigger] cs@[c].resource_limits == exp.resource_limits && cs@[c].status == ChunkRunStatus::Pending,
{
    match &exp.slurm {
        None => Err(SlurmCheckError::NoSlurmConfig),
        Some(_) => Ok(cut_chunks(exp.resource_limits, chunk_length, num_chunks, ids)),
    }
}

/// Cuts the runs `ids` into at most `num_chunks` arrays of at most
/// `chunk_length` runs each, in order; all arrays get `resource_limits`.
pub fn cut_chunks(
    resource_limits: Option<ResourceLimits>,
    chunk_length: usize,
    num_chunks: usize,
    ids: &Vec<usize>,
) -> (cs: Vec<Chunk>)
    requires
        chunk_length > 0,
    ensures
        chunk_runs(cs@) == if num_chunks <= pieces(ids@, chunk_length as nat).len() {
            pieces(ids@, chunk_length as nat).take(num_chunks as int)
        } else {
            pieces(ids@, chunk_length as nat)
        },
        forall|c: int| 0 <= c < cs.len() ==> #[trigger] cs@[c].resource_limits == resource_limits && cs@[c].status == ChunkRunStatus::Pending,
{
    let ghost all = pieces(ids@, chunk_length as nat);
    let mut chunks: Vec<Chunk> = Vec::new();
    let mut start: usize = 0;
    assert(ids@.skip(0) =~= ids@);
    while start < ids.len() && chunks.len() < num_chunks
        invariant
            chunk_length > 0,
            start <= ids.len(),
            chunks.len() <= num_chunks,
            chunk_runs(chunks@) + pieces(ids@.skip(start as int), chunk_length as nat) == all,
            forall|c: int| 0 <= c < chunks.len() ==> #[trigger] chunks@[c].resource_limits == resource_limits && chunks@[c].status == ChunkRunStatus::Pending,
        decreases ids.len() - start,
    {
        let end = if ids.len() - start <= chunk_length { ids.len() } else { start + chunk_length };
        let mut piece: Vec<usize> = Vec::new();
        let mut i = start;
        while i < end
            invariant
                start <= i <= end <= ids.len(),
                piece@ == ids@.subrange(start as int, i as int),
            decreases end - i,
        {
            piece.push(ids[i]);
            i = i + 1;
            assert(piece@ =~= ids@.subrange(start as int, i as int));
        }
        proof {
            let rest = ids@.skip(start as int);
            if rest.len() <= chunk_length {
                assert(rest =~= piece@);
                assert(ids@.skip(end as int) =~= Seq::<usize>::empty());
            } else {
                assert(rest.take(chunk_length as int) =~= piece@);
                assert(rest.skip(chunk_length as int) =~= ids@.skip(end as int));
            }
        }
        let ghost before = chunk_runs(chunks@);
        chunks.push(Chunk { runs: piece, resource_limits, status: ChunkRunStatus::Pending });
        assert(chunk_runs(chunks@) =~= before.push(ids@.subrange(start as int, end as int)));
        start = end;
    }
    proof {
        if start == ids.len() {
            assert(ids@.skip(start as int) =~= Seq::<usize>::empty());
            assert(chunk_runs(chunks@) =~= all);
        } else {
            assert(all.take(num_chunks as int) =~= chunk_runs(chunks@));
        }
    }
    chunks
}

/// Whether array `c` holds runs that all have its limits.
pub open spec fn homogeneous(c: Chunk, limit_of: Seq<ResourceLimits>) -> bool {
    &&& c.resource_limits is Some
    &&& forall|k: int| 0 <= k < c.runs.len() ==> #[trigger] c.runs@[k] < limit_of.len() && limit_of[c.runs@[k] as int] == c.resource_limits->Some_0
}

/// Whether array `c` is a well-formed greedy array: non-empty, within the length
/// bound (a single run always fits), homogeneous and pending.
pub open spec fn greedy_chunk_ok(c: Chunk, limit_of: Seq<ResourceLimits>, chunk_length: nat) -> bool {
    &&& c.runs.len() > 0
    &&& (c.runs.len() <= chunk_length || c.runs.len() == 1)
    &&& homogeneous(c, limit_of)
    &&& c.status == ChunkRunStatus::Pending
}

/// The length bound of the greedy arrays: a bound of zero still admits one run.
pub open spec fn eff_len(chunk_length: nat) -> nat {
    if chunk_length == 0 {
        1
    } else {
        chunk_length
    }
}

/// How many of the first `k` runs of `ids` have the limits `l`.
pub open spec fn class_count(ids: Seq<usize>, limit_of: Seq<ResourceLimits>, l: ResourceLimits, k: nat) -> nat
    decreases k,
{
    if k == 0 {
        0
    } else {
        class_count(ids, limit_of, l, (k - 1) as nat) + if limit_of[ids[k - 1] as int] == l {
            1nat
        } else {
            0nat
        }
    }
}

/// Whether the `j`-th run of `ids` opens a new array: the runs of its limits
/// before it fill whole arrays.
pub open spec fn opens_array(ids: Seq<usize>, limit_of: Seq<ResourceLimits>, chunk_length: nat, j: int) -> bool {
    class_count(ids, limit_of, limit_of[ids[j] as int], j as nat) % eff_len(chunk_length) == 0
}

/// How many arrays the first `k` runs of `ids` open.
pub open spec fn arrays_opened(ids: Seq<usize>, limit_of: Seq<ResourceLimits>, chunk_length: nat, k: nat) -> nat
    decreases k,
{
    if k == 0 {
        0
    } else {
        arrays_opened(ids, limit_of, chunk_length, (k - 1) as nat) + if opens_array(
            ids,
            limit_of,
            chunk_length,
            k - 1,
        ) {
            1nat
        } else {
            0nat
        }
    }
}

/// The runs of the arrays, one array after the other.
pub open spec fn all_runs(cs: Seq<Chunk>) -> Seq<usize>
    decreases cs.len(),
{
    if cs.len() == 0 {
        Seq::empty()
    } else {
        all_runs(cs.drop_last()) + cs.last().runs@
    }
}

/// The runs of the arrays, counted with multiplicity.
pub open spec fn runs_multiset(cs: Seq<Chunk>) -> Multiset<usize> {
    all_runs(cs).to_multiset()
}

proof fn lemma_all_runs_append(a: Seq<Chunk>, b: Seq<Chunk>)
    ensures
        all_runs(a + b) == all_runs(a) + all_runs(b),
    decreases b.len(),
{
    if b.len() == 0 {
        assert(a + b =~= a);
        assert(all_runs(a) + all_runs(b) =~= all_runs(a));
    } else {
        lemma_all_runs_append(a, b.drop_last());
        assert((a + b).drop_last() =~= a + b.drop_last());
        assert(all_runs(a) + all_runs(b) =~= all_runs(a) + all_runs(b.drop_last()) + b.last().runs@);
    }
}

proof fn lemma_runs_multiset_append(a: Seq<Chunk>, b: Seq<Chunk>)
    ensures
        runs_multiset(a + b) == runs_multiset(a).add(runs_multiset(b)),
{
    lemma_all_runs_append(a, b);
    vstd::seq_lib::lemma_multiset_commutative(all_runs(a), all_runs(b));
}

proof fn lemma_runs_multiset_single(x: Chunk)
    ensures
        runs_multiset(seq![x]) == x.runs@.to_multiset(),
{
    assert(seq![x].drop_last() == Seq::<Chunk>::empty());
    assert(all_runs(Seq::<Chunk>::empty()) == Seq::<usize>::empty());
    assert(all_runs(seq![x]) =~= x.runs@);
}

/// Taking out the `j`-th array takes out its runs.
proof fn lemma_runs_multiset_remove(s: Seq<Chunk>, j: int)
    requires
        0 <= j < s.len(),
    ensures
        runs_multiset(s) == runs_multiset(s.remove(j)).add(s[j].runs@.to_multiset()),
{
    let (a, b) = (s.take(j), s.skip(j + 1));
    assert(s =~= a + seq![s[j]] + b);
    assert(s.remove(j) =~= a + b);
    lemma_runs_multiset_append(a + seq![s[j]], b);
    lemma_runs_multiset_append(a, seq![s[j]]);
    lemma_runs_multiset_append(a, b);
    lemma_runs_multiset_single(s[j]);
    assert(runs_multiset(s) =~= runs_multiset(s.remove(j)).add(s[j].runs@.to_multiset()));
}

/// Putting in an array puts in its runs.
proof fn lemma_runs_multiset_insert(s: Seq<Chunk>, j: int, x: Chunk)
    requires
        0 <= j <= s.len(),
    ensures
        runs_multiset(s.insert(j, x)) == runs_multiset(s).add(x.runs@.to_multiset()),
{
    lemma_runs_multiset_remove(s.insert(j, x), j);
    assert(s.insert(j, x).remove(j) =~= s);
}

/// A count that is positive has a witness.
proof fn lemma_class_count_witness(ids: Seq<usize>, limit_of: Seq<ResourceLimits>, l: ResourceLimits, k: nat)
    requires
        class_count(ids, limit_of, l, k) > 0,
    ensures
        exists|j: int| 0 <= j < k && limit_of[#[trigger] ids[j] as int] == l,
    decreases k,
{
    if limit_of[ids[k - 1] as int] != l {
        lemma_class_count_witness(ids, limit_of, l, (k - 1) as nat);
        let j = choose|j: int| 0 <= j < k - 1 && limit_of[#[trigger] ids[j] as int] == l;
        assert(limit_of[ids[j] as int] == l);
    }
}

proof fn lemma_empty_multiset()
    ensures
        Seq::<usize>::empty().to_multiset() == Multiset::<usize>::empty(),
{
    broadcast use vstd::seq_lib::to_multiset_len, vstd::multiset::lemma_multiset_empty_len;

    assert(Seq::<usize>::empty().to_multiset().len() == 0);
}

/// One step of a remainder: it grows by one, or wraps to zero.
proof fn lemma_mod_step(x: nat, e: nat)
    requires
        e > 0,
    ensures
        x % e < e,
        x % e + 1 < e ==> (x + 1) % e == x % e + 1,
        x % e + 1 == e ==> (x + 1) % e == 0,
{
    vstd::arithmetic::div_mod::lemma_add_mod_noop(x as int, 1, e as int);
    vstd::arithmetic::div_mod::lemma_mod_pos_bound(x as int, e as int);
    if e == 1 {
        assert(x % 1 == 0 && (x + 1) % 1 == 0) by (nonlinear_arith);
    } else {
        vstd::arithmetic::div_mod::lemma_small_mod(1, e);
        if x % e + 1 < e {
            vstd::arithmetic::div_mod::lemma_small_mod((x % e + 1) as nat, e);
        } else {
            vstd::arithmetic::div_mod::lemma_mod_self_0(e as int);
        }
    }
}

/// Whether one of the open arrays has the limits `l`.
pub open spec fn has_open(open: Seq<Chunk>, l: ResourceLimits) -> bool {
    exists|c: int| 0 <= c < open.len() && #[trigger] open[c].resource_limits == Some(l)
}

/// The open arrays after the first `k` runs: one per limits seen, with distinct
/// limits, each holding the runs of its limits past the last full array.
#[verifier::opaque]
pub open spec fn open_ok(open: Seq<Chunk>, ids: Seq<usize>, limit_of: Seq<ResourceLimits>, chunk_length: nat, k: nat) -> bool {
    &&& forall|a: int, b: int| 0 <= a < b < open.len() ==> open[a].resource_limits != open[b].resource_limits
    &&& forall|c: int| 0 <= c < open.len() ==> ({
        let cnt = class_count(ids, limit_of, (#[trigger] open[c]).resource_limits->Some_0, k);
        &&& open[c].resource_limits is Some
        &&& cnt > 0
        &&& open[c].runs.len() == (cnt - 1) as nat % eff_len(chunk_length) + 1
    })
    &&& forall|j: int| 0 <= j < k ==> has_open(open, limit_of[#[trigger] ids[j] as int])
}

/// A run whose limits have an open array extends that array, or replaces it
/// with a fresh one.
proof fn lemma_open_update(open: Seq<Chunk>, j: int, c: Chunk, ids: Seq<usize>, limit_of: Seq<ResourceLimits>, cl: nat, k: nat)
    requires
        open_ok(open, ids, limit_of, cl, k),
        k < ids.len(),
        0 <= j < open.len(),
        open[j].resource_limits == Some(limit_of[ids[k as int] as int]),
        c.resource_limits == Some(limit_of[ids[k as int] as int]),
        c.runs.len() == class_count(ids, limit_of, limit_of[ids[k as int] as int], k) % eff_len(cl) + 1,
    ensures
        open_ok(open.update(j, c), ids, limit_of, cl, k + 1),
{
    reveal(open_ok);
    let lim = limit_of[ids[k as int] as int];
    let n = open.update(j, c);
    assert forall|l: ResourceLimits| l != lim implies #[trigger] class_count(ids, limit_of, l, k + 1)
        == class_count(ids, limit_of, l, k) by {}
    assert forall|c2: int| 0 <= c2 < n.len() implies ({
        let cnt2 = class_count(ids, limit_of, (#[trigger] n[c2]).resource_limits->Some_0, k + 1);
        &&& n[c2].resource_limits is Some
        &&& cnt2 > 0
        &&& n[c2].runs.len() == (cnt2 - 1) as nat % eff_len(cl) + 1
    }) by {
        if c2 != j {
            assert(open[c2].resource_limits != open[j]. resource_limits);
            assert(open[c2].resource_limits->Some_0 != lim);
        }
    }
    assert forall|i: int| 0 <= i < k + 1 implies has_open(n, limit_of[#[trigger] ids[i] as int]) by {
        let l = limit_of[ids[i] as int];
        if i == k {
            assert(n[j].resource_limits == Some(l));
        } else {
            assert(has_open(open, l));
            let c2 = choose|c2: int| 0 <= c2 < open.len() && #[trigger] open[c2].resource_limits == Some(l);
            if c2 == j {
                assert(n[j].resource_limits == Some(l));
            } else {
                assert(n[c2].resource_limits == Some(l));
            }
        }
    }
}

/// A run whose limits have no open array opens one; its limits were not seen before.
proof fn lemma_open_push(open: Seq<Chunk>, c: Chunk, ids: Seq<usize>, limit_of: Seq<ResourceLimits>, cl: nat, k: nat)
    requires
        open_ok(open, ids, limit_of, cl, k),
        k < ids.len(),
        !has_open(open, limit_of[ids[k as int] as int]),
        c.resource_limits == Some(limit_of[ids[k as int] as int]),
        c.runs.len() == 1,
    ensures
        class_count(ids, limit_of, limit_of[ids[k as int] as int], k) == 0,
        open_ok(open.push(c), ids, limit_of, cl, k + 1),
{
    reveal(open_ok);
    let lim = limit_of[ids[k as int] as int];
    let n = open.push(c);
    if class_count(ids, limit_of, lim, k) > 0 {
        lemma_class_count_witness(ids, limit_of, lim, k);
        let i = choose|i: int| 0 <= i < k && limit_of[#[trigger] ids[i] as int] == lim;
        assert(has_open(open, limit_of[ids[i] as int]));
    }
    assert forall|l: ResourceLimits| l != lim implies #[trigger] class_count(ids, limit_of, l, k + 1)
        == class_count(ids, limit_of, l, k) by {}
    assert forall|a: int, b: int| 0 <= a < b < n.len() implies n[a].resource_limits != n[b].resource_limits by {
        if b == open.len() {
            assert(n[a] == open[a]);
            if open[a].resource_limits == Some(lim) {
                assert(has_open(open, lim));
            }
        }
    }
    assert forall|c2: int| 0 <= c2 < n.len() implies ({
        let cnt2 = class_count(ids, limit_of, (#[trigger] n[c2]).resource_limits->Some_0, k + 1);
        &&& n[c2].resource_limits is Some
        &&& cnt2 > 0
        &&& n[c2].runs.len() == (cnt2 - 1) as nat % eff_len(cl) + 1
    }) by {
        if c2 < open.len() {
            assert(n[c2] == open[c2]);
            if open[c2].resource_limits == Some(lim) {
                assert(has_open(open, lim));
            }
        } else {
            assert(0nat % eff_len(cl) == 0) by (nonlinear_arith)
                requires
                    eff_len(cl) > 0,
            ;
        }
    }
    assert forall|i: int| 0 <= i < k + 1 implies has_open(n, limit_of[#[trigger] ids[i] as int]) by {
        let l = limit_of[ids[i] as int];
        if i == k {
            assert(n[open.len() as int].resource_limits == Some(l));
        } else {
            assert(has_open(open, l));
            let c2 = choose|c2: int| 0 <= c2 < open.len() && #[trigger] open[c2].resource_limits == Some(l);
            assert(n[c2].resource_limits == Some(l));
        }
    }
}

/// The length of the open array of run `k`'s limits.
proof fn lemma_open_len(open: Seq<Chunk>, j: int, ids: Seq<usize>, limit_of: Seq<ResourceLimits>, cl: nat, k: nat)
    requires
        open_ok(open, ids, limit_of, cl, k),
        0 <= j < open.len(),
        open[j].resource_limits == Some(limit_of[ids[k as int] as int]),
    ensures
        ({
            let cnt = class_count(ids, limit_of, limit_of[ids[k as int] as int], k);
            cnt > 0 && open[j].runs.len() == (cnt - 1) as nat % eff_len(cl) + 1
        }),
{
    reveal(open_ok);
}

/// The runs among the first `k` of `ids` whose limits are `l`, in order.
pub open spec fn class_seq(ids: Seq<usize>, limit_of: Seq<ResourceLimits>, l: ResourceLimits, k: nat) -> Seq<usize>
    decreases k,
{
    if k == 0 {
        Seq::empty()
    } else if limit_of[ids[k - 1] as int] == l {
        class_seq(ids, limit_of, l, (k - 1) as nat).push(ids[k - 1])
    } else {
        class_seq(ids, limit_of, l, (k - 1) as nat)
    }
}

/// Whether `runs` is the piece of `cls` that starts at `s`, a multiple of `e`:
/// the `e` runs from there, or the runs from there to the end of `cls`.
pub open spec fn piece_at(runs: Seq<usize>, cls: Seq<usize>, e: nat, s: int) -> bool {
    &&& 0 <= s
    &&& s % (e as int) == 0
    &&& s + runs.len() <= cls.len()
    &&& (runs.len() == e || s + runs.len() == cls.len())
    &&& runs == cls.subrange(s, s + runs.len())
}

/// Whether array `c` is one of the pieces that the runs of its limits in `ids`
/// are cut into, every `eff_len(cl)` runs in the order of `ids`.
pub open spec fn class_piece(c: Chunk, ids: Seq<usize>, limit_of: Seq<ResourceLimits>, cl: nat) -> bool {
    exists|s: int| #[trigger] piece_at(c.runs@, class_seq(ids, limit_of, c.resource_limits->Some_0, ids.len() as nat), eff_len(cl), s)
}

/// Whether array `c` is a well-formed greedy array that is one piece of its limits class.
pub open spec fn laid_chunk_ok(c: Chunk, ids: Seq<usize>, limit_of: Seq<ResourceLimits>, cl: nat) -> bool {
    greedy_chunk_ok(c, limit_of, cl) && class_piece(c, ids, limit_of, cl)
}

/// Whether `full` is a complete greedy layout of `ids`: every array opened, each a
/// piece of its limits class, longest first, together holding exactly the runs of `ids`.
pub open spec fn full_layout(full: Seq<Chunk>, ids: Seq<usize>, limit_of: Seq<ResourceLimits>, cl: nat) -> bool {
    &&& full.len() == arrays_opened(ids, limit_of, cl, ids.len() as nat)
    &&& forall|c: int| 0 <= c < full.len() ==> #[trigger] laid_chunk_ok(full[c], ids, limit_of, cl)
    &&& forall|a: int, b: int| 0 <= a < b < full.len() ==> full[a].runs.len() >= full[b].runs.len()
    &&& runs_multiset(full) == ids.to_multiset()
}

/// The open arrays hold the last runs of their limits class seen so far.
#[verifier::opaque]
pub open spec fn open_pieces(open: Seq<Chunk>, ids: Seq<usize>, limit_of: Seq<ResourceLimits>, k: nat) -> bool {
    forall|c: int| 0 <= c < open.len() ==> ({
        let cls = class_seq(ids, limit_of, (#[trigger] open[c]).resource_limits->Some_0, k);
        open[c].runs@ == cls.subrange(cls.len() - open[c].runs.len(), cls.len() as int)
    })
}

/// The closed arrays are full pieces of their limits class, starting at `starts`.
pub open spec fn closed_pieces(closed: Seq<Chunk>, starts: Seq<int>, ids: Seq<usize>, limit_of: Seq<ResourceLimits>, e: nat, k: nat) -> bool {
    &&& starts.len() == closed.len()
    &&& forall|c: int| #![trigger closed[c]] 0 <= c < closed.len() ==> closed[c].runs.len() == e && piece_at(
        closed[c].runs@,
        class_seq(ids, limit_of, closed[c].resource_limits->Some_0, k),
        e,
        starts[c],
    )
}

proof fn lemma_class_seq_len(ids: Seq<usize>, limit_of: Seq<ResourceLimits>, l: ResourceLimits, k: nat)
    ensures
        class_seq(ids, limit_of, l, k).len() == class_count(ids, limit_of, l, k),
    decreases k,
{
    if k > 0 {
        lemma_class_seq_len(ids, limit_of, l, (k - 1) as nat);
    }
}

proof fn lemma_class_seq_prefix(ids: Seq<usize>, limit_of: Seq<ResourceLimits>, l: ResourceLimits, k1: nat, k2: nat)
    requires
        k1 <= k2,
    ensures
        class_seq(ids, limit_of, l, k1).len() <= class_seq(ids, limit_of, l, k2).len(),
        class_seq(ids, limit_of, l, k2).subrange(0, class_seq(ids, limit_of, l, k1).len() as int) == class_seq(ids, limit_of, l, k1),
    decreases k2,
{
    if k1 < k2 {
        lemma_class_seq_prefix(ids, limit_of, l, k1, (k2 - 1) as nat);
        let a = class_seq(ids, limit_of, l, k1);
        let b = class_seq(ids, limit_of, l, (k2 - 1) as nat);
        let c = class_seq(ids, limit_of, l, k2);
        assert(c.subrange(0, a.len() as int) =~= b.subrange(0, a.len() as int));
    } else {
        assert(class_seq(ids, limit_of, l, k2).subrange(0, class_seq(ids, limit_of, l, k1).len() as int) =~= class_seq(ids, limit_of, l, k1));
    }
}

proof fn lemma_closed_grow(closed: Seq<Chunk>, starts: Seq<int>, ids: Seq<usize>, limit_of: Seq<ResourceLimits>, e: nat, k: nat)
    requires
        closed_pieces(closed, starts, ids, limit_of, e, k),
    ensures
        closed_pieces(closed, starts, ids, limit_of, e, k + 1),
{
    assert forall|c: int| #![trigger closed[c]] 0 <= c < closed.len() implies closed[c].runs.len() == e && piece_at(
        closed[c].runs@,
        class_seq(ids, limit_of, closed[c].resource_limits->Some_0, k + 1),
        e,
        starts[c],
    ) by {
        let l = closed[c].resource_limits->Some_0;
        lemma_class_seq_prefix(ids, limit_of, l, k, k + 1);
        let a = class_seq(ids, limit_of, l, k);
        let b = class_seq(ids, limit_of, l, k + 1);
        let s0 = starts[c];
        assert(closed[c].runs.len() == e && piece_at(closed[c].runs@, a, e, s0));
        assert(b.subrange(s0, s0 + e) =~= b.subrange(0, a.len() as int).subrange(s0, s0 + e));
    }
}

/// A run of limits `lim` updates the open array `j` of those limits to `c`.
proof fn lemma_pieces_update(open: Seq<Chunk>, j: int, c: Chunk, ids: Seq<usize>, limit_of: Seq<ResourceLimits>, cl: nat, k: nat)
    requires
        open_ok(open, ids, limit_of, cl, k),
        open_pieces(open, ids, limit_of, k),
        k < ids.len(),
        0 <= j < open.len(),
        open[j].resource_limits == Some(limit_of[ids[k as int] as int]),
        c.resource_limits == Some(limit_of[ids[k as int] as int]),
        ({
            let cls = class_seq(ids, limit_of, limit_of[ids[k as int] as int], k + 1);
            c.runs@ == cls.subrange(cls.len() - c.runs.len(), cls.len() as int)
        }),
    ensures
        open_pieces(open.update(j, c), ids, limit_of, k + 1),
{
    reveal(open_ok);
    reveal(open_pieces);
    let lim = limit_of[ids[k as int] as int];
    let n = open.update(j, c);
    assert forall|c2: int| 0 <= c2 < n.len() implies ({
        let cls = class_seq(ids, limit_of, (#[trigger] n[c2]).resource_limits->Some_0, k + 1);
        n[c2].runs@ == cls.subrange(cls.len() - n[c2].runs.len(), cls.len() as int)
    }) by {
        if c2 != j {
            assert(open[c2].resource_limits != open[j].resource_limits);
            assert(open[c2].resource_limits->Some_0 != lim);
            assert(n[c2] == open[c2]);
        }
    }
}

/// A run whose limits have no open array opens the array `c` of that run alone.
proof fn lemma_pieces_push(open: Seq<Chunk>, c: Chunk, ids: Seq<usize>, limit_of: Seq<ResourceLimits>, cl: nat, k: nat)
    requires
        open_ok(open, ids, limit_of, cl, k),
        open_pieces(open, ids, limit_of, k),
        k < ids.len(),
        !has_open(open, limit_of[ids[k as int] as int]),
        class_count(ids, limit_of, limit_of[ids[k as int] as int], k) == 0,
        c.resource_limits == Some(limit_of[ids[k as int] as int]),
        c.runs@ == seq![ids[k as int]],
    ensures
        open_pieces(open.push(c), ids, limit_of, k + 1),
{
    reveal(open_ok);
    reveal(open_pieces);
    let lim = limit_of[ids[k as int] as int];
    let n = open.push(c);
    lemma_class_seq_len(ids, limit_of, lim, k);
    assert forall|c2: int| 0 <= c2 < n.len() implies ({
        let cls = class_seq(ids, limit_of, (#[trigger] n[c2]).resource_limits->Some_0, k + 1);
        n[c2].runs@ == cls.subrange(cls.len() - n[c2].runs.len(), cls.len() as int)
    }) by {
        if c2 < open.len() {
            assert(n[c2] == open[c2]);
            if open[c2].resource_limits == Some(lim) {
                assert(has_open(open, lim));
            }
        } else {
            let cls = class_seq(ids, limit_of, lim, k + 1);
            assert(cls =~= seq![ids[k as int]]);
            assert(cls.subrange(0, 1) =~= cls);
        }
    }
}

/// The open array of run `k`'s limits holds the last runs of that class.
proof fn lemma_pieces_at(open: Seq<Chunk>, j: int, ids: Seq<usize>, limit_of: Seq<ResourceLimits>, k: nat)
    requires
        open_pieces(open, ids, limit_of, k),
        0 <= j < open.len(),
    ensures
        ({
            let cls = class_seq(ids, limit_of, open[j].resource_limits->Some_0, k);
            open[j].runs@ == cls.subrange(cls.len() - open[j].runs.len(), cls.len() as int)
        }),
{
    reveal(open_pieces);
}

/// Closed arrays of one limits class were closed in the order of their pieces,
/// and each lies before the open array of its class.
#[verifier::opaque]
pub open spec fn closed_order(closed: Seq<Chunk>, starts: Seq<int>, open: Seq<Chunk>, ids: Seq<usize>, limit_of: Seq<ResourceLimits>, e: nat, k: nat) -> bool {
    &&& forall|a: int, b: int|
        #![trigger closed[a], closed[b]]
        0 <= a < b < closed.len() && closed[a].resource_limits == closed[b].resource_limits ==> starts[a] < starts[b]
    &&& forall|c: int, o: int|
        #![trigger closed[c], open[o]]
        0 <= c < closed.len() && 0 <= o < open.len() && closed[c].resource_limits == open[o].resource_limits ==> starts[c] + e
            <= class_count(ids, limit_of, open[o].resource_limits->Some_0, k) - open[o].runs.len()
}

/// Extending the open array `j` of run `k`'s limits keeps the order.
proof fn lemma_order_extend(closed: Seq<Chunk>, starts: Seq<int>, open: Seq<Chunk>, j: int, c: Chunk, ids: Seq<usize>, limit_of: Seq<ResourceLimits>, cl: nat, k: nat)
    requires
        closed_order(closed, starts, open, ids, limit_of, eff_len(cl), k),
        open_ok(open, ids, limit_of, cl, k),
        k < ids.len(),
        0 <= j < open.len(),
        open[j].resource_limits == Some(limit_of[ids[k as int] as int]),
        c.resource_limits == open[j].resource_limits,
        c.runs.len() == open[j].runs.len() + 1,
    ensures
        closed_order(closed, starts, open.update(j, c), ids, limit_of, eff_len(cl), k + 1),
{
    reveal(closed_order);
    reveal(open_ok);
    let lim = limit_of[ids[k as int] as int];
    let n = open.update(j, c);
    assert forall|c2: int, o: int|
        #![trigger closed[c2], n[o]]
        0 <= c2 < closed.len() && 0 <= o < n.len() && closed[c2].resource_limits == n[o].resource_limits implies starts[c2] + eff_len(cl)
            <= class_count(ids, limit_of, n[o].resource_limits->Some_0, k + 1) - n[o].runs.len() by {
        assert(closed[c2] == closed[c2] && open[o] == open[o]);
        if o != j {
            assert(open[o].resource_limits != open[j].resource_limits);
            assert(n[o] == open[o]);
        }
    }
}

/// Closing the full open array `j` of run `k`'s limits, which starts at `s0`,
/// and opening `fresh` in its place keeps the order.
proof fn lemma_order_close(closed: Seq<Chunk>, starts: Seq<int>, open: Seq<Chunk>, j: int, fresh: Chunk, s0: int, ids: Seq<usize>, limit_of: Seq<ResourceLimits>, cl: nat, k: nat)
    requires
        closed_order(closed, starts, open, ids, limit_of, eff_len(cl), k),
        open_ok(open, ids, limit_of, cl, k),
        k < ids.len(),
        0 <= j < open.len(),
        open[j].resource_limits == Some(limit_of[ids[k as int] as int]),
        s0 == class_count(ids, limit_of, limit_of[ids[k as int] as int], k) - open[j].runs.len(),
        open[j].runs.len() == eff_len(cl),
        starts.len() == closed.len(),
        fresh.resource_limits == open[j].resource_limits,
        fresh.runs.len() == 1,
    ensures
        closed_order(closed.push(open[j]), starts.push(s0), open.update(j, fresh), ids, limit_of, eff_len(cl), k + 1),
{
    reveal(closed_order);
    reveal(open_ok);
    let lim = limit_of[ids[k as int] as int];
    let e = eff_len(cl);
    let n = open.update(j, fresh);
    let cs = closed.push(open[j]);
    let st = starts.push(s0);
    assert(class_count(ids, limit_of, lim, k + 1) == class_count(ids, limit_of, lim, k) + 1);
    assert forall|a: int, b: int|
        #![trigger cs[a], cs[b]]
        0 <= a < b < cs.len() && cs[a].resource_limits == cs[b].resource_limits implies st[a] < st[b] by {
        if b == closed.len() {
            assert(cs[a] == closed[a]);
            assert(closed[a] == closed[a] && open[j] == open[j]);
        } else {
            assert(cs[a] == closed[a] && cs[b] == closed[b]);
        }
    }
    assert forall|c2: int, o: int|
        #![trigger cs[c2], n[o]]
        0 <= c2 < cs.len() && 0 <= o < n.len() && cs[c2].resource_limits == n[o].resource_limits implies st[c2] + e
            <= class_count(ids, limit_of, n[o].resource_limits->Some_0, k + 1) - n[o].runs.len() by {
        if o != j {
            assert(open[o].resource_limits != open[j].resource_limits);
            assert(n[o] == open[o]);
            if c2 < closed.len() {
                assert(cs[c2] == closed[c2]);
                assert(closed[c2] == closed[c2] && open[o] == open[o]);
            }
        } else if c2 < closed.len() {
            assert(cs[c2] == closed[c2]);
            assert(closed[c2] == closed[c2] && open[j] == open[j]);
        }
    }
}

/// Opening an array for limits not seen before keeps the order.
proof fn lemma_order_new(closed: Seq<Chunk>, starts: Seq<int>, open: Seq<Chunk>, fresh: Chunk, ids: Seq<usize>, limit_of: Seq<ResourceLimits>, cl: nat, k: nat)
    requires
        closed_order(closed, starts, open, ids, limit_of, eff_len(cl), k),
        closed_pieces(closed, starts, ids, limit_of, eff_len(cl), k),
        k < ids.len(),
        !has_open(open, limit_of[ids[k as int] as int]),
        class_count(ids, limit_of, limit_of[ids[k as int] as int], k) == 0,
        fresh.resource_limits == Some(limit_of[ids[k as int] as int]),
    ensures
        closed_order(closed, starts, open.push(fresh), ids, limit_of, eff_len(cl), k + 1),
{
    reveal(closed_order);
    let lim = limit_of[ids[k as int] as int];
    let e = eff_len(cl);
    let n = open.push(fresh);
    lemma_class_seq_len(ids, limit_of, lim, k);
    assert forall|c2: int, o: int|
        #![trigger closed[c2], n[o]]
        0 <= c2 < closed.len() && 0 <= o < n.len() && closed[c2].resource_limits == n[o].resource_limits implies starts[c2] + e
            <= class_count(ids, limit_of, n[o].resource_limits->Some_0, k + 1) - n[o].runs.len() by {
        if o < open.len() {
            assert(n[o] == open[o]);
            if open[o].resource_limits == Some(lim) {
                assert(has_open(open, lim));
            }
            assert(closed[c2] == closed[c2] && open[o] == open[o]);
        } else {
            assert(closed[c2] == closed[c2]);
            assert(piece_at(closed[c2].runs@, class_seq(ids, limit_of, lim, k), e, starts[c2]));
        }
    }
}

/// Where the piece of an open array starts in its limits class.
pub open spec fn open_start(c: Chunk, ids: Seq<usize>, limit_of: Seq<ResourceLimits>, k: nat) -> int {
    class_count(ids, limit_of, c.resource_limits->Some_0, k) - c.runs.len()
}

/// Where the pieces of the closed arrays, then of the open arrays, start in their classes.
pub open spec fn laid_starts(closed: Seq<Chunk>, starts: Seq<int>, open: Seq<Chunk>, ids: Seq<usize>, limit_of: Seq<ResourceLimits>) -> Seq<int> {
    starts + open.map_values(|c: Chunk| open_start(c, ids, limit_of, ids.len() as nat))
}

/// Whether arrays `c1` and `c2` are pieces of their limits classes, `c1`'s
/// starting before `c2`'s.
pub open spec fn piece_precedes(c1: Chunk, c2: Chunk, ids: Seq<usize>, limit_of: Seq<ResourceLimits>, cl: nat) -> bool {
    exists|s1: int, s2: int|
        #![trigger piece_at(c1.runs@, class_seq(ids, limit_of, c1.resource_limits->Some_0, ids.len() as nat), eff_len(cl), s1), piece_at(c2.runs@, class_seq(ids, limit_of, c2.resource_limits->Some_0, ids.len() as nat), eff_len(cl), s2)]
        s1 < s2 && piece_at(c1.runs@, class_seq(ids, limit_of, c1.resource_limits->Some_0, ids.len() as nat), eff_len(cl), s1)
            && piece_at(c2.runs@, class_seq(ids, limit_of, c2.resource_limits->Some_0, ids.len() as nat), eff_len(cl), s2)
}

/// The closed arrays followed by the open ones are pieces of their classes at
/// `laid_starts`, and arrays of one class come in the order of their pieces.
proof fn lemma_laid(closed: Seq<Chunk>, starts: Seq<int>, open: Seq<Chunk>, ids: Seq<usize>, limit_of: Seq<ResourceLimits>, cl: nat)
    requires
        closed_pieces(closed, starts, ids, limit_of, eff_len(cl), ids.len() as nat),
        closed_order(closed, starts, open, ids, limit_of, eff_len(cl), ids.len() as nat),
        open_ok(open, ids, limit_of, cl, ids.len() as nat),
        open_pieces(open, ids, limit_of, ids.len() as nat),
    ensures
        ({
            let all = closed + open;
            let lst = laid_starts(closed, starts, open, ids, limit_of);
            &&& lst.len() == all.len()
            &&& forall|i: int| 0 <= i < all.len() ==> #[trigger] piece_at(all[i].runs@, class_seq(ids, limit_of, all[i].resource_limits->Some_0, ids.len() as nat), eff_len(cl), lst[i])
            &&& forall|a: int, b: int| 0 <= a < b < all.len() && #[trigger] all[a].resource_limits == #[trigger] all[b].resource_limits ==> lst[a] < lst[b]
        }),
{
    reveal(open_ok);
    reveal(open_pieces);
    reveal(closed_order);
    let all = closed + open;
    let lst = laid_starts(closed, starts, open, ids, limit_of);
    let e = eff_len(cl);
    let nn = ids.len() as nat;
    assert forall|i: int| 0 <= i < all.len() implies #[trigger] piece_at(all[i].runs@, class_seq(ids, limit_of, all[i].resource_limits->Some_0, nn), e, lst[i]) by {
        if i < closed.len() {
            assert(all[i] == closed[i]);
            assert(closed[i] == closed[i]);
        } else {
            let c = i - closed.len();
            assert(all[i] == open[c]);
            let l = open[c].resource_limits->Some_0;
            let cnt = class_count(ids, limit_of, l, nn);
            lemma_class_seq_len(ids, limit_of, l, nn);
            lemma_piece_start(cnt, e);
            vstd::arithmetic::div_mod::lemma_mod_decreases((cnt - 1) as nat, e);
            assert(open[c] == open[c]);
            assert(lst[i] == open_start(open[c], ids, limit_of, nn));
        }
    }
    assert forall|a: int, b: int| 0 <= a < b < all.len() && #[trigger] all[a].resource_limits == #[trigger] all[b].resource_limits implies lst[a] < lst[b] by {
        if b < closed.len() {
            assert(all[a] == closed[a] && all[b] == closed[b]);
            assert(closed[a] == closed[a] && closed[b] == closed[b]);
        } else if a < closed.len() {
            let o = b - closed.len();
            assert(all[a] == closed[a] && all[b] == open[o]);
            assert(closed[a] == closed[a] && open[o] == open[o]);
            assert(lst[b] == open_start(open[o], ids, limit_of, nn));
        } else {
            assert(all[a] == open[a - closed.len()] && all[b] == open[b - closed.len()]);
        }
    }
}

/// At the end, every open array is a piece of its limits class.
proof fn lemma_open_final(open: Seq<Chunk>, ids: Seq<usize>, limit_of: Seq<ResourceLimits>, cl: nat)
    requires
        open_ok(open, ids, limit_of, cl, ids.len() as nat),
        open_pieces(open, ids, limit_of, ids.len() as nat),
    ensures
        forall|c: int| 0 <= c < open.len() ==> #[trigger] class_piece(open[c], ids, limit_of, cl),
{
    reveal(open_ok);
    reveal(open_pieces);
    assert forall|c: int| 0 <= c < open.len() implies #[trigger] class_piece(open[c], ids, limit_of, cl) by {
        let l = open[c].resource_limits->Some_0;
        let cls = class_seq(ids, limit_of, l, ids.len() as nat);
        let cnt = class_count(ids, limit_of, l, ids.len() as nat);
        lemma_class_seq_len(ids, limit_of, l, ids.len() as nat);
        lemma_piece_start(cnt, eff_len(cl));
        vstd::arithmetic::div_mod::lemma_mod_decreases((cnt - 1) as nat, eff_len(cl));
        let s = cls.len() - open[c].runs.len();
        assert(open[c].runs.len() == (cnt - 1) as nat % eff_len(cl) + 1);
        assert(piece_at(open[c].runs@, cls, eff_len(cl), s));
    }
}

/// At the end, every closed array is a piece of its limits class.
proof fn lemma_closed_final(closed: Seq<Chunk>, starts: Seq<int>, ids: Seq<usize>, limit_of: Seq<ResourceLimits>, cl: nat)
    requires
        closed_pieces(closed, starts, ids, limit_of, eff_len(cl), ids.len() as nat),
    ensures
        forall|c: int| 0 <= c < closed.len() ==> #[trigger] class_piece(closed[c], ids, limit_of, cl),
{
    assert forall|c: int| 0 <= c < closed.len() implies #[trigger] class_piece(closed[c], ids, limit_of, cl) by {
        assert(closed[c].runs.len() == eff_len(cl));
        assert(piece_at(closed[c].runs@, class_seq(ids, limit_of, closed[c].resource_limits->Some_0, ids.len() as nat), eff_len(cl), starts[c]));
    }
}

/// A piece that ends at a count `cnt` and holds `(cnt - 1) % e + 1` runs starts at a multiple of `e`.
proof fn lemma_piece_start(cnt: nat, e: nat)
    requires
        cnt > 0,
        e > 0,
    ensures
        (cnt - (((cnt - 1) as nat % e) + 1)) % (e as int) == 0,
{
    let x = (cnt - 1) as int;
    vstd::arithmetic::div_mod::lemma_fundamental_div_mod(x, e as int);
    vstd::arithmetic::div_mod::lemma_mod_multiples_basic(x / (e as int), e as int);
    assert((e as int) * (x / (e as int)) == (x / (e as int)) * (e as int)) by (nonlinear_arith);
}

/// Allocates the runs `ids` to arrays of runs with equal resource limits
/// (`limit_of[id]` is the limits of run `id`), greedily.
///
/// Each run joins the open array of its limits; when that array already holds
/// `chunk_length` runs it is closed and a new one opened. Closed arrays come
/// first, then the open ones; all are put in decreasing order of length (equal
/// lengths keep their order) and at most `num_chunks` are returned. Every run
/// lands in exactly one array, so where no array is cut off the arrays hold
/// exactly the runs of `ids`.
pub fn create_chunks_with_resource_limits(
    chunk_length: usize,
    num_chunks: usize,
    limit_of: &Vec<ResourceLimits>,
    ids: &Vec<usize>,
) -> (cs: Vec<Chunk>)
    requires
        forall|k: int| 0 <= k < ids.len() ==> #[trigger] ids@[k] < limit_of.len(),
    ensures
        ({
            let n = arrays_opened(ids@, limit_of@, chunk_length as nat, ids.len() as nat);
            cs.len() == if num_chunks < n { num_chunks as nat } else { n }
        }),
        forall|c: int| 0 <= c < cs.len() ==> #[trigger] greedy_chunk_ok(cs@[c], limit_of@, chunk_length as nat),
        forall|a: int, b: int| 0 <= a < b < cs.len() ==> cs@[a].runs.len() >= cs@[b].runs.len(),
        runs_multiset(cs@).subset_of(ids@.to_multiset()),
        num_chunks >= arrays_opened(ids@, limit_of@, chunk_length as nat, ids.len() as nat) ==> runs_multiset(cs@)
            == ids@.to_multiset(),
        forall|c: int| 0 <= c < cs.len() ==> #[trigger] class_piece(cs@[c], ids@, limit_of@, chunk_length as nat),
        exists|full: Seq<Chunk>| #[trigger] full_layout(full, ids@, limit_of@, chunk_length as nat) && cs@ == full.take(cs.len() as int),
        forall|a: int, b: int|
            0 <= a < b < cs.len() && cs@[a].runs.len() == cs@[b].runs.len() && cs@[a].resource_limits == cs@[b].resource_limits
                ==> #[trigger] piece_precedes(cs@[a], cs@[b], ids@, limit_of@, chunk_length as nat),
{
    let ghost cl = chunk_length as nat;
    let ghost e = eff_len(cl);
    let mut open: Vec<Chunk> = Vec::new();
    let mut closed: Vec<Chunk> = Vec::new();
    let mut k: usize = 0;
    let ghost mut starts: Seq<int> = Seq::empty();
    proof {
        reveal(open_pieces);
        reveal(closed_order);
        assert(ids@.take(0) =~= Seq::<usize>::empty());
        assert(all_runs(closed@) =~= Seq::<usize>::empty());
        assert(all_runs(open@) =~= Seq::<usize>::empty());
        lemma_empty_multiset();
        assert(runs_multiset(closed@).add(runs_multiset(open@)) =~= ids@.take(0).to_multiset());
        reveal(open_ok);
    }
    while k < ids.len()
        invariant
            k <= ids.len(),
            cl == chunk_length as nat,
            e == eff_len(cl),
            forall|j: int| 0 <= j < ids.len() ==> #[trigger] ids@[j] < limit_of.len(),
            forall|c: int| 0 <= c < open.len() ==> #[trigger] greedy_chunk_ok(open@[c], limit_of@, cl),
            forall|c: int| 0 <= c < closed.len() ==> #[trigger] greedy_chunk_ok(closed@[c], limit_of@, cl),
            closed.len() + open.len() == arrays_opened(ids@, limit_of@, cl, k as nat),
            runs_multiset(closed@).add(runs_multiset(open@)) == ids@.take(k as int).to_multiset(),
            open_ok(open@, ids@, limit_of@, cl, k as nat),
            open_pieces(open@, ids@, limit_of@, k as nat),
            closed_pieces(closed@, starts, ids@, limit_of@, e, k as nat),
            closed_order(closed@, starts, open@, ids@, limit_of@, e, k as nat),
        decreases ids.len() - k,
    {
        let id = ids[k];
        let lim = limit_of[id];
        let ghost cnt = class_count(ids@, limit_of@, lim, k as nat);
        let ghost old_open = open@;
        let ghost old_closed = closed@;
        let ghost old_starts = starts;
        let ghost cls0 = class_seq(ids@, limit_of@, lim, k as nat);
        let ghost cls1 = class_seq(ids@, limit_of@, lim, (k + 1) as nat);
        proof {
            assert(cls1 == cls0.push(id));
            lemma_class_seq_len(ids@, limit_of@, lim, k as nat);
            lemma_closed_grow(old_closed, starts, ids@, limit_of@, e, k as nat);
            assert(ids@.take(k + 1) =~= ids@.take(k as int).push(id));
            vstd::seq_lib::to_multiset_build(ids@.take(k as int), id);
            lemma_mod_step(cnt, e);
            if cnt > 0 {
                vstd::arithmetic::div_mod::lemma_mod_decreases((cnt - 1) as nat, e);
                lemma_mod_step((cnt - 1) as nat, e);
                assert((cnt - 1) as nat + 1 == cnt);
            }
        }
        let mut j: usize = 0;
        while j < open.len() && open[j].resource_limits != Some(lim)
            invariant
                j <= open.len(),
                forall|c: int| 0 <= c < j ==> open@[c].resource_limits != Some(lim),
            decreases open.len() - j,
        {
            j = j + 1;
        }
        if j < open.len() {
            proof {
                lemma_open_len(old_open, j as int, ids@, limit_of@, cl, k as nat);
            }
            let mut c = open.remove(j);
            proof {
                lemma_runs_multiset_remove(old_open, j as int);
                assert(greedy_chunk_ok(c, limit_of@, cl));
            }
            proof {
                lemma_pieces_at(old_open, j as int, ids@, limit_of@, k as nat);
            }
            if c.runs.len() < chunk_length {
                let ghost before = c.runs@;
                c.runs.push(id);
                proof {
                    vstd::seq_lib::to_multiset_build(before, id);
                    assert(!opens_array(ids@, limit_of@, cl, k as int));
                    assert(c.runs.len() == cnt % e + 1);
                    assert(c.runs@ == before.push(id));
                    assert(before == cls0.subrange(cls0.len() - before.len(), cls0.len() as int));
                    assert(cls1 == cls0.push(id));
                    assert(cls0.push(id).subrange(cls0.len() - before.len(), cls0.len() + 1int) =~= cls0.subrange(cls0.len() - before.len(), cls0.len() as int).push(id));
                    assert(c.runs@ =~= cls1.subrange(cls1.len() - c.runs.len(), cls1.len() as int));
                    lemma_pieces_update(old_open, j as int, c, ids@, limit_of@, cl, k as nat);
                    lemma_order_extend(old_closed, old_starts, old_open, j as int, c, ids@, limit_of@, cl, k as nat);
                }
                open.insert(j, c);
                proof {
                    lemma_runs_multiset_insert(old_open.remove(j as int), j as int, c);
                    assert(runs_multiset(closed@).add(runs_multiset(open@)) =~= ids@.take(k + 1).to_multiset());
                    assert(open@ =~= old_open.update(j as int, c));
                    lemma_open_update(old_open, j as int, c, ids@, limit_of@, cl, k as nat);
                }
            } else {
                proof {
                    assert(c == old_open[j as int]);
                    assert(c.runs.len() == (cnt - 1) as nat % e + 1);
                    assert((cnt - 1) as nat % e + 1 == e);
                    assert(cnt % e == 0);
                    assert(opens_array(ids@, limit_of@, cl, k as int));
                }
                proof {
                    lemma_piece_start(cnt, e);
                    let s0 = cnt - e;
                    assert(c.runs@ == cls0.subrange(cls0.len() - c.runs.len(), cls0.len() as int));
                    assert(cls0.len() == cnt);
                    assert(cls1 == cls0.push(id));
                    assert(cls0.push(id).subrange(s0, s0 + e) =~= cls0.subrange(s0, s0 + e));
                    assert(c.runs@ =~= cls1.subrange(s0, s0 + e));
                    assert(piece_at(c.runs@, cls1, e, s0));
                    starts = starts.push(s0);
                }
                closed.push(c);
                let mut runs: Vec<usize> = Vec::new();
                runs.push(id);
                let fresh = Chunk { runs, resource_limits: Some(lim), status: ChunkRunStatus::Pending };
                proof {
                    assert(fresh.runs@ =~= cls1.subrange(cls1.len() - 1, cls1.len() as int));
                    lemma_pieces_update(old_open, j as int, fresh, ids@, limit_of@, cl, k as nat);
                    lemma_order_close(old_closed, old_starts, old_open, j as int, fresh, cnt - e, ids@, limit_of@, cl, k as nat);
                    assert(closed@ == old_closed.push(old_open[j as int]));
                    assert(closed_pieces(closed@, starts, ids@, limit_of@, e, (k + 1) as nat)) by {
                        assert forall|c2: int| #![trigger closed@[c2]] 0 <= c2 < closed.len() implies closed@[c2].runs.len() == e && piece_at(
                            closed@[c2].runs@,
                            class_seq(ids@, limit_of@, closed@[c2].resource_limits->Some_0, (k + 1) as nat),
                            e,
                            starts[c2],
                        ) by {
                            if c2 < old_closed.len() {
                                assert(closed@[c2] == old_closed[c2]);
                            }
                        }
                    }
                }
                open.insert(j, fresh);
                proof {
                    lemma_runs_multiset_append(old_closed, seq![c]);
                    lemma_runs_multiset_single(c);
                    assert(closed@ =~= old_closed + seq![c]);
                    lemma_runs_multiset_insert(old_open.remove(j as int), j as int, fresh);
                    assert(fresh.runs@ =~= Seq::<usize>::empty().push(id));
                    vstd::seq_lib::to_multiset_build(Seq::<usize>::empty(), id);
                    lemma_empty_multiset();
                    assert(runs_multiset(closed@).add(runs_multiset(open@)) =~= ids@.take(k + 1).to_multiset());
                    assert(open@ =~= old_open.update(j as int, fresh));
                    lemma_open_update(old_open, j as int, fresh, ids@, limit_of@, cl, k as nat);
                }
            }
            proof {
                assert forall|c2: int| 0 <= c2 < open.len() implies #[trigger] greedy_chunk_ok(open@[c2], limit_of@, cl) by {
                    if c2 != j {
                        assert(open@[c2] == old_open[c2]);
                    }
                }
            }
        } else {
            proof {
                if has_open(old_open, lim) {
                    let c2 = choose|c2: int| 0 <= c2 < old_open.len() && #[trigger] old_open[c2].resource_limits == Some(lim);
                    assert(old_open[c2].resource_limits != Some(lim));
                }
            }
            let mut runs: Vec<usize> = Vec::new();
            runs.push(id);
            let fresh = Chunk { runs, resource_limits: Some(lim), status: ChunkRunStatus::Pending };
            open.push(fresh);
            proof {
                lemma_open_push(old_open, fresh, ids@, limit_of@, cl, k as nat);
                assert(fresh.runs@ =~= seq![id]);
                lemma_pieces_push(old_open, fresh, ids@, limit_of@, cl, k as nat);
                lemma_order_new(old_closed, old_starts, old_open, fresh, ids@, limit_of@, cl, k as nat);
                assert(open@ == old_open.push(fresh));
                assert(0nat % e == 0) by (nonlinear_arith)
                    requires
                        e > 0,
                ;
                assert(opens_array(ids@, limit_of@, cl, k as int));
                assert(open@ =~= old_open.insert(old_open.len() as int, fresh));
                lemma_runs_multiset_insert(old_open, old_open.len() as int, fresh);
                assert(fresh.runs@ =~= Seq::<usize>::empty().push(id));
                vstd::seq_lib::to_multiset_build(Seq::<usize>::empty(), id);
                lemma_empty_multiset();
                assert(runs_multiset(closed@).add(runs_multiset(open@)) =~= ids@.take(k + 1).to_multiset());
            }
        }
        k = k + 1;
    }
    // Closed arrays first, then the open ones.
    let ghost n = arrays_opened(ids@, limit_of@, cl, ids.len() as nat);
    let ghost total = ids@.to_multiset();
    proof {
        assert(ids@.take(ids.len() as int) =~= ids@);
        lemma_runs_multiset_append(closed@, open@);
    }
    let mut all = closed;
    let ghost closed_v = all@;
    let ghost open_v = open@;
    all.append(&mut open);
    proof {
        assert(all@ =~= closed_v + open_v);
        lemma_laid(closed_v, starts, open_v, ids@, limit_of@, cl);
        lemma_open_final(open_v, ids@, limit_of@, cl);
        lemma_closed_final(closed_v, starts, ids@, limit_of@, cl);
        assert forall|c: int| 0 <= c < all.len() implies #[trigger] laid_chunk_ok(all@[c], ids@, limit_of@, chunk_length as nat) by {
            if c < closed_v.len() {
                assert(all@[c] == closed_v[c]);
            } else {
                assert(all@[c] == open_v[c - closed_v.len()]);
            }
        }
    }
    // Stable sort by decreasing length.
    let ghost all_orig = all@;
    let ghost lst = laid_starts(closed_v, starts, open_v, ids@, limit_of@);
    let ghost mut src: Seq<int> = Seq::empty();
    let ghost mut taken: int = 0;
    let mut sorted: Vec<Chunk> = Vec::new();
    proof {
        assert(all@ =~= all_orig.subrange(0, all_orig.len() as int));
        assert(all_runs(sorted@) =~= Seq::<usize>::empty());
        lemma_empty_multiset();
        assert(runs_multiset(sorted@).add(runs_multiset(all@)) =~= runs_multiset(all@));
    }
    while all.len() > 0
        invariant
            forall|c: int| 0 <= c < all.len() ==> #[trigger] laid_chunk_ok(all@[c], ids@, limit_of@, chunk_length as nat),
            forall|c: int| 0 <= c < sorted.len() ==> #[trigger] laid_chunk_ok(sorted@[c], ids@, limit_of@, chunk_length as nat),
            forall|a: int, b: int| 0 <= a < b < sorted.len() ==> sorted@[a].runs.len() >= sorted@[b].runs.len(),
            sorted.len() + all.len() == n,
            runs_multiset(sorted@).add(runs_multiset(all@)) == total,
            0 <= taken <= all_orig.len(),
            all@ == all_orig.subrange(taken, all_orig.len() as int),
            src.len() == sorted.len(),
            forall|a: int| 0 <= a < sorted.len() ==> 0 <= #[trigger] src[a] < taken && sorted@[a] == all_orig[src[a]],
            forall|a: int, b: int| 0 <= a < b < sorted.len() && #[trigger] sorted@[a].runs.len() == #[trigger] sorted@[b].runs.len() ==> src[a] < src[b],
        decreases all.len(),
    {
        let ghost all_before = all@;
        let ghost src_before = src;
        let x = all.remove(0);
        proof {
            lemma_runs_multiset_remove(all_before, 0);
            assert(x == all_orig[taken]);
            assert(all@ =~= all_orig.subrange(taken + 1, all_orig.len() as int));
        }
        assert(laid_chunk_ok(x, ids@, limit_of@, chunk_length as nat));
        let mut j = sorted.len();
        while j > 0 && sorted[j - 1].runs.len() < x.runs.len()
            invariant
                j <= sorted.len(),
                forall|c: int| j <= c < sorted.len() ==> #[trigger] sorted@[c].runs.len() < x.runs.len(),
            decreases j,
        {
            j = j - 1;
        }
        let ghost before = sorted@;
        sorted.insert(j, x);
        proof {
            lemma_runs_multiset_insert(before, j as int, x);
            assert(runs_multiset(sorted@).add(runs_multiset(all@)) =~= total);
            assert forall|a: int, b: int| 0 <= a < b < sorted.len() implies sorted@[a].runs.len() >= sorted@[b].runs.len() by {
                if b < j {
                    assert(sorted@[a] == before[a] && sorted@[b] == before[b]);
                } else if b == j {
                    assert(sorted@[a] == before[a]);
                    assert(!(before[j - 1].runs.len() < x.runs.len()));
                    if a < j - 1 {
                        assert(before[a].runs.len() >= before[j - 1].runs.len());
                    }
                } else if a == j {
                    assert(sorted@[b] == before[b - 1]);
                } else if a < j {
                    assert(sorted@[a] == before[a] && sorted@[b] == before[b - 1]);
                } else {
                    assert(sorted@[a] == before[a - 1] && sorted@[b] == before[b - 1]);
                }
            }
            assert forall|c: int| 0 <= c < sorted.len() implies #[trigger] laid_chunk_ok(sorted@[c], ids@, limit_of@, chunk_length as nat) by {
                if c < j {
                    assert(sorted@[c] == before[c]);
                } else if c > j {
                    assert(sorted@[c] == before[c - 1]);
                }
            }
            src = src.insert(j as int, taken);
            assert forall|a: int| 0 <= a < sorted.len() implies 0 <= #[trigger] src[a] < taken + 1 && sorted@[a] == all_orig[src[a]] by {
                if a < j {
                    assert(sorted@[a] == before[a] && src[a] == src_before[a]);
                } else if a > j {
                    assert(sorted@[a] == before[a - 1] && src[a] == src_before[a - 1]);
                }
            }
            assert forall|a: int, b: int| 0 <= a < b < sorted.len() && #[trigger] sorted@[a].runs.len() == #[trigger] sorted@[b].runs.len() implies src[a] < src[b] by {
                if b < j {
                    assert(sorted@[a] == before[a] && sorted@[b] == before[b]);
                    assert(src[a] == src_before[a] && src[b] == src_before[b]);
                } else if b == j {
                    assert(sorted@[a] == before[a] && src[a] == src_before[a]);
                } else if a == j {
                    assert(sorted@[b] == before[b - 1]);
                    assert(before[b - 1].runs.len() < x.runs.len());
                } else if a < j {
                    assert(sorted@[a] == before[a] && sorted@[b] == before[b - 1]);
                    assert(src[a] == src_before[a] && src[b] == src_before[b - 1]);
                } else {
                    assert(sorted@[a] == before[a - 1] && sorted@[b] == before[b - 1]);
                    assert(src[a] == src_before[a - 1] && src[b] == src_before[b - 1]);
                }
            }
            taken = taken + 1;
        }
    }
    proof {
        assert(all@ =~= Seq::<Chunk>::empty());
        assert(all_runs(all@) =~= Seq::<usize>::empty());
        lemma_empty_multiset();
        assert(runs_multiset(sorted@) =~= total);
    }
    let ghost full = sorted@;
    proof {
        assert(full_layout(full, ids@, limit_of@, chunk_length as nat));
    }
    sorted.truncate(num_chunks);
    proof {
        if num_chunks < full.len() {
            assert(sorted@ =~= full.take(num_chunks as int));
            assert(full =~= full.take(num_chunks as int) + full.skip(num_chunks as int));
            lemma_runs_multiset_append(full.take(num_chunks as int), full.skip(num_chunks as int));
        } else {
            assert(sorted@ =~= full);
            assert(full.take(full.len() as int) =~= full);
        }
        assert(sorted@ == full.take(sorted.len() as int));
        assert forall|c: int| 0 <= c < sorted.len() implies #[trigger] class_piece(sorted@[c], ids@, limit_of@, chunk_length as nat) by {
            assert(sorted@[c] == full[c]);
            assert(laid_chunk_ok(full[c], ids@, limit_of@, chunk_length as nat));
        }
        assert forall|c: int| 0 <= c < sorted.len() implies #[trigger] greedy_chunk_ok(sorted@[c], limit_of@, chunk_length as nat) by {
            assert(sorted@[c] == full[c]);
            assert(laid_chunk_ok(full[c], ids@, limit_of@, chunk_length as nat));
        }
        assert forall|a: int, b: int|
            0 <= a < b < sorted.len() && sorted@[a].runs.len() == sorted@[b].runs.len() && sorted@[a].resource_limits == sorted@[b].resource_limits
                implies #[trigger] piece_precedes(sorted@[a], sorted@[b], ids@, limit_of@, chunk_length as nat) by {
            assert(sorted@[a] == full[a] && sorted@[b] == full[b]);
            assert(full[a].runs.len() == full[b].runs.len());
            assert(src[a] < src[b]);
            let ia = src[a];
            let ib = src[b];
            assert(full[a] == all_orig[ia] && full[b] == all_orig[ib]);
            assert(all_orig[ia].resource_limits == all_orig[ib].resource_limits);
            assert(lst[ia] < lst[ib]);
            assert(piece_at(all_orig[ia].runs@, class_seq(ids@, limit_of@, all_orig[ia].resource_limits->Some_0, ids.len() as nat), eff_len(chunk_length as nat), lst[ia]));
            assert(piece_at(all_orig[ib].runs@, class_seq(ids@, limit_of@, all_orig[ib].resource_limits->Some_0, ids.len() as nat), eff_len(chunk_length as nat), lst[ib]));
        }
    }
    sorted
}

} // verus!
