//! Changing the resource limits of programs.
use vstd::prelude::*;

use crate::model::Config;
use crate::model::Program;
use crate::model::ResourceLimits;

verus! {

/// A resource limit that script mode needs but was not given.
#[derive(Debug, Clone, Copy, PartialEq, Eq, Structural)]
pub enum LimitQueryError {
    /// No time limit was given.
    NoTime,
    /// No memory limit was given.
    NoMemory,
    /// No CPU count was given.
    NoCpus,
}

impl LimitQueryError {
    /// The message for the user.
    pub fn message(&self) -> (s: &'static str)
        ensures
            s@ == match *self {
                LimitQueryError::NoTime => "No time specified in script mode"@,
                LimitQueryError::NoMemory => "No memory specified in script mode"@,
                LimitQueryError::NoCpus => "No CPUs specified in script mode"@,
            },
    {
        match self {
            LimitQueryError::NoTime => "No time specified in script mode",
            LimitQueryError::NoMemory => "No memory specified in script mode",
            LimitQueryError::NoCpus => "No CPUs specified in script mode",
        }
    }
}

/// Which limits are still to be asked of the user.
#[derive(Debug, Clone, Copy, PartialEq, Eq, Structural)]
pub struct LimitPrompts {
    /// The time limit.
    pub time: bool,
    /// The memory per CPU.
    pub mem: bool,
    /// The number of CPUs.
    pub cpu: bool,
}

/// Updates resource limits with the values given on the command line.
///
/// In script mode every value must be given: the first one missing, in the
/// order time, memory, CPUs, is the error. Otherwise the given values replace
/// the old ones and the missing ones are marked to be asked of the user.
/// `time` is whole seconds and nanoseconds.
pub fn query_update_resource_limits(
    rss: &ResourceLimits,
    script: bool,
    mem: Option<usize>,
    cpu: Option<usize>,
    time: Option<(u64, u32)>,
) -> (r: Result<(ResourceLimits, LimitPrompts), LimitQueryError>)
    ensures
        script && time is None ==> r == Err::<(ResourceLimits, LimitPrompts), LimitQueryError>(LimitQueryError::NoTime),
        script && time is Some && mem is None ==> r == Err::<(ResourceLimits, LimitPrompts), LimitQueryError>(
            LimitQueryError::NoMemory,
        ),
        script && time is Some && mem is Some && cpu is None ==> r == Err::<(ResourceLimits, LimitPrompts), LimitQueryError>(
            LimitQueryError::NoCpus,
        ),
        !script || (time is Some && mem is Some && cpu is Some) ==> (r matches Ok((l, p)) && l == (ResourceLimits {
            time_limit_secs: match time {
                Some(t) => t.0,
                None => rss.time_limit_secs,
            },
            time_limit_nanos: match time {
                Some(t) => t.1,
                None => rss.time_limit_nanos,
            },
            cpus: match cpu {
                Some(c) => c,
                None => rss.cpus,
            },
            mem_per_cpu: match mem {
                Some(m) => m,
                None => rss.mem_per_cpu,
            },
        }) && p == (LimitPrompts { time: time is None, mem: mem is None, cpu: cpu is None })),
{
    let mut new_rss = *rss;
    match time {
        None => {
            if script {
                return Err(LimitQueryError::NoTime);
            }
        },
        Some(t) => {
            new_rss.time_limit_secs = t.0;
            new_rss.time_limit_nanos = t.1;
        },
    }
    match mem {
        None => {
            if script {
                return Err(LimitQueryError::NoMemory);
            }
        },
        Some(m) => {
            new_rss.mem_per_cpu = m;
        },
    }
    match cpu {
        None => {
            if script {
                return Err(LimitQueryError::NoCpus);
            }
        },
        Some(c) => {
            new_rss.cpus = c;
        },
    }
    Ok((new_rss, LimitPrompts { time: time.is_none(), mem: mem.is_none(), cpu: cpu.is_none() }))
}

/// Where a program is configured.
#[derive(Debug, Clone, Copy, PartialEq, Eq, Structural)]
pub enum ProgramRef {
    /// The regular program at this index.
    Regular(usize),
    /// The postprocessing program at this index.
    Postprocess(usize),
}

/// Why resource limits could not be changed.
#[derive(Debug, Clone, PartialEq, Eq)]
pub enum SetLimitsError {
    /// No program has this name.
    NoProgram(String),
    /// A limit was missing in script mode.
    Query(LimitQueryError),
}

/// The names of the programs of a list.
pub open spec fn names_of(ps: Seq<(String, Program)>) -> Seq<Seq<char>> {
    ps.map_values(|e: (String, Program)| e.0@)
}

/// The postprocessing programs of a configuration, none where it has none.
pub open spec fn post_of(config: &Config) -> Seq<(String, Program)> {
    match config.postprocess_programs {
        Some(v) => v@,
        None => Seq::empty(),
    }
}

/// The first index of a program called `name`.
pub open spec fn first_named(ps: Seq<(String, Program)>, name: Seq<char>, i: int) -> bool {
    0 <= i < ps.len() && ps[i].0@ == name && forall|j: int| 0 <= j < i ==> #[trigger] ps[j].0@ != name
}

fn names_in(ps: &Vec<(String, Program)>, out: &mut Vec<String>)
    ensures
        final(out)@.map_values(|s: String| s@) == old(out)@.map_values(|s: String| s@) + names_of(ps@),
{
    let ghost start = out@.map_values(|s: String| s@);
    let mut i: usize = 0;
    while i < ps.len()
        invariant
            i <= ps.len(),
            out@.map_values(|s: String| s@) == start + names_of(ps@).take(i as int),
        decreases ps.len() - i,
    {
        let ghost before = out@.map_values(|s: String| s@);
        let n = ps[i].0.clone();
        out.push(n);
        assert(out@.map_values(|s: String| s@) =~= before.push(n@));
        assert(names_of(ps@).take(i + 1) =~= names_of(ps@).take(i as int).push(n@));
        i = i + 1;
    }
    assert(names_of(ps@).take(ps.len() as int) =~= names_of(ps@));
}

/// The names of all programs whose limits can be set: the regular ones, then
/// the postprocessing ones.
pub fn get_setlim_programs(config: &Config) -> (names: Vec<String>)
    ensures
        names@.map_values(|s: String| s@) == names_of(config.programs@) + names_of(post_of(config)),
{
    let mut names: Vec<String> = Vec::new();
    assert(names@.map_values(|s: String| s@) =~= Seq::<Seq<char>>::empty());
    names_in(&config.programs, &mut names);
    assert(Seq::<Seq<char>>::empty() + names_of(config.programs@) =~= names_of(config.programs@));
    match &config.postprocess_programs {
        Some(post) => {
            names_in(post, &mut names);
        },
        None => {
            assert(names_of(config.programs@) + names_of(post_of(config)) =~= names_of(config.programs@));
        },
    }
    names
}

fn find_program(ps: &Vec<(String, Program)>, name: &String) -> (r: Option<usize>)
    ensures
        match r {
            Some(i) => first_named(ps@, name@, i as int),
            None => forall|j: int| 0 <= j < ps.len() ==> #[trigger] ps@[j].0@ != name@,
        },
{
    let mut i: usize = 0;
    while i < ps.len()
        invariant
            i <= ps.len(),
            forall|j: int| 0 <= j < i ==> #[trigger] ps@[j].0@ != name@,
        decreases ps.len() - i,
    {
        if ps[i].0.eq(name) {
            return Some(i);
        }
        i = i + 1;
    }
    None
}

/// Finds a program by name: among the regular programs first, then among
/// the postprocessing ones.
pub fn get_program_from_name(config: &Config, name: &String) -> (r: Result<ProgramRef, SetLimitsError>)
    ensures
        match r {
            Ok(ProgramRef::Regular(i)) => first_named(config.programs@, name@, i as int),
            Ok(ProgramRef::Postprocess(i)) => (forall|j: int| 0 <= j < config.programs.len() ==> #[trigger] config.programs@[j].0@ != name@)
                && first_named(post_of(config), name@, i as int),
            Err(e) => (e matches SetLimitsError::NoProgram(n) && n@ == name@)
                && (forall|j: int| 0 <= j < config.programs.len() ==> #[trigger] config.programs@[j].0@ != name@)
                && (forall|j: int| 0 <= j < post_of(config).len() ==> #[trigger] post_of(config)[j].0@ != name@),
        },
        crate::model::config_keys_ordered(config) ==> (r matches Ok(ProgramRef::Regular(i)) ==> forall|j: int|
            0 <= j < config.programs.len() && j != i ==> #[trigger] config.programs@[j].0@ != name@),
        crate::model::config_keys_ordered(config) ==> (r matches Ok(ProgramRef::Postprocess(i)) ==> forall|j: int|
            0 <= j < post_of(config).len() && j != i ==> #[trigger] post_of(config)[j].0@ != name@),
{
    let r = match find_program(&config.programs, name) {
        Some(i) => Ok(ProgramRef::Regular(i)),
        None => match &config.postprocess_programs {
            Some(post) => match find_program(post, name) {
                Some(i) => Ok(ProgramRef::Postprocess(i)),
                None => Err(SetLimitsError::NoProgram(name.clone())),
            },
            None => Err(SetLimitsError::NoProgram(name.clone())),
        },
    };
    proof {
        reveal(crate::model::config_keys_ordered);
        if crate::model::config_keys_ordered(config) {
            match r {
                Ok(ProgramRef::Regular(i)) => {
                    assert forall|j: int| 0 <= j < config.programs.len() && j != i implies #[trigger] config.programs@[j].0@ != name@ by {
                        crate::model::lemma_ordered_keys_distinct(config.programs@, i as int, j);
                    }
                },
                Ok(ProgramRef::Postprocess(i)) => {
                    assert forall|j: int| 0 <= j < post_of(config).len() && j != i implies #[trigger] post_of(config)[j].0@ != name@ by {
                        crate::model::lemma_ordered_keys_distinct(post_of(config), i as int, j);
                    }
                },
                _ => {},
            }
        }
    }
    r
}

/// Whether `r` points at a program of the configuration.
pub open spec fn ref_valid(config: &Config, r: ProgramRef) -> bool {
    match r {
        ProgramRef::Regular(i) => i < config.programs.len(),
        ProgramRef::Postprocess(i) => i < post_of(config).len(),
    }
}

/// The program that `r` points at.
pub open spec fn program_at(config: &Config, r: ProgramRef) -> Program {
    match r {
        ProgramRef::Regular(i) => config.programs@[i as int].1,
        ProgramRef::Postprocess(i) => post_of(config)[i as int].1,
    }
}

/// The resource limits configured for a program.
pub fn program_limits(config: &Config, r: ProgramRef) -> (l: Option<ResourceLimits>)
    requires
        ref_valid(config, r),
    ensures
        l == program_at(config, r).resource_limits,
{
    match r {
        ProgramRef::Regular(i) => config.programs[i].1.resource_limits,
        ProgramRef::Postprocess(i) => match &config.postprocess_programs {
            Some(post) => post[i].1.resource_limits,
            None => None,
        },
    }
}

/// `ps` with the limits of program `i` set to `rss`.
pub open spec fn with_limits_at(ps: Seq<(String, Program)>, i: int, rss: ResourceLimits) -> Seq<(String, Program)> {
    ps.update(i, (ps[i].0, Program { resource_limits: Some(rss), ..ps[i].1 }))
}

fn set_limits_in(ps: &mut Vec<(String, Program)>, i: usize, rss: ResourceLimits)
    requires
        i < old(ps).len(),
    ensures
        final(ps)@ == with_limits_at(old(ps)@, i as int, rss),
{
    let (n, mut p) = ps.remove(i);
    p.resource_limits = Some(rss);
    ps.insert(i, (n, p));
}

/// Sets the resource limits of one program; nothing else changes.
pub fn set_program_limits(config: &mut Config, r: ProgramRef, rss: ResourceLimits)
    requires
        ref_valid(old(config), r),
    ensures
        match r {
            ProgramRef::Regular(i) => final(config).programs@ == with_limits_at(old(config).programs@, i as int, rss)
                && final(config).postprocess_programs == old(config).postprocess_programs,
            ProgramRef::Postprocess(i) => final(config).programs == old(config).programs && post_of(final(config))
                == with_limits_at(post_of(old(config)), i as int, rss) && final(config).postprocess_programs is Some,
        },
        final(config).inputs == old(config).inputs,
        final(config).slurm == old(config).slurm,
        final(config).resource_limits == old(config).resource_limits,
{
    match r {
        ProgramRef::Regular(i) => set_limits_in(&mut config.programs, i, rss),
        ProgramRef::Postprocess(i) => {
            let mut post = match config.postprocess_programs.take() {
                Some(v) => v,
                None => Vec::new(),
            };
            set_limits_in(&mut post, i, rss);
            config.postprocess_programs = Some(post);
        },
    }
}

/// Changes the resource limits of the program called `name` with the values
/// given on the command line (see [`query_update_resource_limits`]), starting
/// from its configured limits or none; returns which limits are still to be
/// asked of the user.
pub fn query_changing_limits_for_program(
    name: &String,
    script: bool,
    config: &mut Config,
    mem: Option<usize>,
    cpu: Option<usize>,
    time: Option<(u64, u32)>,
) -> (res: Result<LimitPrompts, SetLimitsError>)
    ensures
        res is Ok ==> exists|r: ProgramRef| #[trigger] ref_valid(old(config), r) && ({
            let old_rss = match program_at(old(config), r).resource_limits {
                Some(l) => l,
                None => ResourceLimits { time_limit_secs: 0, time_limit_nanos: 0, cpus: 0, mem_per_cpu: 0 },
            };
            let new_rss = ResourceLimits {
                time_limit_secs: match time {
                    Some(t) => t.0,
                    None => old_rss.time_limit_secs,
                },
                time_limit_nanos: match time {
                    Some(t) => t.1,
                    None => old_rss.time_limit_nanos,
                },
                cpus: match cpu {
                    Some(c) => c,
                    None => old_rss.cpus,
                },
                mem_per_cpu: match mem {
                    Some(m) => m,
                    None => old_rss.mem_per_cpu,
                },
            };
            &&& match r {
                ProgramRef::Regular(i) => first_named(old(config).programs@, name@, i as int)
                    && final(config).programs@ == with_limits_at(old(config).programs@, i as int, new_rss),
                ProgramRef::Postprocess(i) => first_named(post_of(old(config)), name@, i as int)
                    && post_of(final(config)) == with_limits_at(post_of(old(config)), i as int, new_rss),
            }
        }),
        res matches Ok(p) ==> p == (LimitPrompts { time: time is None, mem: mem is None, cpu: cpu is None }),
        res matches Err(SetLimitsError::Query(_)) ==> script && (time is None || mem is None || cpu is None),
        res is Err ==> final(config).programs == old(config).programs && final(config).postprocess_programs
            == old(config).postprocess_programs,
        res matches Err(SetLimitsError::NoProgram(n)) ==> n@ == name@ && (forall|j: int|
            0 <= j < old(config).programs.len() ==> #[trigger] old(config).programs@[j].0@ != name@) && (forall|j: int|
            0 <= j < post_of(old(config)).len() ==> #[trigger] post_of(old(config))[j].0@ != name@),
        (exists|j: int| 0 <= j < old(config).programs.len() && #[trigger] old(config).programs@[j].0@ == name@)
            || (exists|j: int| 0 <= j < post_of(old(config)).len() && #[trigger] post_of(old(config))[j].0@ == name@)
            ==> (!script || (time is Some && mem is Some && cpu is Some) ==> res is Ok),
{
    let r = match get_program_from_name(config, name) {
        Ok(r) => r,
        Err(e) => {
            return Err(e);
        },
    };
    let old_rss = match program_limits(config, r) {
        Some(l) => l,
        None => ResourceLimits::default(),
    };
    let (new_rss, prompts) = match query_update_resource_limits(&old_rss, script, mem, cpu, time) {
        Ok(x) => x,
        Err(e) => {
            return Err(SetLimitsError::Query(e));
        },
    };
    set_program_limits(config, r, new_rss);
    Ok(prompts)
}

/// `ps` with the limits of every program set to `rss`.
pub open spec fn all_limits(ps: Seq<(String, Program)>, rss: ResourceLimits) -> Seq<(String, Program)> {
    ps.map_values(|e: (String, Program)| (e.0, Program { resource_limits: Some(rss), ..e.1 }))
}

fn set_all_in(ps: &mut Vec<(String, Program)>, rss: ResourceLimits)
    ensures
        final(ps)@ == all_limits(old(ps)@, rss),
{
    let ghost start = ps@;
    let mut i: usize = 0;
    while i < ps.len()
        invariant
            i <= ps.len(),
            ps.len() == start.len(),
            forall|j: int| 0 <= j < i ==> #[trigger] ps@[j] == all_limits(start, rss)[j],
            forall|j: int| i <= j < ps.len() ==> #[trigger] ps@[j] == start[j],
        decreases ps.len() - i,
    {
        set_limits_in(ps, i, rss);
        i = i + 1;
    }
    assert(ps@ =~= all_limits(start, rss));
}

/// Sets the resource limits of every program, regular and postprocessing.
pub fn query_changing_limits_for_all_programs(config: &mut Config, new_rss: ResourceLimits)
    ensures
        final(config).programs@ == all_limits(old(config).programs@, new_rss),
        post_of(final(config)) == all_limits(post_of(old(config)), new_rss),
        final(config).postprocess_programs is Some <==> old(config).postprocess_programs is Some,
        final(config).inputs == old(config).inputs,
        final(config).slurm == old(config).slurm,
{
    set_all_in(&mut config.programs, new_rss);
    match config.postprocess_programs.take() {
        Some(mut post) => {
            set_all_in(&mut post, new_rss);
            config.postprocess_programs = Some(post);
        },
        None => {
            assert(all_limits(Seq::<(String, Program)>::empty(), new_rss) =~= Seq::<(String, Program)>::empty());
        },
    }
}

} // verus!

verus! {

/// Once the limits of all programs are set, every program, regular or
/// postprocessing, has exactly those limits.
pub proof fn lemma_all_programs_limited(old_config: &Config, new_config: &Config, rss: ResourceLimits, r: ProgramRef)
    requires
        new_config.programs@ == all_limits(old_config.programs@, rss),
        post_of(new_config) == all_limits(post_of(old_config), rss),
        ref_valid(old_config, r),
    ensures
        ref_valid(new_config, r),
        program_at(new_config, r).resource_limits == Some(rss),
{
}

/// How an answer to a limit prompt is taken.
#[derive(Debug, Clone, Copy, PartialEq, Eq, Structural)]
pub enum AnswerCheck {
    /// Taken as it is.
    Accept,
    /// Taken once the user confirms it.
    Confirm,
    /// Not taken; the question is asked again.
    Reject,
}

/// A memory limit of zero gives a job the memory of the whole node: it is
/// taken only once the user confirms it.
pub fn check_memory_answer(mem_per_cpu: usize) -> (r: AnswerCheck)
    ensures
        r == if mem_per_cpu == 0 {
            AnswerCheck::Confirm
        } else {
            AnswerCheck::Accept
        },
{
    if mem_per_cpu == 0 {
        AnswerCheck::Confirm
    } else {
        AnswerCheck::Accept
    }
}

/// A job needs at least one CPU: zero is refused.
pub fn check_cpu_answer(cpus: usize) -> (r: AnswerCheck)
    ensures
        r == if cpus == 0 {
            AnswerCheck::Reject
        } else {
            AnswerCheck::Accept
        },
{
    if cpus == 0 {
        AnswerCheck::Reject
    } else {
        AnswerCheck::Accept
    }
}

} // verus!
