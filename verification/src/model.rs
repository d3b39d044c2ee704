//! The data of an experiment: resource limits, programs, inputs, runs and the
//! configuration they are built from. Paths are held as text.
use vstd::prelude::*;

verus! {

/// Resource limits of a run on Slurm: wall time, CPUs and memory per CPU (MB).
#[derive(Debug, Clone, Copy, PartialEq, Eq, Structural)]
pub struct ResourceLimits {
    /// Whole seconds of the time limit.
    pub time_limit_secs: u64,
    /// Sub-second part of the time limit, in nanoseconds.
    pub time_limit_nanos: u32,
    /// CPUs per task.
    pub cpus: usize,
    /// Memory per CPU, in MB.
    pub mem_per_cpu: usize,
}

impl Default for ResourceLimits {
    /// No time, no CPUs, no memory.
    fn default() -> (r: Self)
        ensures
            r == (ResourceLimits { time_limit_secs: 0, time_limit_nanos: 0, cpus: 0, mem_per_cpu: 0 }),
    {
        ResourceLimits { time_limit_secs: 0, time_limit_nanos: 0, cpus: 0, mem_per_cpu: 0 }
    }
}

/// The total order of resource limits: time limit first, then CPUs, then memory.
pub open spec fn limits_less(a: ResourceLimits, b: ResourceLimits) -> bool {
    ||| a.time_limit_secs < b.time_limit_secs
    ||| (a.time_limit_secs == b.time_limit_secs && a.time_limit_nanos < b.time_limit_nanos)
    ||| (a.time_limit_secs == b.time_limit_secs && a.time_limit_nanos == b.time_limit_nanos
        && a.cpus < b.cpus)
    ||| (a.time_limit_secs == b.time_limit_secs && a.time_limit_nanos == b.time_limit_nanos
        && a.cpus == b.cpus && a.mem_per_cpu < b.mem_per_cpu)
}

/// Whether `a` comes strictly before `b` in the order of resource limits.
pub fn limits_lt(a: &ResourceLimits, b: &ResourceLimits) -> (r: bool)
    ensures
        r == limits_less(*a, *b),
{
    if a.time_limit_secs != b.time_limit_secs {
        a.time_limit_secs < b.time_limit_secs
    } else if a.time_limit_nanos != b.time_limit_nanos {
        a.time_limit_nanos < b.time_limit_nanos
    } else if a.cpus != b.cpus {
        a.cpus < b.cpus
    } else {
        a.mem_per_cpu < b.mem_per_cpu
    }
}

/// Where an experiment runs.
#[derive(Debug, Clone, Copy, PartialEq, Eq, Structural)]
pub enum Environment {
    /// Local execution.
    Local,
    /// Slurm execution.
    Slurm,
}

/// The input of one run: an optional input file and extra arguments.
#[derive(Debug, Clone, PartialEq, Eq)]
pub struct RunInput {
    /// The input file, if any.
    pub file: Option<String>,
    /// Additional command line arguments.
    pub arguments: Vec<String>,
}

/// A program of an experiment, with its successors in the run graph.
#[derive(Debug, Clone, PartialEq, Eq)]
pub struct InternalProgram {
    /// The program's name.
    pub name: String,
    /// The path to the executable.
    pub binary: String,
    /// Command line arguments.
    pub arguments: Vec<String>,
    /// The afterscript to run on this program's output, if any.
    pub afterscript: Option<String>,
    /// The resource limits of this program's runs.
    pub limits: ResourceLimits,
    /// The programs that take this program's output as their input (by index).
    pub next: Vec<usize>,
}

/// One pairing of a program and an input.
#[derive(Debug, Clone, PartialEq, Eq)]
pub struct Run {
    /// The program, by index in the experiment.
    pub program: usize,
    /// The input of the run.
    pub input: RunInput,
    /// The path of the stderr output.
    pub err_path: String,
    /// The path of the stdout output.
    pub output_path: String,
    /// The path of the metrics file.
    pub metrics_path: String,
    /// The working directory.
    pub work_dir: String,
    /// Where the afterscript writes, when the program has one.
    pub afterscript_output_path: Option<String>,
    /// The resource limits of the run.
    pub limits: ResourceLimits,
    /// The Slurm id, once the run has been scheduled.
    pub slurm_id: Option<String>,
    /// The run that re-runs this one, if any.
    pub rerun: Option<usize>,
    /// The name of the experiment input this run was made from, if any.
    pub generated_from_input: Option<String>,
    /// The run whose output this run takes as input, if any.
    pub parent: Option<usize>,
}

/// A label assigned to runs whose afterscript output matches a pattern.
pub struct Label {
    /// The pattern that decides the label.
    pub regex: crate::pattern::Pattern,
    /// Higher priorities win when several labels match.
    pub priority: u64,
    /// Whether a run with this label counts as failed.
    pub rerun_by_default: bool,
}

impl Label {
    /// The label whose pattern is the regular expression `regex`, as a
    /// configuration file gives it; `None` where `regex` does not compile.
    pub fn new(regex: &str, priority: u64, rerun_by_default: bool) -> (r: Option<Label>)
        ensures
            r is Some <==> crate::pattern::regex_compiles(regex@),
            r matches Some(l) ==> l.regex@ == regex@ && l.priority == priority && l.rerun_by_default
                == rerun_by_default,
    {
        match crate::pattern::compile_pattern(regex) {
            Some(p) => Some(Label { regex: p, priority, rerun_by_default }),
            None => None,
        }
    }
}

/// The labels of an experiment.
pub struct Labels {
    /// Labels by name, names in increasing order.
    pub map: Vec<(String, Label)>,
    /// Whether to warn when several labels match.
    pub warn_on_label_overlap: bool,
}

/// An extra `#SBATCH` argument.
#[derive(Debug, Clone, PartialEq, Eq)]
pub struct SBatchArg {
    /// The argument's name.
    pub name: String,
    /// The argument's value.
    pub value: String,
}

/// The Slurm settings of an experiment.
#[derive(Debug, Clone, PartialEq, Eq)]
pub struct SlurmConfig {
    /// The job name.
    pub experiment_name: String,
    /// The partition to run on.
    pub partition: String,
    /// A user-set cap on the array size.
    pub array_size_limit: Option<usize>,
    /// A user-set cap on the number of submitted jobs.
    pub max_submit: Option<usize>,
    /// The account to charge.
    pub account: Option<String>,
    /// A begin time.
    pub begin: Option<String>,
    /// When to send mail.
    pub mail_type: Option<String>,
    /// Whom to send mail.
    pub mail_user: Option<String>,
    /// Further `#SBATCH` arguments, by key.
    pub additional_args: Option<Vec<(String, SBatchArg)>>,
}

/// A program as the user configures it.
#[derive(Debug, Clone, PartialEq, Eq)]
pub struct Program {
    /// The path to the executable.
    pub binary: String,
    /// The command line arguments.
    pub arguments: Vec<String>,
    /// An afterscript, if any.
    pub afterscript: Option<String>,
    /// Resource limits for this program, if set.
    pub resource_limits: Option<ResourceLimits>,
    /// Names of the programs that take this one's output as input.
    pub next: Vec<String>,
}

/// An input as the user configures it.
#[derive(Debug, Clone, PartialEq, Eq)]
pub struct Input {
    /// The path to the input, if any.
    pub input: Option<String>,
    /// Additional command line arguments.
    pub arguments: Vec<String>,
}

/// The configuration of an experiment setup.
#[derive(Debug)]
pub struct Config {
    /// Where run output goes.
    pub output_path: String,
    /// Where metrics go.
    pub metrics_path: String,
    /// Where experiments are stored.
    pub experiments_folder: String,
    /// The programs, by name (names in increasing order).
    pub programs: Vec<(String, Program)>,
    /// The postprocessing programs, by name.
    pub postprocess_programs: Option<Vec<(String, Program)>>,
    /// The inputs, by name (names in increasing order).
    pub inputs: Vec<(String, Input)>,
    /// Slurm settings, if running on Slurm.
    pub slurm: Option<SlurmConfig>,
    /// Default resource limits.
    pub resource_limits: Option<ResourceLimits>,
    /// The command that runs the wrapper.
    pub wrapper: String,
    /// Whether to warn when several labels match.
    pub warn_on_label_overlap: bool,
}

impl Default for Config {
    /// Output in `run-output`, metrics in `run-metrics`, experiments in
    /// `experiments`, the wrapper `gourd-wrapper`, and nothing else.
    fn default() -> (c: Self)
        ensures
            c.output_path@ == "run-output"@,
            c.metrics_path@ == "run-metrics"@,
            c.experiments_folder@ == "experiments"@,
            c.wrapper@ == "gourd-wrapper"@,
            c.programs.len() == 0,
            c.postprocess_programs is None,
            c.inputs.len() == 0,
            c.slurm is None,
            c.resource_limits is None,
            !c.warn_on_label_overlap,
    {
        Config {
            output_path: String::from_str("run-output"),
            metrics_path: String::from_str("run-metrics"),
            experiments_folder: String::from_str("experiments"),
            programs: Vec::new(),
            postprocess_programs: None,
            inputs: Vec::new(),
            slurm: None,
            resource_limits: None,
            wrapper: String::from_str("gourd-wrapper"),
            warn_on_label_overlap: false,
        }
    }
}

/// A moment in time: whole seconds and nanoseconds since the Unix epoch, and
/// the local offset from UTC, in seconds, at which it was taken.
#[derive(Debug, Clone, Copy, PartialEq, Eq, Structural)]
pub struct Timestamp {
    /// Whole seconds since the Unix epoch.
    pub unix_secs: i64,
    /// Nanoseconds past those seconds.
    pub nanos: u32,
    /// The local offset from UTC, in seconds.
    pub utc_offset_secs: i32,
}

/// Whether the keys of `entries` increase strictly, as the keys of an ordered
/// map are listed: in `String` order, none twice.
pub open spec fn keys_ordered<V>(entries: Seq<(String, V)>) -> bool {
    forall|i: int, j: int| 0 <= i < j < entries.len() ==> crate::text::text_less(#[trigger] entries[i].0@, #[trigger] entries[j].0@)
}

/// Ordered keys are distinct.
pub proof fn lemma_ordered_keys_distinct<V>(entries: Seq<(String, V)>, i: int, j: int)
    requires
        keys_ordered(entries),
        0 <= i < entries.len(),
        0 <= j < entries.len(),
        i != j,
    ensures
        entries[i].0@ != entries[j].0@,
{
    if i < j {
        assert(crate::text::text_less(entries[i].0@, entries[j].0@));
        crate::text::lemma_text_less_irreflexive(entries[i].0@);
    } else {
        assert(crate::text::text_less(entries[j].0@, entries[i].0@));
        crate::text::lemma_text_less_irreflexive(entries[j].0@);
    }
}

/// Whether the keys of `entries` increase strictly.
pub fn keys_in_order<V>(entries: &Vec<(String, V)>) -> (b: bool)
    ensures
        b == keys_ordered(entries@),
{
    let n = entries.len();
    if n == 0 {
        return true;
    }
    let mut i: usize = 1;
    while i < n
        invariant
            1 <= i <= n,
            n == entries.len(),
            keys_ordered(entries@.take(i as int)),
        decreases n - i,
    {
        if !crate::text::text_lt(entries[i - 1].0.as_str(), entries[i].0.as_str()) {
            assert(!keys_ordered(entries@)) by {
                assert(!crate::text::text_less(entries@[i - 1].0@, entries@[i as int].0@));
            }
            return false;
        }
        proof {
            let t = entries@.take(i + 1);
            assert forall|a: int, c: int| 0 <= a < c < t.len() implies crate::text::text_less(#[trigger] t[a].0@, #[trigger] t[c].0@) by {
                if c < i {
                    assert(entries@.take(i as int)[a] == t[a] && entries@.take(i as int)[c] == t[c]);
                } else if a < i - 1 {
                    assert(entries@.take(i as int)[a] == t[a] && entries@.take(i as int)[i - 1] == t[i - 1]);
                    crate::text::lemma_text_less_transitive(t[a].0@, t[i - 1].0@, t[c].0@);
                }
            }
        }
        i = i + 1;
    }
    assert(entries@.take(n as int) =~= entries@);
    true
}

/// Whether every map of a configuration lists its keys in order: the
/// programs, the postprocessing programs, the inputs and the extra Slurm
/// arguments.
#[verifier::opaque]
pub open spec fn config_keys_ordered(c: &Config) -> bool {
    &&& keys_ordered(c.programs@)
    &&& (c.postprocess_programs matches Some(p) ==> keys_ordered(p@))
    &&& keys_ordered(c.inputs@)
    &&& (c.slurm matches Some(s) ==> (s.additional_args matches Some(a) ==> keys_ordered(a@)))
}

/// Whether every map of a configuration lists its keys in order.
pub fn config_keys_in_order(c: &Config) -> (b: bool)
    ensures
        b == config_keys_ordered(c),
{
    let post = match &c.postprocess_programs {
        Some(p) => keys_in_order(p),
        None => true,
    };
    let extra = match &c.slurm {
        Some(s) => match &s.additional_args {
            Some(a) => keys_in_order(a),
            None => true,
        },
        None => true,
    };
    proof {
        reveal(config_keys_ordered);
    }
    keys_in_order(&c.programs) && post && keys_in_order(&c.inputs) && extra
}

/// One experiment: its programs, inputs, runs and scheduling state.
pub struct Experiment {
    /// The experiment's number.
    pub seq: usize,
    /// When the experiment was created.
    pub creation_time: Timestamp,
    /// Where it runs.
    pub env: Environment,
    /// The wrapper command.
    pub wrapper: String,
    /// The folder for run output.
    pub output_folder: String,
    /// The folder for metrics.
    pub metrics_folder: String,
    /// The programs.
    pub programs: Vec<InternalProgram>,
    /// The inputs, by name (names in increasing order).
    pub inputs: Vec<(String, RunInput)>,
    /// The runs.
    pub runs: Vec<Run>,
    /// The scheduled chunks: each a list of jobs, each job a list of run ids.
    pub chunks: Vec<Vec<Vec<usize>>>,
    /// The labels.
    pub labels: Labels,
    /// Slurm settings.
    pub slurm: Option<SlurmConfig>,
    /// Default resource limits.
    pub resource_limits: Option<ResourceLimits>,
}

/// Whether two experiments agree in everything but their programs, runs and
/// scheduled chunks.
pub open spec fn same_setup(a: Experiment, b: Experiment) -> bool {
    &&& a.seq == b.seq
    &&& a.creation_time == b.creation_time
    &&& a.env == b.env
    &&& a.wrapper == b.wrapper
    &&& a.output_folder == b.output_folder
    &&& a.metrics_folder == b.metrics_folder
    &&& a.inputs == b.inputs
    &&& a.labels == b.labels
    &&& a.slurm == b.slurm
    &&& a.resource_limits == b.resource_limits
}

/// The text of an optional string.
pub open spec fn opt_view(o: Option<String>) -> Option<Seq<char>> {
    match o {
        Some(s) => Some(s@),
        None => None,
    }
}

/// The extra `#SBATCH` arguments as plain values.
pub open spec fn args_view(a: Option<Vec<(String, SBatchArg)>>) -> Option<Seq<(Seq<char>, Seq<char>, Seq<char>)>> {
    match a {
        Some(v) => Some(v@.map_values(|e: (String, SBatchArg)| (e.0@, e.1.name@, e.1.value@))),
        None => None,
    }
}

/// Whether two Slurm configurations hold the same values.
pub open spec fn same_slurm_config(a: SlurmConfig, b: SlurmConfig) -> bool {
    &&& a.experiment_name@ == b.experiment_name@
    &&& a.partition@ == b.partition@
    &&& a.array_size_limit == b.array_size_limit
    &&& a.max_submit == b.max_submit
    &&& opt_view(a.account) == opt_view(b.account)
    &&& opt_view(a.begin) == opt_view(b.begin)
    &&& opt_view(a.mail_type) == opt_view(b.mail_type)
    &&& opt_view(a.mail_user) == opt_view(b.mail_user)
    &&& args_view(a.additional_args) == args_view(b.additional_args)
}

fn clone_opt(o: &Option<String>) -> (r: Option<String>)
    ensures
        opt_view(r) == opt_view(*o),
{
    match o {
        Some(s) => Some(s.clone()),
        None => None,
    }
}

/// A copy of a Slurm configuration.
pub fn clone_slurm_config(c: &SlurmConfig) -> (r: SlurmConfig)
    ensures
        same_slurm_config(r, *c),
{
    let additional_args = match &c.additional_args {
        None => None,
        Some(v) => {
            let mut out: Vec<(String, SBatchArg)> = Vec::new();
            let mut i: usize = 0;
            while i < v.len()
                invariant
                    i <= v.len(),
                    out.len() == i,
                    forall|j: int| 0 <= j < i ==> #[trigger] out@[j].0@ == v@[j].0@ && out@[j].1.name@ == v@[j].1.name@
                        && out@[j].1.value@ == v@[j].1.value@,
                decreases v.len() - i,
            {
                out.push((v[i].0.clone(), SBatchArg { name: v[i].1.name.clone(), value: v[i].1.value.clone() }));
                i = i + 1;
            }
            assert(out@.map_values(|e: (String, SBatchArg)| (e.0@, e.1.name@, e.1.value@)) =~= v@.map_values(|e: (String, SBatchArg)| (e.0@, e.1.name@, e.1.value@)));
            Some(out)
        },
    };
    SlurmConfig {
        experiment_name: c.experiment_name.clone(),
        partition: c.partition.clone(),
        array_size_limit: c.array_size_limit,
        max_submit: c.max_submit,
        account: clone_opt(&c.account),
        begin: clone_opt(&c.begin),
        mail_type: clone_opt(&c.mail_type),
        mail_user: clone_opt(&c.mail_user),
        additional_args,
    }
}

} // verus!
