//! What is known of a run: its state on the file system and on Slurm.
use vstd::prelude::*;

verus! {

/// Resource usage of a finished run, as `getrusage` reports it.
#[derive(Debug, Clone, Copy, PartialEq, Eq, Structural)]
pub struct RUsage {
    /// User time, whole seconds.
    pub utime_secs: u64,
    /// User time, sub-second nanoseconds.
    pub utime_nanos: u32,
    /// System time, whole seconds.
    pub stime_secs: u64,
    /// System time, sub-second nanoseconds.
    pub stime_nanos: u32,
    /// Maximum resident set size.
    pub maxrss: i64,
    /// Integral shared memory size.
    pub ixrss: i64,
    /// Integral unshared data size.
    pub idrss: i64,
    /// Integral unshared stack size.
    pub isrss: i64,
    /// Page reclaims.
    pub minflt: i64,
    /// Page faults.
    pub majflt: i64,
    /// Swaps.
    pub nswap: i64,
    /// Block input operations.
    pub inblock: i64,
    /// Block output operations.
    pub oublock: i64,
    /// IPC messages sent.
    pub msgsnd: i64,
    /// IPC messages received.
    pub msgrcv: i64,
    /// Signals received.
    pub nsignals: i64,
    /// Voluntary context switches.
    pub nvcsw: i64,
    /// Involuntary context switches.
    pub nivcsw: i64,
}

/// What the wrapper measured of a finished run.
#[derive(Debug, Clone, Copy, PartialEq, Eq, Structural)]
pub struct Measurement {
    /// Wall clock time, whole seconds.
    pub wall_secs: u64,
    /// Wall clock time, sub-second nanoseconds.
    pub wall_nanos: u32,
    /// The exit code of the program.
    pub exit_code: i32,
    /// Resource usage, when available.
    pub rusage: Option<RUsage>,
}

/// The state of a run as the file system shows it.
#[derive(Debug, Clone, Copy, PartialEq, Eq, Structural)]
pub enum FsState {
    /// Not started.
    Pending,
    /// Started, not finished.
    Running,
    /// Finished, with its measurement.
    Completed(Measurement),
}

/// The state of an afterscript or postprocessing step.
#[derive(Debug, Clone, PartialEq, Eq)]
pub enum PostprocessCompletion {
    /// Not needed yet.
    Dormant,
    /// Waiting to run.
    Pending,
    /// Done, with the label it assigned, if any.
    Success(Option<String>),
    /// Failed.
    Failed,
}

/// The state of a run as Slurm reports it.
#[derive(Debug, Clone, Copy, PartialEq, Eq, Structural)]
pub enum SlurmState {
    /// The node failed to boot.
    BootFail,
    /// Cancelled.
    Cancelled,
    /// Reached its deadline.
    Deadline,
    /// A node failed.
    NodeFail,
    /// Ran out of memory.
    OutOfMemory,
    /// Preempted.
    Preempted,
    /// Slurm failed.
    SlurmFail,
    /// Finished successfully.
    Success,
    /// Ran out of time.
    Timeout,
}

/// The file-system view of a run.
#[derive(Debug, Clone, PartialEq, Eq)]
pub struct FileSystemBasedStatus {
    /// Whether the run finished.
    pub completion: FsState,
    /// The state of its afterscript, if it has one.
    pub afterscript_completion: Option<PostprocessCompletion>,
}

/// The Slurm view of a run.
#[derive(Debug, Clone, Copy, PartialEq, Eq, Structural)]
pub struct SlurmBasedStatus {
    /// The Slurm state.
    pub completion: SlurmState,
    /// The program's exit code.
    pub exit_code_program: isize,
    /// Slurm's exit code.
    pub exit_code_slurm: isize,
}

/// Everything known of a run.
#[derive(Debug, Clone, PartialEq, Eq)]
pub struct Status {
    /// From the file system.
    pub fs_status: FileSystemBasedStatus,
    /// From Slurm, when the run was scheduled there.
    pub slurm_status: Option<SlurmBasedStatus>,
}

impl Status {
    /// Whether the run has finished.
    pub open spec fn completed(&self) -> bool {
        self.fs_status.completion is Completed
    }

    /// Whether Slurm knows of the run.
    pub open spec fn scheduled(&self) -> bool {
        self.slurm_status is Some
    }

    /// Whether the run has finished.
    pub fn is_completed(&self) -> (b: bool)
        ensures
            b == self.completed(),
    {
        match self.fs_status.completion {
            FsState::Completed(_) => true,
            _ => false,
        }
    }

    /// Whether Slurm knows of the run.
    pub fn is_scheduled(&self) -> (b: bool)
        ensures
            b == self.scheduled(),
    {
        self.slurm_status.is_some()
    }
}

/// Whether `s` begins with `t`.
pub open spec fn begins_with(s: Seq<char>, t: Seq<char>) -> bool {
    t.len() <= s.len() && s.subrange(0, t.len() as int) == t
}

/// The final state a run is in by the state that `sacct` writes for it, as
/// Slurm names its job states (`CANCELLED` may be followed by who cancelled);
/// `None` for a state that is not final.
pub open spec fn slurm_state_of_name(s: Seq<char>) -> Option<SlurmState> {
    if s == "BOOT_FAIL"@ {
        Some(SlurmState::BootFail)
    } else if begins_with(s, "CANCELLED"@) {
        Some(SlurmState::Cancelled)
    } else if s == "DEADLINE"@ {
        Some(SlurmState::Deadline)
    } else if s == "NODE_FAIL"@ {
        Some(SlurmState::NodeFail)
    } else if s == "OUT_OF_MEMORY"@ {
        Some(SlurmState::OutOfMemory)
    } else if s == "PREEMPTED"@ {
        Some(SlurmState::Preempted)
    } else if s == "FAILED"@ {
        Some(SlurmState::SlurmFail)
    } else if s == "COMPLETED"@ {
        Some(SlurmState::Success)
    } else if s == "TIMEOUT"@ {
        Some(SlurmState::Timeout)
    } else {
        None
    }
}

/// The final state a run is in by the state that `sacct` writes for it;
/// `None` for a state that is not final.
pub fn slurm_state_from_sacct(s: &str) -> (r: Option<SlurmState>)
    ensures
        r == slurm_state_of_name(s@),
{
    let t = String::from_str(s);
    if t == String::from_str("BOOT_FAIL") {
        Some(SlurmState::BootFail)
    } else if crate::text::starts_with_str(s, "CANCELLED") {
        Some(SlurmState::Cancelled)
    } else if t == String::from_str("DEADLINE") {
        Some(SlurmState::Deadline)
    } else if t == String::from_str("NODE_FAIL") {
        Some(SlurmState::NodeFail)
    } else if t == String::from_str("OUT_OF_MEMORY") {
        Some(SlurmState::OutOfMemory)
    } else if t == String::from_str("PREEMPTED") {
        Some(SlurmState::Preempted)
    } else if t == String::from_str("FAILED") {
        Some(SlurmState::SlurmFail)
    } else if t == String::from_str("COMPLETED") {
        Some(SlurmState::Success)
    } else if t == String::from_str("TIMEOUT") {
        Some(SlurmState::Timeout)
    } else {
        None
    }
}

} // verus!
