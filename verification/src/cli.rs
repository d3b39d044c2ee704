//! The command line of `gourd`, as plain values. The application parses the
//! arguments into these.
use std::time::Duration;

use vstd::prelude::*;

verus! {

/// Structure of the main command (`gourd`).
#[derive(Debug)]
pub struct Cli {
    /// The main command issued.
    pub command: GourdCommand,
    /// Disable interactive mode, for use in scripts.
    pub script: bool,
    /// The path to the config file.
    pub config: String,
    /// Verbose mode, displays debug info; counted, for even more try `-vv`.
    pub verbose: u8,
    /// Dry run, run but don't actually affect anything.
    pub dry: bool,
}

/// Arguments supplied with the `run` command.
#[derive(Debug, Clone, Copy)]
pub struct RunStruct {
    /// The run mode of this run.
    pub subcommand: RunSubcommand,
}

/// The subcommands of the `run` subcommand.
#[derive(Debug, Clone, Copy, PartialEq, Eq, Structural)]
pub enum RunSubcommand {
    /// Create and run an experiment on this computer.
    Local {
        /// Force running more experiments than recommended.
        force: bool,
        /// Force running the experiments in sequence rather than concurrently.
        sequential: bool,
    },
    /// Create and run an experiment using Slurm.
    Slurm {},
}

/// Arguments for the `rerun` command.
#[derive(Debug, Clone)]
pub struct RerunOptions {
    /// The id of the experiment to rerun jobs for (default: newest experiment).
    pub experiment_id: Option<usize>,
    /// The ids of the runs to rerun (default: all failed runs).
    pub run_ids: Option<Vec<usize>>,
}

/// Arguments supplied with the `status` command.
#[derive(Debug, Clone, Copy)]
pub struct StatusStruct {
    /// The id of the experiment for which to fetch status (default: newest experiment).
    pub experiment_id: Option<usize>,
    /// Get a detailed description of a run by providing its id.
    pub run_id: Option<usize>,
    /// Do not exit until all jobs are finished.
    pub follow: bool,
    /// Do not shorten output even if there are a lot of runs.
    pub full: bool,
}

/// Arguments supplied with the `continue` command.
#[derive(Debug, Clone, Copy)]
pub struct ContinueStruct {
    /// The id of the experiment to continue (default: newest experiment).
    pub experiment_id: Option<usize>,
}

/// Arguments supplied with the `cancel` command.
#[derive(Debug, Clone)]
pub struct CancelStruct {
    /// The id of the experiment of which to cancel runs (default: newest experiment).
    pub experiment_id: Option<usize>,
    /// Cancel specific runs by providing their run ids.
    pub run_ids: Option<Vec<usize>>,
    /// Cancel all the jobs of this account, not only those by gourd.
    pub all: bool,
}

/// Arguments supplied with the `init` command.
#[derive(Debug, Clone)]
pub struct InitStruct {
    /// The directory in which to initialise a new experimental setup.
    pub directory: Option<String>,
    /// The name of an example experiment.
    pub example: Option<String>,
    /// List the available example options.
    pub list_examples: bool,
    /// Initialise a git repository for the setup.
    pub git: bool,
}

/// Arguments supplied with the `analyse` command.
#[derive(Debug, Clone)]
pub struct AnalyseStruct {
    /// The id of the experiment to analyse (default: newest experiment).
    pub experiment_id: Option<usize>,
    /// The output format of the analysis: `csv`, `plot-svg` or `plot-png`.
    pub output: String,
}

/// Arguments supplied with the `set-limits` command.
#[derive(Debug, Clone)]
pub struct SetLimitsStruct {
    /// The id of the experiment of which to change limits (default: newest experiment).
    pub experiment_id: Option<usize>,
    /// The program for which to set resource limits.
    pub program: Option<String>,
    /// Set resource limits for all programs.
    pub all: bool,
    /// The memory limit per CPU, in MB.
    pub mem: Option<usize>,
    /// The number of CPUs.
    pub cpu: Option<usize>,
    /// The time limit.
    pub time: Option<Duration>,
}

/// The root-level `gourd` commands.
#[derive(Debug)]
pub enum GourdCommand {
    /// Create an experiment from configuration and run it.
    Run(RunStruct),
    /// Set up a template of an experiment configuration.
    Init(InitStruct),
    /// Display the status of an experiment that was run.
    Status(StatusStruct),
    /// Schedule another batch of Slurm jobs.
    Continue(ContinueStruct),
    /// Cancel runs.
    Cancel(CancelStruct),
    /// Rerun some of the runs from existing experiments.
    Rerun(RerunOptions),
    /// Output metrics of completed runs.
    Analyse(AnalyseStruct),
    /// Print information about the version.
    Version,
}

/// Whether `s` names an analysis output format.
pub open spec fn is_analysis_format(s: Seq<char>) -> bool {
    s == "csv"@ || s == "plot-svg"@ || s == "plot-png"@
}

/// Whether `s` names an analysis output format: `csv`, `plot-svg` or `plot-png`.
pub fn analysis_format_valid(s: &String) -> (b: bool)
    ensures
        b == is_analysis_format(s@),
{
    s.eq(&String::from_str("csv")) || s.eq(&String::from_str("plot-svg")) || s.eq(
        &String::from_str("plot-png"),
    )
}

} // verus!
