# gourd

`gourd` runs experiments that compare programs on inputs, on the local
machine or on a Slurm cluster, and keeps track of their runs: their status,
re-runs, resource limits, labels and analysis.

The crate has two parts.

- `src/` is the library, verified with Verus. It holds the decisions of the
  tool: how the runs of an experiment are laid out from its configuration,
  how unscheduled runs are grouped into Slurm arrays within the cluster's
  limits, what the batch scripts say, how Slurm's output is read, which runs
  are re-run, how resource limits are changed, which label a run earns, and
  what the status tables and the analysis show. Each public function carries
  a contract, and the properties that span several functions are stated and
  proved as lemmas (`lemma_*`).
- `app/` is the command-line program around it: argument parsing, the
  configuration and experiment files, the terminal, child processes, Slurm's
  commands, archives, git and plotting.

Calls into outside crates that the library makes (regular expressions,
terminal styles) go through a few small functions whose contracts are
trusted; their doc comments say what is claimed of them.
