use gourd::array::create_chunks;
use gourd::array::create_chunks_with_resource_limits;
use gourd::array::get_unscheduled_runs;
use gourd::array::Chunk as ArrayChunk;
use gourd::array::ChunkRunStatus;
use gourd::chunks::mark_chunk_scheduled;
use gourd::chunks::next_chunks;
use gourd::chunks::register_runs;
use gourd::chunks::scheduled_nodep;
use gourd::chunks::unscheduled;
use gourd::chunks::Chunk;
use gourd::chunks::ChunkError;
use gourd::chunks::Job;
use gourd::model::Config;
use gourd::model::Environment;
use gourd::model::Experiment;
use gourd::model::Input;
use gourd::model::Labels;
use gourd::model::Timestamp;
use gourd::model::Program;
use gourd::model::ResourceLimits;
use gourd::model::SlurmConfig;
use gourd::plan::from_config;
use gourd::plan::lay_out_runs;
use gourd::plan::latest_id_from_names;
use gourd::plan::next_experiment_seq;
use gourd::plan::PlanError;
use gourd::slurm::runs_to_cancel;
use gourd::slurm::CancelError;
use gourd::slurm::SlurmCli;
use gourd::status::FileSystemBasedStatus;
use gourd::status::FsState;
use gourd::status::Measurement;
use gourd::status::Status;

fn limits(secs: u64) -> ResourceLimits {
    ResourceLimits { time_limit_secs: secs, time_limit_nanos: 0, cpus: 1, mem_per_cpu: 512 }
}

fn program(next: &[&str]) -> Program {
    Program {
        binary: "bin".to_string(),
        arguments: vec![],
        afterscript: None,
        resource_limits: None,
        next: next.iter().map(|s| s.to_string()).collect(),
    }
}

fn config(programs: Vec<(&str, Program)>, inputs: &[&str]) -> Config {
    Config {
        programs: programs.into_iter().map(|(n, p)| (n.to_string(), p)).collect(),
        inputs: inputs
            .iter()
            .map(|n| (n.to_string(), Input { input: Some(format!("{n}.txt")), arguments: vec![] }))
            .collect(),
        resource_limits: Some(limits(600)),
        ..Default::default()
    }
}

fn slurm_config() -> SlurmConfig {
    SlurmConfig {
        experiment_name: "test".to_string(),
        partition: "compute".to_string(),
        array_size_limit: None,
        max_submit: None,
        account: None,
        begin: None,
        mail_type: None,
        mail_user: None,
        additional_args: None,
    }
}

/// An experiment of `programs` programs without `next` and `inputs` inputs,
/// with Slurm settings and the given resource limits.
fn slurm_experiment(programs: usize, inputs: usize, limits: ResourceLimits) -> Experiment {
    let names: Vec<String> = (0..programs).map(|i| format!("Prog{i}")).collect();
    let input_names: Vec<String> = (0..inputs).map(|i| format!("Inp{i:02}")).collect();
    let input_refs: Vec<&str> = input_names.iter().map(|s| s.as_str()).collect();
    let mut conf = config(names.iter().map(|n| (n.as_str(), program(&[]))).collect(), &input_refs);
    conf.slurm = Some(slurm_config());
    conf.resource_limits = Some(limits);
    experiment(&conf)
}

fn experiment(conf: &Config) -> Experiment {
    from_config(conf, creation(),
        Environment::Slurm,
        1,
        "out".to_string(),
        "metrics".to_string(),
        Labels { map: vec![], warn_on_label_overlap: false },
    )
    .unwrap()
}

fn pending() -> Status {
    Status {
        fs_status: FileSystemBasedStatus { completion: FsState::Pending, afterscript_completion: None },
        slurm_status: None,
    }
}

fn done(exit_code: i32) -> Status {
    Status {
        fs_status: FileSystemBasedStatus {
            completion: FsState::Completed(Measurement { wall_secs: 1, wall_nanos: 0, exit_code, rusage: None }),
            afterscript_completion: None,
        },
        slurm_status: None,
    }
}

#[test]
fn latest_id_correct() {
    // The regular files of an experiments folder with eight experiments,
    // and some files that are no experiments.
    let mut names: Vec<String> = (1..=8).map(|i| format!("{i}.lock")).collect();
    names.push("19".to_string());
    names.push("8.lock.bkp".to_string());
    assert_eq!(latest_id_from_names(&names), Ok(Some(8)));
}

#[test]
fn latest_id_rejects_bad_lock_files() {
    let names = vec!["3.lock".to_string(), "x.lock".to_string()];
    assert_eq!(latest_id_from_names(&names), Err("x.lock".to_string()));
    assert_eq!(latest_id_from_names(&vec![]), Ok(None));
    assert_eq!(latest_id_from_names(&vec!["5.lock.lock".to_string()]), Ok(Some(5)));
    assert_eq!(next_experiment_seq(Some(8)), 9);
    assert_eq!(next_experiment_seq(None), 1);
}

#[test]
fn from_config_pairs_programs_and_inputs() {
    let conf = config(vec![("a", program(&[])), ("b", program(&[]))], &["x", "y", "z"]);
    let exp = experiment(&conf);
    assert_eq!(exp.runs.len(), 6);
    assert_eq!(exp.runs[0].output_path, "out/1/0/0/stdout");
    assert_eq!(exp.runs[0].err_path, "out/1/0/0/stderr");
    assert_eq!(exp.runs[0].metrics_path, "metrics/1/0/0/metrics");
    assert!(exp.runs.iter().all(|r| r.limits == limits(600) && r.parent.is_none()));
    assert!(exp.chunks.is_empty());
}

#[test]
fn from_config_chains_next_programs() {
    let conf = config(vec![("a", program(&["b"])), ("b", program(&[]))], &["x", "y"]);
    let exp = experiment(&conf);
    assert_eq!(exp.runs.len(), 4);
    let children: Vec<_> = exp.runs.iter().filter(|r| r.parent.is_some()).collect();
    assert_eq!(children.len(), 2);
    for c in children {
        let p = &exp.runs[c.parent.unwrap()];
        assert_eq!(c.input.file.as_ref(), Some(&p.output_path));
    }
}

#[test]
fn from_config_refuses_cycles_and_unknown_programs() {
    let conf = config(vec![("a", program(&["b"])), ("b", program(&["a"]))], &["x"]);
    assert!(matches!(
        from_config(&conf, creation(), Environment::Local, 1, "o".into(), "m".into(), Labels { map: vec![], warn_on_label_overlap: false }),
        Err(PlanError::Cycle)
    ));
    let conf = config(vec![("a", program(&["nope"]))], &["x"]);
    assert!(matches!(
        from_config(&conf, creation(), Environment::Local, 1, "o".into(), "m".into(), Labels { map: vec![], warn_on_label_overlap: false }),
        Err(PlanError::UnknownProgram(n)) if n == "nope"
    ));
}

#[test]
fn get_unscheduled_runs_test() {
    let resource_limits = limits(600);
    let chunks = vec![ArrayChunk {
        runs: vec![0, 1],
        resource_limits: Some(resource_limits),
        status: ChunkRunStatus::Pending,
    }];

    // Three programs times three inputs: nine runs.
    let runs = get_unscheduled_runs(9, &chunks);

    assert_eq!(runs, vec!(2, 3, 4, 5, 6, 7, 8))
}

#[test]
fn create_chunks_basic_test() {
    let resource_limits = limits(600);
    let chunks = vec![ArrayChunk {
        runs: vec![0, 1],
        resource_limits: Some(resource_limits),
        status: ChunkRunStatus::Pending,
    }];

    let experiment = slurm_experiment(3, 3, resource_limits);
    assert_eq!(experiment.runs.len(), 9);
    let chunks = create_chunks(&experiment, 3, 3, &get_unscheduled_runs(9, &chunks)).unwrap();

    assert_eq!(
        chunks,
        vec!(
            ArrayChunk { runs: vec![2, 3, 4], resource_limits: Some(resource_limits), status: ChunkRunStatus::Pending },
            ArrayChunk { runs: vec![5, 6, 7], resource_limits: Some(resource_limits), status: ChunkRunStatus::Pending },
            ArrayChunk { runs: vec![8], resource_limits: Some(resource_limits), status: ChunkRunStatus::Pending }
        )
    )
}

#[test]
fn create_chunks_greedy_test() {
    let resource_limits_a = limits(600);
    let resource_limits_b = limits(1200);

    // Two programs times ten inputs: runs 0-4 pair program A with the
    // A inputs and get limits A; all other runs get limits B.
    let limit_of: Vec<ResourceLimits> =
        (0..20).map(|i| if i < 5 { resource_limits_a } else { resource_limits_b }).collect();
    let mut chunks = vec![ArrayChunk { runs: vec![], resource_limits: Some(resource_limits_b), status: ChunkRunStatus::Pending }];

    let runs = get_unscheduled_runs(20, &chunks);

    let mut chunks_greedy = create_chunks_with_resource_limits(6, 2, &limit_of, &runs);
    assert_eq!(
        vec!(
            ArrayChunk { runs: vec![5, 6, 7, 8, 9, 10], resource_limits: Some(resource_limits_b), status: ChunkRunStatus::Pending },
            ArrayChunk { runs: vec![11, 12, 13, 14, 15, 16], resource_limits: Some(resource_limits_b), status: ChunkRunStatus::Pending }
        ),
        chunks_greedy
    );

    let experiment = slurm_experiment(2, 10, resource_limits_b);
    let chunks_basic = create_chunks(&experiment, 6, 3, &runs).unwrap();
    assert_eq!(
        vec!(
            ArrayChunk { runs: vec![0, 1, 2, 3, 4, 5], resource_limits: Some(resource_limits_b), status: ChunkRunStatus::Pending },
            ArrayChunk { runs: vec![6, 7, 8, 9, 10, 11], resource_limits: Some(resource_limits_b), status: ChunkRunStatus::Pending },
            ArrayChunk { runs: vec![12, 13, 14, 15, 16, 17], resource_limits: Some(resource_limits_b), status: ChunkRunStatus::Pending }
        ),
        chunks_basic,
    );

    chunks.append(&mut chunks_greedy);

    let runs = get_unscheduled_runs(20, &chunks);
    assert_eq!(runs, vec!(0, 1, 2, 3, 4, 17, 18, 19));

    let chunks_greedy = create_chunks_with_resource_limits(6, 2, &limit_of, &runs);
    assert_eq!(
        vec!(
            ArrayChunk { runs: vec![0, 1, 2, 3, 4], resource_limits: Some(resource_limits_a), status: ChunkRunStatus::Pending },
            ArrayChunk { runs: vec![17, 18, 19], resource_limits: Some(resource_limits_b), status: ChunkRunStatus::Pending },
        ),
        chunks_greedy,
    );
}

#[test]
fn next_chunks_packs_runs_largest_first() {
    let conf = config(vec![("a", program(&[]))], &["p", "q", "r", "s", "t"]);
    let exp = experiment(&conf);
    let status: Vec<Status> = exp.runs.iter().map(|_| pending()).collect();
    let chunks = next_chunks(&exp, 2, 2, 10, &status).unwrap();
    let jobs: Vec<Vec<Vec<usize>>> =
        chunks.iter().map(|c| c.jobs().iter().map(|j| j.0.clone()).collect()).collect();
    assert_eq!(jobs, vec![vec![vec![0, 1], vec![2, 3]], vec![vec![4]]]);
    let first_only = next_chunks(&exp, 2, 2, 1, &status).unwrap();
    assert_eq!(first_only.len(), 1);
}

#[test]
fn next_chunks_skips_finished_and_waiting_runs() {
    let conf = config(vec![("a", program(&["b"])), ("b", program(&[]))], &["x"]);
    let exp = experiment(&conf);
    // Run 0 (program a) has not finished, so its child cannot start yet.
    let status: Vec<Status> = exp.runs.iter().map(|_| pending()).collect();
    let chunks = next_chunks(&exp, 5, 1, 10, &status).unwrap();
    let all: Vec<usize> = chunks.iter().flat_map(|c| c.jobs().iter().flat_map(|j| j.0.clone())).collect();
    assert_eq!(all, vec![0]);
    let status = vec![done(0), done(0)];
    assert_eq!(unscheduled(&exp, &status), Vec::<usize>::new());
    assert_eq!(next_chunks(&exp, 5, 1, 10, &status), Err(ChunkError::NoRunsLeft));
}

#[test]
fn scheduled_chunks_get_slurm_ids() {
    let conf = config(vec![("a", program(&[]))], &["p", "q", "r"]);
    let mut exp = experiment(&conf);
    let chunk = Chunk::new(vec![Job(vec![0, 1]), Job(vec![2])], limits(600));
    let idx = register_runs(&mut exp, chunk.jobs());
    assert_eq!(idx, 0);
    assert_eq!(exp.chunks, vec![vec![vec![0, 1], vec![2]]]);
    mark_chunk_scheduled(&mut exp, &chunk, &"77".to_string());
    assert_eq!(exp.runs[0].slurm_id, Some("77_0.0".to_string()));
    assert_eq!(exp.runs[1].slurm_id, Some("77_0.1".to_string()));
    assert_eq!(exp.runs[2].slurm_id, Some("77_1.0".to_string()));
    assert_eq!(scheduled_nodep(&exp), 3);
}

#[test]
fn chunk_scripts_submit_the_array() {
    let mut conf = config(vec![("a", program(&[]))], &["p", "q"]);
    conf.wrapper = "gourd-wrapper".to_string();
    conf.slurm = Some(SlurmConfig {
        experiment_name: "exp".to_string(),
        partition: "compute".to_string(),
        array_size_limit: None,
        max_submit: None,
        account: Some("acct".to_string()),
        begin: None,
        mail_type: None,
        mail_user: None,
        additional_args: None,
    });
    let mut exp = experiment(&conf);
    let chunk = Chunk::new(vec![Job(vec![0]), Job(vec![1])], limits(90));
    let cli = SlurmCli::default();
    let slurm = exp.slurm.clone().unwrap();
    let script = cli.chunk_script(&slurm, &chunk, &mut exp, "o/%A_%a", "e/%A_%a", "/x/1.lock");
    assert_eq!(
        script,
        "#!/bin/bash\n#SBATCH --job-name=\"exp\"\n#SBATCH --array=\"0-1\"\n#SBATCH --ntasks=1\n\
#SBATCH --partition=\"compute\"\n#SBATCH --time=\"01:30\"\n#SBATCH --cpus-per-task=\"1\"\n\
#SBATCH --mem-per-cpu=\"512\"\n#SBATCH --output=\"o/%A_%a\"\n#SBATCH --error=\"e/%A_%a\"\n\
#SBATCH --account=acct\n\nset -x\n\ngourd-wrapper /x/1.lock 0 $SLURM_ARRAY_TASK_ID\n"
    );
    assert_eq!(exp.chunks.len(), 1);
}

#[test]
fn greedy_chunks_hold_every_run_once() {
    let a = ResourceLimits { time_limit_secs: 1, time_limit_nanos: 0, cpus: 1, mem_per_cpu: 1 };
    let b = ResourceLimits { time_limit_secs: 2, time_limit_nanos: 0, cpus: 1, mem_per_cpu: 1 };
    let limit_of = vec![a, b, a, a, b, a, a];
    let ids: Vec<usize> = (0..7).collect();
    let cs = create_chunks_with_resource_limits(2, 10, &limit_of, &ids);
    // Limits `a` open arrays at runs 0, 3 and 6; limits `b` at run 1.
    assert_eq!(cs.len(), 4);
    let mut all: Vec<usize> = cs.iter().flat_map(|c| c.runs.clone()).collect();
    all.sort();
    assert_eq!(all, ids);
    assert_eq!(cs.iter().map(|c| c.runs.len()).collect::<Vec<_>>(), vec![2, 2, 2, 1]);
    let cut = create_chunks_with_resource_limits(0, 3, &limit_of, &ids);
    assert_eq!(cut.len(), 3);
    assert!(cut.iter().all(|c| c.runs.len() == 1));
}

#[test]
fn cancelling_names_the_slurm_ids() {
    let conf = config(vec![("a", program(&[]))], &["p", "q", "r"]);
    let mut exp = experiment(&conf);
    assert_eq!(runs_to_cancel(&exp, &None), Ok(vec![]));
    let chunk = Chunk::new(vec![Job(vec![0]), Job(vec![2])], limits(600));
    mark_chunk_scheduled(&mut exp, &chunk, &"9".to_string());
    assert_eq!(runs_to_cancel(&exp, &None), Ok(vec!["9_0.0".to_string(), "9_1.0".to_string()]));
    assert_eq!(runs_to_cancel(&exp, &Some(vec![2, 0])), Ok(vec!["9_1.0".to_string(), "9_0.0".to_string()]));
    assert_eq!(runs_to_cancel(&exp, &Some(vec![0, 1, 7])), Err(CancelError::NotOnSlurm(1)));
    assert_eq!(runs_to_cancel(&exp, &Some(vec![7, 1])), Err(CancelError::NoSuchRun { id: 7, runs: 3 }));
}

#[test]
fn laying_out_a_forest_succeeds() {
    let conf = config(
        vec![("a", program(&["b", "c"])), ("b", program(&["d"])), ("c", program(&[])), ("d", program(&[])), ("e", program(&[]))],
        &["x", "y"],
    );
    let exp = experiment(&conf);
    let runs = lay_out_runs(&exp).unwrap();
    // a and e on both inputs, then b and c on a's two runs, then d on b's two runs.
    assert_eq!(runs.len(), 10);
    assert_eq!(runs[2].parent, Some(0));
    assert_eq!(runs[3].parent, Some(1));
}

#[test]
fn every_program_meets_every_input() {
    // Without `next`, run p * inputs + i pairs program p with input i.
    let conf = config(vec![("a", program(&[])), ("b", program(&[]))], &["x", "y", "z"]);
    let exp = experiment(&conf);
    assert_eq!(exp.runs.len(), 6);
    let names = ["x", "y", "z"];
    for p in 0..2 {
        for i in 0..3 {
            let run = &exp.runs[p * 3 + i];
            assert_eq!(run.program, p);
            assert_eq!(run.parent, None);
            assert_eq!(run.generated_from_input, Some(names[i].to_string()));
            assert_eq!(run.input.file, Some(format!("{}.txt", names[i])));
        }
    }
    assert!(exp.chunks.is_empty());
}

#[test]
fn a_chain_gives_one_run_per_program_and_input() {
    let conf = config(vec![("a", program(&["b"])), ("b", program(&["c"])), ("c", program(&[]))], &["x", "y"]);
    let exp = experiment(&conf);
    assert_eq!(exp.runs.len(), 3 * 2);
    // The runs of `b` take the output of the runs of `a`, input by input.
    assert_eq!(exp.runs[2].parent, Some(0));
    assert_eq!(exp.runs[3].parent, Some(1));
    assert_eq!(exp.runs[2].input.file, Some(exp.runs[0].output_path.clone()));
    assert_eq!(exp.runs[4].parent, Some(2));
    assert_eq!(exp.runs[5].parent, Some(3));
}

#[test]
fn the_creation_time_is_recorded() {
    let conf = config(vec![("a", program(&[]))], &["x"]);
    let exp = experiment(&conf);
    assert_eq!(exp.creation_time, creation());
}

#[test]
fn a_cycle_behind_a_root_is_refused() {
    // 0 -> 1 -> 2 -> 1: program 0 has no predecessor, 1 and 2 form a cycle.
    let conf = config(vec![("a", program(&["b"])), ("b", program(&["c"])), ("c", program(&["b"]))], &["x"]);
    assert!(matches!(
        from_config(&conf, creation(), Environment::Local, 1, "o".into(), "m".into(), Labels { map: vec![], warn_on_label_overlap: false }),
        Err(PlanError::Cycle)
    ));
}

#[test]
fn a_program_reached_again_after_it_was_left_is_kept() {
    // r1 -> c and r2 -> a -> c: c is laid out from r1 before a is entered.
    let conf = config(vec![("r1", program(&["c"])), ("r2", program(&["a"])), ("a", program(&["c"])), ("c", program(&[]))], &["x"]);
    let exp = experiment(&conf);
    assert_eq!(exp.runs.len(), 4);
}

#[test]
fn later_runs_take_the_parent_of_their_rank() {
    // a -> b, a -> c: the k-th run of b and of c takes the k-th run of a.
    let conf = config(vec![("a", program(&["b", "c"])), ("b", program(&[])), ("c", program(&[]))], &["x", "y", "z"]);
    let exp = experiment(&conf);
    assert_eq!(exp.runs.len(), 9);
    for p in 0..3 {
        let of_p: Vec<usize> = (0..exp.runs.len()).filter(|r| exp.runs[*r].program == p).collect();
        assert_eq!(of_p.len(), 3);
        for (k, r) in of_p.iter().enumerate() {
            match exp.runs[*r].parent {
                None => assert_eq!(exp.runs[*r].generated_from_input, Some(["x", "y", "z"][k].to_string())),
                Some(j) => {
                    let of_parent: Vec<usize> =
                        (0..exp.runs.len()).filter(|i| exp.runs[*i].program == exp.runs[j].program).collect();
                    assert_eq!(of_parent[k], j);
                }
            }
        }
    }
}

#[test]
fn create_chunks_needs_slurm_settings() {
    let conf = config(vec![("a", program(&[]))], &["x"]);
    let exp = experiment(&conf);
    assert_eq!(create_chunks(&exp, 3, 3, &vec![0]), Err(gourd::slurm::SlurmCheckError::NoSlurmConfig));
}

#[test]
fn laying_out_a_program_reached_twice_is_refused() {
    // `b` follows both `r` and `a`, and is entered again before it is left.
    let conf = config(vec![("a", program(&["b"])), ("b", program(&[])), ("r", program(&["a", "b"]))], &["x"]);
    assert!(matches!(
        from_config(&conf, creation(), Environment::Local, 1, "o".into(), "m".into(), Labels { map: vec![], warn_on_label_overlap: false }),
        Err(PlanError::Cycle)
    ));
}

fn creation() -> Timestamp {
    Timestamp { unix_secs: 1_700_000_000, nanos: 0, utc_offset_secs: 3600 }
}
