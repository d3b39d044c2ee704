use gourd::model::Config;
use gourd::model::Environment;
use gourd::model::Experiment;
use gourd::model::Input;
use gourd::model::Label;
use gourd::model::Labels;
use gourd::model::Timestamp;
use gourd::model::Program;
use gourd::model::ResourceLimits;
use gourd::plan::from_config;
use gourd::post::assign_label;
use gourd::post::filter_runs_for_afterscript;
use gourd::post::matching_labels;
use gourd::rerun::aggregate_run_statuses;
use gourd::rerun::all_run_statuses;
use gourd::rerun::check_multiple_runs_failed;
use gourd::rerun::check_rerun_ids;
use gourd::rerun::check_single_run_failed;
use gourd::rerun::decide_run_by_run;
use gourd::rerun::failure_summary;
use gourd::rerun::limit_failures;
use gourd::rerun::get_finished_runs_from_statuses;
use gourd::rerun::program_choices;
use gourd::rerun::re_runnable;
use gourd::rerun::rerun_candidates;
use gourd::rerun::rerun_runs;
use gourd::rerun::runs_for_program;
use gourd::rerun::status_of_single_run;
use gourd::rerun::success_fails_from_table;
use gourd::rerun::update_program_resource_limits;
use gourd::rerun::MultipleChoice;
use gourd::rerun::RerunError;
use gourd::rerun::RerunIdsError;
use gourd::rerun::RerunRefusal;
use gourd::rerun::RerunStatus;
use gourd::rerun::SingleRunDecision;
use gourd::status::FileSystemBasedStatus;
use gourd::status::FsState;
use gourd::status::Measurement;
use gourd::status::PostprocessCompletion;
use gourd::status::SlurmBasedStatus;
use gourd::status::SlurmState;
use gourd::status::Status;

fn limits(secs: u64) -> ResourceLimits {
    ResourceLimits { time_limit_secs: secs, time_limit_nanos: 0, cpus: 1, mem_per_cpu: 512 }
}

fn labels() -> Labels {
    Labels {
        map: vec![
            (
                "bad".to_string(),
                Label::new("error", 2, true).unwrap(),
            ),
            (
                "good".to_string(),
                Label::new("ok|error", 1, false).unwrap(),
            ),
        ],
        warn_on_label_overlap: true,
    }
}

/// Two programs, `fast` and `slow`, each on three inputs: runs 0-2 and 3-5.
fn experiment() -> Experiment {
    let program = |secs| Program {
        binary: "bin".to_string(),
        arguments: vec![],
        afterscript: None,
        resource_limits: Some(limits(secs)),
        next: vec![],
    };
    let conf = Config {
        programs: vec![("fast".to_string(), program(60)), ("slow".to_string(), program(600))],
        inputs: ["x", "y", "z"]
            .iter()
            .map(|n| (n.to_string(), Input { input: None, arguments: vec![n.to_string()] }))
            .collect(),
        ..Default::default()
    };
    from_config(&conf, creation(), Environment::Local, 3, "out".to_string(), "met".to_string(), labels()).unwrap()
}

fn status(completion: FsState, label: Option<&str>) -> Status {
    Status {
        fs_status: FileSystemBasedStatus {
            completion,
            afterscript_completion: label.map(|l| PostprocessCompletion::Success(Some(l.to_string()))),
        },
        slurm_status: None,
    }
}

fn finished(code: i32) -> FsState {
    FsState::Completed(Measurement { wall_secs: 1, wall_nanos: 0, exit_code: code, rusage: None })
}

/// Run 0 failed, run 1 succeeded, run 2 runs, run 3 has a failing label,
/// run 4 a succeeding label, run 5 is pending.
fn statuses() -> Vec<Status> {
    vec![
        status(finished(2), None),
        status(finished(0), None),
        status(FsState::Running, None),
        status(finished(0), Some("bad")),
        status(finished(0), Some("good")),
        status(FsState::Pending, None),
    ]
}

#[test]
fn statuses_of_single_runs() {
    let exp = experiment();
    let st = statuses();
    assert_eq!(status_of_single_run(0, &st, &exp), Ok(RerunStatus::FailedExitCode(2)));
    assert_eq!(status_of_single_run(1, &st, &exp), Ok(RerunStatus::FinishedExitZero));
    assert_eq!(status_of_single_run(2, &st, &exp), Ok(RerunStatus::NotFinished));
    assert_eq!(status_of_single_run(3, &st, &exp), Ok(RerunStatus::FailedErrorLabel("bad".to_string())));
    assert_eq!(status_of_single_run(4, &st, &exp), Ok(RerunStatus::FinishedSuccessLabel("good".to_string())));
    assert_eq!(status_of_single_run(9, &st, &exp), Ok(RerunStatus::DoesNotExist));
    let mut st2 = statuses();
    st2[1] = status(finished(0), Some("unknown"));
    assert_eq!(status_of_single_run(1, &st2, &exp), Err(RerunError::UnknownLabel("unknown".to_string())));
}

#[test]
fn statuses_are_described() {
    assert_eq!(RerunStatus::FailedExitCode(-3).describe(), "Failed with exit code -3");
    assert_eq!(RerunStatus::RerunAs(12).describe(), "Rerun as 12");
    assert_eq!(RerunStatus::FinishedSuccessLabel("x".to_string()).describe(), "Finished with label x");
    assert!(RerunStatus::FailedErrorLabel(String::new()).is_fail());
    assert!(RerunStatus::FinishedExitZero.is_success());
}

#[test]
fn failed_runs_are_rerun_without_asking() {
    let exp = experiment();
    let st = statuses();
    assert_eq!(check_single_run_failed(0, &exp, &st, None), Ok(SingleRunDecision::Rerun(0)));
    assert_eq!(check_single_run_failed(3, &exp, &st, None), Ok(SingleRunDecision::Rerun(3)));
    assert_eq!(
        check_single_run_failed(1, &exp, &st, None),
        Ok(SingleRunDecision::Confirm(RerunStatus::FinishedExitZero))
    );
    assert_eq!(check_single_run_failed(1, &exp, &st, Some(true)), Ok(SingleRunDecision::Rerun(1)));
    assert_eq!(check_single_run_failed(2, &exp, &st, Some(false)), Err(RerunRefusal::Cancelled));
    assert_eq!(
        check_single_run_failed(7, &exp, &st, None),
        Err(RerunRefusal::Status(RerunError::RunDoesNotExist(7)))
    );
}

#[test]
fn many_runs_are_decided_at_once() {
    let exp = experiment();
    let st = statuses();
    let list = vec![0, 1, 2, 3, 4, 5];
    assert!(decide_run_by_run(list.len()));
    assert!(!decide_run_by_run(10));
    assert_eq!(check_multiple_runs_failed(&list, &exp, &st, MultipleChoice::OnlyFailed), Ok(vec![0, 3]));
    assert_eq!(check_multiple_runs_failed(&list, &exp, &st, MultipleChoice::All), Ok(list.clone()));
    assert_eq!(check_multiple_runs_failed(&list, &exp, &st, MultipleChoice::Cancel), Err(RerunRefusal::Cancelled));
    assert_eq!(failure_summary(&list, &exp, &st), Ok((2, 2)));
}

#[test]
fn statuses_are_counted() {
    let exp = experiment();
    let st = statuses();
    let m = all_run_statuses(&vec![4, 0, 3, 1, 0], &exp, &st).unwrap();
    let ids: Vec<usize> = m.iter().map(|(i, _)| *i).collect();
    assert_eq!(ids, vec![0, 1, 3, 4]);
    let table = aggregate_run_statuses(&m);
    let total: usize = table.iter().map(|(_, n)| *n).sum();
    assert_eq!(total, 4);
    assert!(table.iter().all(|(_, n)| *n > 0));
    assert_eq!(success_fails_from_table(&table), (2, 2));
}

#[test]
fn rerun_candidates_are_finished_runs() {
    let exp = experiment();
    let st = statuses();
    assert_eq!(get_finished_runs_from_statuses(&st), vec![0, 1, 3, 4]);
    let (all, failed) = rerun_candidates(&exp, &st);
    assert_eq!(all, vec![0, 1, 3, 4]);
    assert_eq!(failed, vec![0, 3]);
    assert_eq!(re_runnable(&vec![4, 3, 1, 0], &exp, &st), vec![3, 0]);
}

#[test]
fn rerun_ids_are_checked() {
    let mut exp = experiment();
    assert_eq!(check_rerun_ids(&vec![0, 5], &exp), Ok(()));
    assert_eq!(
        check_rerun_ids(&vec![0, 6, 7], &exp),
        Err(RerunIdsError::RunDoesNotExist { id: 6, runs: 6 })
    );
    rerun_runs(&mut exp, &vec![1]);
    assert_eq!(check_rerun_ids(&vec![1], &exp), Err(RerunIdsError::AlreadyRerun(1)));
}

#[test]
fn rerunning_appends_linked_runs() {
    let mut exp = experiment();
    update_program_resource_limits(3, &mut exp, limits(1200));
    assert_eq!(exp.programs[1].limits, limits(1200));
    rerun_runs(&mut exp, &vec![0, 3]);
    assert_eq!(exp.runs.len(), 8);
    assert_eq!(exp.runs[0].rerun, Some(6));
    assert_eq!(exp.runs[3].rerun, Some(7));
    assert_eq!(exp.runs[6].program, exp.runs[0].program);
    assert_eq!(exp.runs[6].input, exp.runs[0].input);
    assert_eq!(exp.runs[7].limits, limits(1200));
    assert_eq!(exp.runs[7].output_path, "out/3/1/7/stdout");
    assert_eq!(exp.runs[7].rerun, None);
}

#[test]
fn program_choices_follow_run_order() {
    let exp = experiment();
    assert_eq!(program_choices(&vec![4, 0, 1, 3], &exp), vec!["fast".to_string(), "slow".to_string()]);
    assert_eq!(runs_for_program(&vec![4, 0, 1, 3], &exp, &"slow".to_string()), vec![3]);
    assert_eq!(runs_for_program(&vec![4, 0, 1, 3], &exp, &"fast".to_string()), vec![0]);
}

#[test]
fn labels_go_to_the_highest_priority_match() {
    let exp = experiment();
    assert_eq!(assign_label(&exp, "an error happened"), Some("bad".to_string()));
    assert_eq!(assign_label(&exp, "all ok"), Some("good".to_string()));
    assert_eq!(assign_label(&exp, "nothing"), None);
    assert_eq!(matching_labels(&exp, "an error"), vec!["bad".to_string(), "good".to_string()]);
}

#[test]
fn mod_test_filter_runs_for_afterscript_good_weather() {
    let runs = vec![
        Some(status(finished(0), None)),
        Some(Status {
            fs_status: FileSystemBasedStatus {
                completion: finished(0),
                afterscript_completion: Some(PostprocessCompletion::Dormant),
            },
            slurm_status: None,
        }),
        Some(Status {
            fs_status: FileSystemBasedStatus {
                completion: FsState::Running,
                afterscript_completion: Some(PostprocessCompletion::Dormant),
            },
            slurm_status: None,
        }),
        Some(status(finished(0), Some("short"))),
    ];

    let res = filter_runs_for_afterscript(&runs).unwrap();

    assert_eq!(res.len(), 1);
    assert_eq!(res[0], 1);
}

#[test]
fn afterscripts_wait_for_successful_runs_only() {
    let waiting = |completion| {
        Some(Status {
            fs_status: FileSystemBasedStatus { completion, afterscript_completion: Some(PostprocessCompletion::Dormant) },
            slurm_status: None,
        })
    };
    let runs = vec![waiting(finished(1)), waiting(finished(0)), waiting(finished(-1))];
    assert_eq!(filter_runs_for_afterscript(&runs), Ok(vec![1]));
}

#[test]
fn test_filter_runs_for_afterscript_bad_weather() {
    let runs = vec![Some(status(finished(0), None)), None];
    assert!(filter_runs_for_afterscript(&runs).is_err());
}

#[test]
fn limit_failures_are_counted() {
    let mut st = statuses();
    let slurm = |completion| Some(SlurmBasedStatus { completion, exit_code_program: 0, exit_code_slurm: 0 });
    st[0].slurm_status = slurm(SlurmState::OutOfMemory);
    st[1].slurm_status = slurm(SlurmState::Timeout);
    st[2].slurm_status = slurm(SlurmState::OutOfMemory);
    st[3].slurm_status = slurm(SlurmState::Success);
    assert_eq!(limit_failures(&vec![0, 1, 2, 3, 5], &st), (2, 1));
    assert_eq!(limit_failures(&vec![1, 1], &st), (0, 2));
    assert_eq!(limit_failures(&vec![], &st), (0, 0));
}

#[test]
fn labels_are_made_from_patterns() {
    assert!(Label::new("(unclosed", 1, false).is_none());
    let l = Label::new("err(or)?", 7, true).unwrap();
    assert_eq!(l.priority, 7);
    assert!(l.rerun_by_default);
}

#[test]
fn rerunning_twice_links_the_last_rerun() {
    let mut exp = experiment();
    rerun_runs(&mut exp, &vec![2, 2]);
    assert_eq!(exp.runs.len(), 8);
    assert_eq!(exp.runs[2].rerun, Some(7));
    assert_eq!(exp.runs[6].program, exp.runs[7].program);
}

fn creation() -> Timestamp {
    Timestamp { unix_secs: 1_700_000_000, nanos: 0, utc_offset_secs: 3600 }
}

#[test]
fn afterscript_states_follow_the_output() {
    let exp = experiment();
    assert_eq!(gourd::post::afterscript_state(&exp, false, None), None);
    assert_eq!(gourd::post::afterscript_state(&exp, true, None), Some(PostprocessCompletion::Dormant));
    assert_eq!(
        gourd::post::afterscript_state(&exp, true, Some("an error happened".to_string())),
        Some(PostprocessCompletion::Success(Some("bad".to_string())))
    );
    assert_eq!(
        gourd::post::afterscript_state(&exp, true, Some("nothing".to_string())),
        Some(PostprocessCompletion::Success(None))
    );
}
