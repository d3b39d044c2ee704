use gourd::analyse::analysis_table;
use gourd::analyse::format_rusage;
use gourd::analyse::get_afterscript_output_info;
use gourd::analyse::get_completion_time;
use gourd::analyse::get_data_for_plot;
use gourd::analyse::get_fs_status_info;
use gourd::analyse::get_slurm_status_info;
use gourd::analyse::sort_times;
use gourd::analyse::CompletionError;
use gourd::status::FileSystemBasedStatus;
use gourd::status::FsState;
use gourd::status::Measurement;
use gourd::status::PostprocessCompletion;
use gourd::status::RUsage;
use gourd::status::SlurmBasedStatus;
use gourd::status::SlurmState;
use gourd::status::Status;

fn rusage_2137() -> RUsage {
    RUsage {
        utime_secs: 0,
        utime_nanos: 2_137_000,
        stime_secs: 0,
        stime_nanos: 2_137_000,
        maxrss: 2137,
        ixrss: 2137,
        idrss: 2137,
        isrss: 2137,
        minflt: 2137,
        majflt: 2137,
        nswap: 2137,
        inblock: 2137,
        oublock: 2137,
        msgsnd: 2137,
        msgrcv: 2137,
        nsignals: 2137,
        nvcsw: 2137,
        nivcsw: 2137,
    }
}

#[test]
fn test_get_fs_status_info_pending() {
    let fs_status = FileSystemBasedStatus {
        completion: FsState::Pending,
        afterscript_completion: None,
    };
    let res = get_fs_status_info(0, &fs_status);
    assert_eq!(res, vec!["0", "pending", "...", "...", "..."]);
}

#[test]
fn test_get_fs_status_info_running() {
    let fs_status = FileSystemBasedStatus {
        completion: FsState::Running,
        afterscript_completion: None,
    };
    let res = get_fs_status_info(0, &fs_status);
    assert_eq!(res, vec!["0", "running", "...", "...", "..."]);
}

#[test]
fn test_get_fs_status_info_completed() {
    let fs_status = FileSystemBasedStatus {
        completion: FsState::Completed(Measurement {
            wall_secs: 0,
            wall_nanos: 20,
            exit_code: 0,
            rusage: None,
        }),
        afterscript_completion: None,
    };
    let res = get_fs_status_info(0, &fs_status);
    assert_eq!(res, vec!["0", "completed", "20ns", "0", "none"]);
}

#[test]
fn fs_status_info_shows_negative_exit_codes() {
    let fs_status = FileSystemBasedStatus {
        completion: FsState::Completed(Measurement {
            wall_secs: 2,
            wall_nanos: 500_000_000,
            exit_code: -11,
            rusage: None,
        }),
        afterscript_completion: None,
    };
    let res = get_fs_status_info(7, &fs_status);
    assert_eq!(res, vec!["7", "completed", "2.5s", "-11", "none"]);
}

#[test]
fn test_format_rusage() {
    let res = format_rusage(Some(rusage_2137()));
    let ans = "RUsage {\n    utime: 2.137ms,\n    stime: 2.137ms,\n    maxrss: 2137,\n    ixrss: 2137,\n    idrss: 2137,\n    isrss: 2137,\n    minflt: 2137,\n    majflt: 2137,\n    nswap: 2137,\n    inblock: 2137,\n    oublock: 2137,\n    msgsnd: 2137,\n    msgrcv: 2137,\n    nsignals: 2137,\n    nvcsw: 2137,\n    nivcsw: 2137,\n}";
    assert_eq!(res, ans);
    assert_eq!(format_rusage(None), "none");
}

#[test]
fn test_get_slurm_status_info() {
    let slurm = SlurmBasedStatus {
        completion: SlurmState::NodeFail,
        exit_code_program: 42,
        exit_code_slurm: 69,
    };

    assert_eq!(
        get_slurm_status_info(&Some(slurm)),
        vec![String::from("NodeFail")]
    );
    assert_eq!(get_slurm_status_info(&None), vec![String::from("...")]);
}

#[test]
fn test_get_afterscript_output_info() {
    let afterscript = Some(Some(String::from("lol-label")));

    assert_eq!(
        get_afterscript_output_info(&afterscript),
        vec![String::from("lol-label")]
    );
    assert_eq!(
        get_afterscript_output_info(&Some(None)),
        vec![String::from("done, no label")]
    );
    assert_eq!(
        get_afterscript_output_info(&None),
        vec![String::from("no afterscript")]
    );
}

#[test]
fn test_get_completion_time() {
    let state = FsState::Completed(Measurement {
        wall_secs: 0,
        wall_nanos: 20,
        exit_code: 0,
        rusage: Some(rusage_2137()),
    });
    let res = get_completion_time(state).unwrap();

    assert_eq!((0, 2_137_000), res);
    assert_eq!(get_completion_time(FsState::Running), Err(CompletionError::NotCompleted));
    let no_usage = FsState::Completed(Measurement { wall_secs: 0, wall_nanos: 0, exit_code: 0, rusage: None });
    assert_eq!(get_completion_time(no_usage), Err(CompletionError::NoRUsage));
}

#[test]
fn test_get_data_for_plot_exists() {
    let completions = vec![
        (String::from("first"), vec![1u128, 2, 5]),
        (String::from("second"), vec![1u128, 3]),
    ];

    let max_time = 5;
    let max_count = 3;

    let data = vec![
        (
            String::from("first"),
            vec![(0, 0), (1, 1), (2, 2), (3, 2), (4, 2), (5, 3)],
        ),
        (
            String::from("second"),
            vec![(0, 0), (1, 1), (2, 1), (3, 2), (4, 2), (5, 2)],
        ),
    ];

    let res = get_data_for_plot(&completions);
    assert_eq!((max_time, max_count, data), res);
}

#[test]
fn test_get_data_for_plot_not_exist() {
    let completions: Vec<(String, Vec<u128>)> = vec![];

    assert_eq!((0, 0, vec![]), get_data_for_plot(&completions));
}

#[test]
fn times_are_sorted() {
    assert_eq!(sort_times(&vec![5, 1, 4, 1, 3]), vec![1, 1, 3, 4, 5]);
}

#[test]
fn analysis_table_has_a_row_per_run() {
    let statuses = vec![
        Status {
            fs_status: FileSystemBasedStatus {
                completion: FsState::Pending,
                afterscript_completion: Some(PostprocessCompletion::Success(Some("ok".to_string()))),
            },
            slurm_status: None,
        },
        Status {
            fs_status: FileSystemBasedStatus { completion: FsState::Running, afterscript_completion: None },
            slurm_status: Some(SlurmBasedStatus {
                completion: SlurmState::Timeout,
                exit_code_program: 0,
                exit_code_slurm: 0,
            }),
        },
    ];
    let t = analysis_table(&statuses);
    assert_eq!(t.len(), 3);
    assert_eq!(t[0][0], "id");
    assert_eq!(t[0][6], "slurm completion");
    assert_eq!(t[1], vec!["0", "pending", "...", "...", "...", "ok", "..."]);
    assert_eq!(t[2], vec!["1", "running", "...", "...", "...", "no afterscript", "Timeout"]);
}

#[test]
fn test_analysis_csv_success() {
    let statuses = vec![
        Status {
            fs_status: FileSystemBasedStatus {
                completion: FsState::Pending,
                afterscript_completion: Some(PostprocessCompletion::Success(Some("lol-label".to_string()))),
            },
            slurm_status: None,
        },
        Status {
            fs_status: FileSystemBasedStatus {
                completion: FsState::Completed(Measurement { wall_secs: 0, wall_nanos: 0, exit_code: 0, rusage: None }),
                afterscript_completion: None,
            },
            slurm_status: Some(SlurmBasedStatus { completion: SlurmState::Success, exit_code_program: 0, exit_code_slurm: 0 }),
        },
    ];
    let t = analysis_table(&statuses);
    assert_eq!(t[1], vec!["0", "pending", "...", "...", "...", "lol-label", "..."]);
    assert_eq!(t[2], vec!["1", "completed", "0ns", "0", "none", "no afterscript", "Success"]);
}
