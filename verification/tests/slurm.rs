use gourd::status::slurm_state_from_sacct;
use gourd::status::SlurmState;
use std::time::Duration;

use gourd::duration::format_slurm_duration;
use gourd::duration::format_slurm_duration_secs;
use gourd::model::Config;
use gourd::model::SBatchArg;
use gourd::model::SlurmConfig;
use gourd::slurm::accounting_rows;
use gourd::slurm::get_slurm_options_from_config;
use gourd::slurm::is_valid_mail_type;
use gourd::slurm::limit_or_unbounded;
use gourd::slurm::max_time_from_limit;
use gourd::slurm::parse_optional_args;
use gourd::slurm::partition_table;
use gourd::slurm::qos_submit_limit;
use gourd::slurm::scheduled_count_of;
use gourd::slurm::scheduled_job_ids;
use gourd::slurm::scontrol_value;
use gourd::slurm::secs_from_groups;
use gourd::slurm::version_numbers;
use gourd::slurm::version_of_numbers;
use gourd::slurm::LimitError;
use gourd::slurm::SlurmCheckError;
use gourd::slurm::SlurmCli;
use gourd::slurm::SlurmHandler;
use gourd::slurm::WallForm;

fn slurm_config() -> SlurmConfig {
    SlurmConfig {
        experiment_name: "test experiment".to_string(),
        partition: "memory".to_string(),
        array_size_limit: None,
        max_submit: None,
        account: None,
        begin: None,
        mail_type: None,
        mail_user: None,
        additional_args: None,
    }
}

#[test]
fn duration_fmt_test() {
    assert_eq!(format_slurm_duration(Duration::from_millis(50)), "00");
    assert_eq!(format_slurm_duration(Duration::from_secs(0)), "00");
    assert_eq!(format_slurm_duration(Duration::from_secs(59)), "59");
    assert_eq!(format_slurm_duration(Duration::from_secs(30 + 60)), "01:30");

    assert_eq!(
        format_slurm_duration(Duration::from_secs(12 + 16 * 60)),
        "16:12"
    );

    assert_eq!(
        format_slurm_duration(Duration::from_secs(5 + (26 + 3 * 60) * 60)),
        "03:26:05"
    );

    assert_eq!(
        format_slurm_duration(Duration::from_secs(21 + (40 + (6 + 3 * 24) * 60) * 60)),
        "3-06:40:21"
    );
}

#[test]
fn duration_fmt_days_are_not_padded() {
    assert_eq!(format_slurm_duration(Duration::from_secs(12 * 86400 + 1)), "12-00:00:01");
}

#[test]
fn slurm_interactor_default_test() {
    assert_eq!(
        SlurmCli::default().versions,
        vec![[21, 8], [22, 5], [23, 2], [23, 11], [24, 5]]
    );
}

#[test]
fn versioning_test() {
    let y = SlurmHandler { internal: SlurmCli { versions: vec![[21, 8]] } };
    assert!(y.internal.check_version(Ok([21, 8])).is_ok());
}

#[test]
fn versioning_un_test() {
    let y = SlurmHandler { internal: SlurmCli { versions: vec![] } };
    assert!(y.internal.check_version(Ok([21, 8])).is_err());
}

#[test]
fn version_errors_name_found_and_supported() {
    let cli = SlurmCli { versions: vec![[22, 5], [23, 11]] };
    assert_eq!(cli.get_supported_versions(), "22.5, 23.11");
    assert_eq!(
        cli.check_version(Ok([21, 8])),
        Err(SlurmCheckError::UnsupportedVersion {
            found: "21.8".to_string(),
            supported: "22.5, 23.11".to_string()
        })
    );
    assert_eq!(
        cli.check_version(Err("no sinfo".to_string())),
        Err(SlurmCheckError::VersionUnknown("no sinfo".to_string()))
    );
    assert!(cli.is_version_supported([23, 11]));
    assert!(!cli.is_version_supported([23, 2]));
}

#[test]
fn checks_get_slurm_options_from_config_test() {
    let config = Config {
        slurm: Some(SlurmConfig {
            partition: "test".to_string(),
            max_submit: Some(10),
            array_size_limit: Some(1000),
            experiment_name: "test".to_string(),
            account: Some("test-account".to_string()),
            begin: None,
            mail_type: None,
            mail_user: None,
            additional_args: None,
        }),
        ..Default::default()
    };
    assert!(get_slurm_options_from_config(&config).is_ok());
}

#[test]
fn checks_get_slurm_options_from_config_un_test() {
    let config = Config {
        slurm: None,
        ..Default::default()
    };
    assert!(get_slurm_options_from_config(&config).is_err());
    assert_eq!(get_slurm_options_from_config(&config).unwrap_err().message(), "No SLURM configuration found");
}

#[test]
fn parse_optional_args_test_all() {
    let config = SlurmConfig {
        account: Some("test-account".to_string()),
        begin: Some("01:10:00".to_string()),
        mail_type: Some("ALL".to_string()),
        mail_user: Some("testUSER".to_string()),
        ..slurm_config()
    };
    let output = parse_optional_args(&config);
    let desired_output = "#SBATCH --account=test-account
#SBATCH --begin=01:10:00
#SBATCH --mail-type=ALL
#SBATCH --mail-user=testUSER
";

    assert_eq!(output, desired_output)
}

#[test]
fn parse_optional_args_test_only_begin() {
    let config = SlurmConfig {
        begin: Some("15:40:15".to_string()),
        ..slurm_config()
    };
    let output = parse_optional_args(&config);
    let desired_output = "#SBATCH --begin=15:40:15\n";

    assert_eq!(output, desired_output)
}

#[test]
fn parse_optional_args_test_custom_args() {
    let custom_args = vec![
        (
            "a".to_string(),
            SBatchArg {
                name: "custom-arg".to_string(),
                value: "value".to_string(),
            },
        ),
        (
            "b".to_string(),
            SBatchArg {
                name: "second-custom-arg".to_string(),
                value: "second-value".to_string(),
            },
        ),
    ];
    let config = SlurmConfig {
        account: Some("test-account".to_string()),
        mail_type: Some("ALL".to_string()),
        mail_user: Some("testUSER".to_string()),
        additional_args: Some(custom_args),
        ..slurm_config()
    };
    let output = parse_optional_args(&config);
    let desired_output = "#SBATCH --account=test-account
#SBATCH --mail-type=ALL
#SBATCH --mail-user=testUSER
#SBATCH --custom-arg=value
#SBATCH --second-custom-arg=second-value
";

    assert_eq!(output, desired_output)
}

#[test]
fn mail_types_are_checked() {
    assert!(is_valid_mail_type(&"ALL".to_string()));
    assert!(is_valid_mail_type(&"TIME_LIMIT_80".to_string()));
    assert!(!is_valid_mail_type(&"SOMETIMES".to_string()));
}

#[test]
fn max_time_reads_every_form() {
    assert_eq!(max_time_from_limit("2-03:04:05"), Ok(Some(2 * 86400 + 3 * 3600 + 4 * 60 + 5)));
    assert_eq!(max_time_from_limit("2-03"), Ok(Some(2 * 86400 + 3 * 3600)));
    assert_eq!(max_time_from_limit("03:04:05"), Ok(Some(3 * 3600 + 4 * 60 + 5)));
    assert_eq!(max_time_from_limit("03:04"), Ok(Some(3 * 60 + 4)));
    assert_eq!(max_time_from_limit("5:30"), Ok(Some(330)));
    assert_eq!(max_time_from_limit("90"), Ok(Some(90 * 60)));
    assert_eq!(max_time_from_limit(""), Ok(None));
    assert_eq!(max_time_from_limit("unlimited"), Ok(None));
}

#[test]
fn max_time_too_large_is_refused() {
    assert_eq!(max_time_from_limit("99999999999999999999"), Err(LimitError::Number));
    assert_eq!(max_time_from_limit("999999999999999999"), Err(LimitError::Overflow));
}

#[test]
fn groups_are_read_in_order() {
    let groups = vec![
        Some("1:30".to_string()),
        Some("1".to_string()),
        Some("30".to_string()),
    ];
    assert_eq!(secs_from_groups(WallForm::MinutesSeconds, &groups), Ok(60 + 30));
    let missing = vec![Some("1".to_string()), None];
    assert_eq!(secs_from_groups(WallForm::Minutes, &missing), Err(LimitError::Group));
}

#[test]
fn scontrol_values_are_found() {
    let out = "Configuration data\nMaxArraySize            = 1001\nMaxJobCount = 10000\n";
    assert_eq!(scontrol_value(out, "MaxArraySize"), Some("1001".to_string()));
    assert_eq!(scontrol_value(out, "Nothing"), None);
    assert_eq!(limit_or_unbounded("1001"), 1001);
    assert_eq!(limit_or_unbounded(""), usize::MAX);
}

#[test]
fn sinfo_output_is_read() {
    let nums = version_numbers("slurm 23.02.6\n").unwrap();
    assert_eq!(nums, vec![23, 2, 6]);
    assert_eq!(version_of_numbers(&nums), Some([23, 2]));
    assert_eq!(version_numbers("slurm"), None);
    assert_eq!(version_of_numbers(&vec![23]), None);
    let table = partition_table("PARTITION AVAIL\ncompute* up\n");
    assert_eq!(
        table,
        vec![
            vec!["PARTITION".to_string(), "AVAIL".to_string()],
            vec!["compute*".to_string(), "up".to_string()],
            vec![],
        ]
    );
}

#[test]
fn squeue_output_is_read() {
    assert_eq!(
        scheduled_job_ids("  123  4 \n125 0\n"),
        Some(vec!["123_4".to_string(), "125_0".to_string()])
    );
    assert_eq!(scheduled_job_ids("123\n"), None);
    assert_eq!(scheduled_count_of("1\n2\n3\n"), 3);
    assert_eq!(scheduled_count_of(""), 0);
}

#[test]
fn sacct_output_is_read() {
    let out = "JobID|JobName|State|ExitCode|\n12_0|exp|COMPLETED|0:3|\n12_1|exp|FAILED|x:-2|\n";
    let rows = accounting_rows(out).unwrap();
    assert_eq!(rows.len(), 2);
    assert_eq!(rows[0].job_id, "12_0");
    assert_eq!(rows[0].state, "COMPLETED");
    assert_eq!(rows[0].program_exit_code, 3);
    assert_eq!(rows[1].slurm_exit_code, 0);
    assert_eq!(rows[1].program_exit_code, -2);
    assert!(accounting_rows("header\nbroken").is_none());
}

#[test]
fn partitions_are_checked() {
    let h = SlurmHandler::default();
    let table = vec![
        vec!["PARTITION".to_string(), "AVAIL".to_string()],
        vec!["compute".to_string(), "up".to_string()],
    ];
    assert!(h.check_partition(table.clone(), "compute").is_ok());
    assert_eq!(h.check_partition(table.clone(), "gpu").unwrap_err().message(), "Invalid partition provided");
    assert_eq!(
        h.check_partition(table, "gpu"),
        Err(SlurmCheckError::InvalidPartition {
            partition: "gpu".to_string(),
            present: "PARTITION | AVAIL\ncompute   | up".to_string()
        })
    );
}

#[test]
fn submission_plans_fit_the_queue() {
    let h = SlurmHandler::default();
    assert_eq!(h.submission_plan(1000, 100, 40), Ok((60, 1)));
    assert_eq!(h.submission_plan(10, 100, 40), Ok((10, 6)));
    assert_eq!(
        h.submission_plan(10, 100, 100),
        Err(SlurmCheckError::QueueFull { scheduled: 100, max_submit: 100 })
    );
}

#[test]
fn qos_submit_limits_are_read() {
    assert_eq!(qos_submit_limit(""), None);
    assert_eq!(qos_submit_limit("  \n"), None);
    assert_eq!(qos_submit_limit("500\n"), Some(Some(500)));
    assert_eq!(qos_submit_limit("20 30"), Some(Some(20)));
    assert_eq!(qos_submit_limit("many"), Some(None));
}

#[test]
fn written_durations_read_back() {
    for secs in [60u64, 330, 3599, 3600, 93784, 3 * 86400 + 5] {
        let text = format_slurm_duration_secs(secs);
        let nums: Vec<String> = text.split(|c| c == '-' || c == ':').map(|s| s.to_string()).collect();
        let form = match nums.len() {
            2 => WallForm::MinutesSeconds,
            3 => WallForm::Hms,
            _ => WallForm::DaysHms,
        };
        let mut groups = vec![Some(text.clone())];
        groups.extend(nums.into_iter().map(Some));
        assert_eq!(secs_from_groups(form, &groups), Ok(secs));
        assert_eq!(max_time_from_limit(&text), Ok(Some(secs)));
    }
    assert_eq!(format_slurm_duration_secs(93784), "1-02:03:04");
}

#[test]
fn the_submission_loop_counts_and_stops() {
    assert_eq!(gourd::slurm::after_sbatch(2, true), (3, true));
    assert_eq!(gourd::slurm::after_sbatch(2, false), (2, false));
}

#[test]
fn sacct_states_are_read() {
    assert_eq!(slurm_state_from_sacct("COMPLETED"), Some(SlurmState::Success));
    assert_eq!(slurm_state_from_sacct("CANCELLED by 1000"), Some(SlurmState::Cancelled));
    assert_eq!(slurm_state_from_sacct("TIMEOUT"), Some(SlurmState::Timeout));
    assert_eq!(slurm_state_from_sacct("FAILED"), Some(SlurmState::SlurmFail));
    assert_eq!(slurm_state_from_sacct("RUNNING"), None);
}

#[test]
fn short_durations_are_written_as_seconds() {
    assert_eq!(format_slurm_duration_secs(7), "07");
    assert_eq!(format_slurm_duration_secs(330), "05:30");
    assert_eq!(format_slurm_duration_secs(3 * 3600 + 4), "03:00:04");
}
