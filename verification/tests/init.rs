use gourd::init::folders_to_create;
use gourd::init::get_example;
use gourd::init::get_examples;
use gourd::init::init_config;
use gourd::init::SlurmAnswers;

#[test]
fn examples_enabled_examples_exist() {
    // The fact that there is at least one valid example is
    // a prerequisite for many tests.
    assert_ne!(0, get_examples().len());
}

#[test]
fn examples_are_listed_by_id() {
    let ids: Vec<String> = get_examples().into_iter().map(|(id, _)| id).collect();
    assert_eq!(ids, vec!["fibonacci-comparison".to_string(), "grid-search".to_string()]);
}

#[test]
fn example_ids_accept_dots_underscores_and_spaces() {
    let e = get_example("grid_search").unwrap();
    assert_eq!(e.name, "Grid Search");
    let e = get_example("fibonacci.comparison").unwrap();
    assert_eq!(e.name, "Fibonacci Comparison");
    let e = get_example("grid search").unwrap();
    assert_eq!(e.directory_tarball, "grid-search.tar.gz");
    assert!(get_example("no-such-example").is_none());
}

#[test]
fn init_config_script_mode_defaults() {
    let c = init_config(None, true, None);
    assert_eq!(c.experiments_folder, "experiments");
    assert_eq!(c.output_path, "experiments");
    assert_eq!(c.metrics_path, "experiments");
    let s = c.slurm.unwrap();
    assert_eq!(s.experiment_name, "my-experiment");
    assert_eq!(s.partition, "");
    assert_eq!(s.account, None);
}

#[test]
fn init_config_with_answers() {
    let paths = Some(("exp".to_string(), "out".to_string(), "/abs/metrics".to_string()));
    let answers = Some(SlurmAnswers {
        experiment_name: "job".to_string(),
        credentials: Some(("acct".to_string(), "gpu".to_string())),
    });
    let c = init_config(paths, true, answers);
    let s = c.slurm.as_ref().unwrap();
    assert_eq!(s.experiment_name, "job");
    assert_eq!(s.partition, "gpu");
    assert_eq!(s.account, Some("acct".to_string()));
    assert_eq!(folders_to_create(&c), vec!["out".to_string(), "exp".to_string()]);
    let c = init_config(None, false, None);
    assert!(c.slurm.is_none());
}
