use gourd::setlim::check_cpu_answer;
use gourd::setlim::check_memory_answer;
use gourd::setlim::AnswerCheck;
use gourd::model::config_keys_in_order;
use gourd::model::keys_in_order;
use gourd::model::Config;
use gourd::model::Program;
use gourd::model::ResourceLimits;
use gourd::setlim::get_program_from_name;
use gourd::setlim::get_setlim_programs;
use gourd::setlim::program_limits;
use gourd::setlim::query_changing_limits_for_all_programs;
use gourd::setlim::query_changing_limits_for_program;
use gourd::setlim::query_update_resource_limits;
use gourd::setlim::LimitPrompts;
use gourd::setlim::LimitQueryError;
use gourd::setlim::ProgramRef;
use gourd::setlim::SetLimitsError;

fn program() -> Program {
    Program {
        binary: "fake_path".to_string(),
        arguments: vec![],
        afterscript: None,
        resource_limits: None,
        next: vec![],
    }
}

#[test]
fn test_get_program_from_name_simple() {
    let mut config = Config::default();
    config.programs.push(("name".to_string(), program()));

    let prog = get_program_from_name(&config, &"name".to_string());
    assert!(prog.is_ok());
    assert_eq!(prog.unwrap(), ProgramRef::Regular(0));
}

#[test]
fn test_get_program_from_name_post() {
    let mut config = Config::default();
    config.postprocess_programs = Some(vec![("name".to_string(), program())]);

    let prog = get_program_from_name(&config, &"name".to_string());
    assert!(prog.is_ok());
    assert_eq!(prog.unwrap(), ProgramRef::Postprocess(0));
}

#[test]
fn test_get_program_from_name_error() {
    let config = Config::default();
    assert!(get_program_from_name(&config, &"fake_name".to_string()).is_err());
    assert_eq!(
        get_program_from_name(&config, &"fake_name".to_string()),
        Err(SetLimitsError::NoProgram("fake_name".to_string()))
    );
}

#[test]
fn test_query_changing_limits_for_program() {
    let mut config = Config::default();
    config.programs.push(("name1".to_string(), program()));

    assert!(query_changing_limits_for_program(
        &"name1".to_string(),
        false,
        &mut config,
        Some(20),
        Some(2),
        Some((45, 0))
    )
    .is_ok());

    let prog = get_program_from_name(&config, &"name1".to_string()).unwrap();
    let lims = program_limits(&config, prog).unwrap();

    assert_eq!(lims.mem_per_cpu, 20);
    assert_eq!(lims.cpus, 2);
    assert_eq!((lims.time_limit_secs, lims.time_limit_nanos), (45, 0));
}

#[test]
fn test_query_changing_limits_for_all_programs() {
    let programs = vec!["name1".to_string(), "name2".to_string()];

    let mut config = Config::default();
    config.programs.push(("name1".to_string(), program()));
    config.postprocess_programs = Some(vec![("name2".to_string(), program())]);

    let new_rss = ResourceLimits {
        mem_per_cpu: 20,
        cpus: 2,
        time_limit_secs: 45,
        time_limit_nanos: 0,
    };

    query_changing_limits_for_all_programs(&mut config, new_rss);

    for name in programs {
        let prog = get_program_from_name(&config, &name).unwrap();
        let lims = program_limits(&config, prog).unwrap();
        assert_eq!(lims.mem_per_cpu, 20);
        assert_eq!(lims.cpus, 2);
        assert_eq!(lims.time_limit_secs, 45);
    }
}

#[test]
fn test_get_setlim_programs() {
    let mut config = Config::default();
    config.programs.push(("name1".to_string(), program()));
    config.programs.push(("name2".to_string(), program()));
    config.postprocess_programs = Some(vec![("name_post".to_string(), program())]);

    let prog = get_setlim_programs(&config);
    assert_eq!(prog.len(), 3);
    assert_eq!(prog, vec!["name1".to_string(), "name2".to_string(), "name_post".to_string()]);
}

#[test]
fn query_update_resource_limits_script() {
    let limits = ResourceLimits {
        time_limit_secs: 50326,
        time_limit_nanos: 0,
        mem_per_cpu: 13,
        cpus: 32,
    };

    let result = query_update_resource_limits(&limits, true, None, None, None);
    assert!(result.is_err_and(|e| e.message().contains("No time specified")));

    let result = query_update_resource_limits(&limits, true, None, None, Some((3000, 0)));
    assert!(result.is_err_and(|e| e.message().contains("No memory specified")));

    let result = query_update_resource_limits(&limits, true, Some(283), None, Some((3000, 0)));
    assert!(result.is_err_and(|e| e.message().contains("No CPUs specified")));

    let result = query_update_resource_limits(&limits, true, Some(283), Some(38), Some((3000, 0)));
    assert!(result.is_ok_and(|(r, _)| r.time_limit_secs == 3000 && r.mem_per_cpu == 283 && r.cpus == 38));
}

#[test]
fn interactive_limits_ask_for_what_is_missing() {
    let limits = ResourceLimits { time_limit_secs: 10, time_limit_nanos: 0, mem_per_cpu: 13, cpus: 32 };
    let (r, p) = query_update_resource_limits(&limits, false, Some(64), None, None).unwrap();
    assert_eq!(r, ResourceLimits { time_limit_secs: 10, time_limit_nanos: 0, mem_per_cpu: 64, cpus: 32 });
    assert_eq!(p, LimitPrompts { time: true, mem: false, cpu: true });
    assert_eq!(
        query_update_resource_limits(&limits, true, Some(1), Some(1), None),
        Err(LimitQueryError::NoTime)
    );
}

#[test]
fn unknown_program_changes_nothing() {
    let mut config = Config::default();
    config.programs.push(("a".to_string(), program()));
    let r = query_changing_limits_for_program(&"b".to_string(), true, &mut config, None, None, None);
    assert_eq!(r, Err(SetLimitsError::NoProgram("b".to_string())));
    assert_eq!(config.programs[0].1.resource_limits, None);
}

#[test]
fn limit_answers_are_checked() {
    assert_eq!(check_memory_answer(0), AnswerCheck::Confirm);
    assert_eq!(check_memory_answer(512), AnswerCheck::Accept);
    assert_eq!(check_cpu_answer(0), AnswerCheck::Reject);
    assert_eq!(check_cpu_answer(4), AnswerCheck::Accept);
}

#[test]
fn configuration_keys_must_be_ordered() {
    let mut config = Config::default();
    config.programs.push(("alpha".to_string(), program()));
    config.programs.push(("beta".to_string(), program()));
    assert!(config_keys_in_order(&config));
    config.programs.push(("beta".to_string(), program()));
    assert!(!config_keys_in_order(&config));
    assert!(!keys_in_order(&vec![("b".to_string(), 1), ("a".to_string(), 2)]));
    assert!(keys_in_order(&vec![("a".to_string(), 1), ("ab".to_string(), 2), ("b".to_string(), 3)]));
    assert!(gourd::text::text_lt("Z", "a"));
    assert!(!gourd::text::text_lt("ab", "a"));
}
