use shdw::aliases::Alias;
use shdw::cli::{
    exit_code_for, invocation_mode, plan_shadowed, program_name, InvocationMode, ProcessOutcome,
    ShadowedArgs,
};
use shdw::config::{Config, Settings};
use shdw::error::{ExitCode, ShadowError};

fn config_with_ll() -> Config {
    let mut config = Config::new(Settings::new("/home/u/.local/bin".to_string(), false));
    config
        .add(Alias::new("ll".to_string(), "ls -la".to_string(), None, None))
        .unwrap();
    config
}

#[test]
fn shadow_invocation_runs_replacement_with_forwarded_args() {
    let config = config_with_ll();
    let args = ShadowedArgs::new(vec!["/tmp".to_string()]);
    let inv = plan_shadowed(&config, "ll", &args).unwrap();
    assert_eq!(inv.program(), "ls");
    assert_eq!(inv.args(), &vec!["-la".to_string(), "/tmp".to_string()]);
    // The child's status decides the mapped exit code.
    assert_eq!(exit_code_for(&ProcessOutcome::Exited(0)), ExitCode::Success);
    assert_eq!(
        exit_code_for(&ProcessOutcome::Exited(2)),
        ExitCode::CommandFailed
    );
}

#[test]
fn raw_invocation_runs_the_literal_original() {
    let config = config_with_ll();
    let args = ShadowedArgs::new(vec!["--raw".to_string(), "x".to_string()]);
    assert!(args.is_raw());
    let inv = plan_shadowed(&config, "ll", &args).unwrap();
    assert_eq!(inv.program(), "ll");
    assert_eq!(inv.args(), &vec!["x".to_string()]);
    // If no such executable exists the spawn fails and maps to CommandFailed.
    assert_eq!(
        exit_code_for(&ProcessOutcome::SpawnFailed("no such file".to_string())),
        ExitCode::CommandFailed
    );
}

#[test]
fn unknown_alias_is_terminal() {
    let config = config_with_ll();
    let args = ShadowedArgs::new(vec![]);
    let err = plan_shadowed(&config, "gone", &args).unwrap_err();
    match err {
        ShadowError::AliasNotFound(name) => assert_eq!(name, "gone"),
        _ => panic!("lookup of an unknown alias must fail with AliasNotFound"),
    }
}

#[test]
fn whitespace_only_replacement_is_invalid() {
    let mut config = Config::new(Settings::new("/bin".to_string(), false));
    config
        .add(Alias::new("bad".to_string(), " \t ".to_string(), None, None))
        .unwrap();
    let args = ShadowedArgs::new(vec![]);
    let err = plan_shadowed(&config, "bad", &args).unwrap_err();
    assert!(matches!(err, ShadowError::InvalidReplacement(_)));
    assert_eq!(err.exit_code().code(), 64);
}

#[test]
fn raw_mode_bypasses_replacement_validation() {
    let mut config = Config::new(Settings::new("/bin".to_string(), false));
    config
        .add(Alias::new("bad".to_string(), "".to_string(), None, None))
        .unwrap();
    let args = ShadowedArgs::new(vec!["-R".to_string()]);
    let inv = plan_shadowed(&config, "bad", &args).unwrap();
    assert_eq!(inv.program(), "bad");
}

#[test]
fn signal_termination_maps_to_command_failed() {
    assert_eq!(
        exit_code_for(&ProcessOutcome::Terminated),
        ExitCode::CommandFailed
    );
}

#[test]
fn program_name_is_the_path_basename() {
    assert_eq!(program_name("/usr/local/bin/ll"), "ll");
    assert_eq!(program_name("ll"), "ll");
    assert_eq!(program_name("a/b/"), "");
    assert_eq!(program_name(""), "");
}

#[test]
fn mode_is_decided_by_the_program_name() {
    assert!(matches!(invocation_mode("shdw"), InvocationMode::Admin));
    match invocation_mode("ll") {
        InvocationMode::Shadowed(name) => assert_eq!(name, "ll"),
        _ => panic!("a foreign name must select shadow mode"),
    }
}
