use shdw::aliases::Alias;
use shdw::config::{Config, Settings};
use shdw::error::{ExitCode, ShadowError};

fn fresh_config() -> Config {
    Config::new(Settings::new("/home/u/.local/bin".to_string(), false))
}

fn ll_alias() -> Alias {
    Alias::new("ll".to_string(), "ls -la".to_string(), None, None)
}

#[test]
fn add_then_find_returns_exactly_what_was_added() {
    let mut config = fresh_config();
    let alias = Alias::new(
        "ll".to_string(),
        "ls -la".to_string(),
        Some("long listing".to_string()),
        Some("/opt/bin".to_string()),
    );
    assert!(config.add(alias).is_ok());
    let found = config.aliases().find("ll").unwrap();
    assert_eq!(found.name(), "ll");
    assert_eq!(found.command(), "ls -la");
    assert_eq!(found.description(), Some("long listing"));
    assert_eq!(found.bin_path(), &Some("/opt/bin".to_string()));
}

#[test]
fn add_is_not_idempotent() {
    let mut config = fresh_config();
    assert!(config.add(ll_alias()).is_ok());
    let second = config.add(Alias::new(
        "ll".to_string(),
        "ls -lah".to_string(),
        None,
        None,
    ));
    match second {
        Err(ShadowError::DuplicateCommand(name)) => {
            assert_eq!(name, "ll");
        }
        _ => panic!("second add must report a duplicate"),
    }
    assert_eq!(config.aliases().values().len(), 1);
    assert_eq!(config.aliases().find("ll").unwrap().command(), "ls -la");
}

#[test]
fn duplicate_maps_to_exit_code_129() {
    let mut config = fresh_config();
    config.add(ll_alias()).unwrap();
    let err = config.add(ll_alias()).unwrap_err();
    assert_eq!(err.exit_code(), ExitCode::DuplicateCommand);
    assert_eq!(err.exit_code().code(), 129);
}

#[test]
fn remove_then_find_reports_alias_not_found() {
    let mut config = fresh_config();
    config.add(ll_alias()).unwrap();
    assert!(config.remove("ll").is_ok());
    match config.aliases().find("ll") {
        Err(ShadowError::AliasNotFound(name)) => assert_eq!(name, "ll"),
        _ => panic!("find after remove must fail"),
    }
    assert!(!config.aliases().contains("ll"));
}

#[test]
fn remove_absent_reports_alias_not_found() {
    let mut config = fresh_config();
    let err = config.remove("nope").unwrap_err();
    assert!(matches!(err, ShadowError::AliasNotFound(_)));
    assert_eq!(err.exit_code().code(), 127);
}

#[test]
fn contains_follows_membership() {
    let mut config = fresh_config();
    assert!(!config.aliases().contains("ll"));
    config.add(ll_alias()).unwrap();
    assert!(config.aliases().contains("ll"));
    assert!(config.aliases().is_empty() == false);
}

#[test]
fn insertion_order_is_kept() {
    let mut config = fresh_config();
    config
        .add(Alias::new("zz".to_string(), "ls".to_string(), None, None))
        .unwrap();
    config
        .add(Alias::new("aa".to_string(), "cat".to_string(), None, None))
        .unwrap();
    let names: Vec<&str> = config.aliases().values().iter().map(|a| a.name()).collect();
    assert_eq!(names, vec!["zz", "aa"]);
}

#[test]
fn error_messages_name_their_subject() {
    let err = ShadowError::AliasNotFound("ll".to_string());
    assert_eq!(err.message(), "No alias found for command: ll");
    let err = ShadowError::DuplicateCommand("ll".to_string());
    assert_eq!(err.message(), "Command already shadowed: ll");
    let err = ShadowError::InvalidReplacement("  ".to_string());
    assert_eq!(err.message(), "Invalid replacement command:   ");
}

#[test]
fn exit_codes_are_the_stable_contract() {
    assert_eq!(ExitCode::Success.code(), 0);
    assert_eq!(ExitCode::GeneralError.code(), 1);
    assert_eq!(ExitCode::ConfigError.code(), 2);
    assert_eq!(ExitCode::InvalidArguments.code(), 64);
    assert_eq!(ExitCode::CommandNotFound.code(), 127);
    assert_eq!(ExitCode::CommandFailed.code(), 128);
    assert_eq!(ExitCode::DuplicateCommand.code(), 129);
    assert_eq!(
        ShadowError::ConfigError("x".to_string()).exit_code().code(),
        2
    );
    assert_eq!(
        ShadowError::CommandExecutionError("x".to_string())
            .exit_code()
            .code(),
        128
    );
    assert_eq!(
        ShadowError::InvalidReplacement("x".to_string())
            .exit_code()
            .code(),
        64
    );
}
