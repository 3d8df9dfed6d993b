use shdw::aliases::Alias;
use shdw::commands::{Add, List};
use shdw::config::{Config, Settings};
use shdw::error::ShadowError;
use shdw::symlink::{create_action, removal_needed, LinkAction, LinkState};

fn settings() -> Settings {
    Settings::new("/home/u/.local/bin".to_string(), false)
}

#[test]
fn empty_registry_lists_the_placeholder_line() {
    let config = Config::new(settings());
    let lines = List.render(&config);
    assert_eq!(lines, vec!["No aliases configured".to_string()]);
}

#[test]
fn listing_is_sorted_by_name_at_presentation_time() {
    let mut config = Config::new(settings());
    config
        .add(Alias::new(
            "zz".to_string(),
            "ls".to_string(),
            Some("last".to_string()),
            None,
        ))
        .unwrap();
    config
        .add(Alias::new(
            "aa".to_string(),
            "cat".to_string(),
            None,
            Some("/opt/bin".to_string()),
        ))
        .unwrap();
    config
        .add(Alias::new("mm".to_string(), "less".to_string(), None, None))
        .unwrap();
    let lines = List.render(&config);
    assert_eq!(
        lines,
        vec![
            "aa -> cat [in /opt/bin]".to_string(),
            "mm -> less".to_string(),
            "zz -> ls (last)".to_string(),
        ]
    );
}

#[test]
fn add_request_builds_the_alias_and_normalizes_the_override() {
    let add = Add {
        name: "ll".to_string(),
        command: "ls -la".to_string(),
        description: None,
        bin_path: Some("/home/u/.local/bin".to_string()),
    };
    let alias = add.to_alias(&settings()).unwrap();
    assert_eq!(alias.name(), "ll");
    assert_eq!(alias.command(), "ls -la");
    // An override equal to the global default is dropped.
    assert_eq!(alias.bin_path(), &None);

    let add = Add {
        name: "ll".to_string(),
        command: "ls -la".to_string(),
        description: None,
        bin_path: Some("/opt/bin".to_string()),
    };
    let alias = add.to_alias(&settings()).unwrap();
    assert_eq!(alias.bin_path(), &Some("/opt/bin".to_string()));
}

#[test]
fn add_request_rejects_bad_input_before_anything_happens() {
    let add = Add {
        name: "".to_string(),
        command: "ls".to_string(),
        description: None,
        bin_path: None,
    };
    assert!(matches!(
        add.to_alias(&settings()),
        Err(ShadowError::ConfigError(_))
    ));
    let add = Add {
        name: "ll".to_string(),
        command: " \t ".to_string(),
        description: None,
        bin_path: None,
    };
    assert!(matches!(
        add.to_alias(&settings()),
        Err(ShadowError::InvalidReplacement(_))
    ));
}

#[test]
fn effective_bin_path_prefers_the_override() {
    let s = settings();
    let plain = Alias::new("a".to_string(), "b".to_string(), None, None);
    assert_eq!(plain.effective_bin_path(&s), "/home/u/.local/bin");
    let overridden = Alias::new(
        "a".to_string(),
        "b".to_string(),
        None,
        Some("/opt/bin".to_string()),
    );
    assert_eq!(overridden.effective_bin_path(&s), "/opt/bin");
    assert_eq!(overridden.link_path("/opt/bin"), "/opt/bin/a");
}

#[test]
fn symlink_creation_is_idempotent() {
    // First creation, from any observed state, leaves a link at this
    // executable; the second finds it and touches nothing.
    for state in [LinkState::Absent, LinkState::PointsAtSelf, LinkState::Other] {
        let first = create_action(state);
        let after = match first {
            LinkAction::KeepExisting => state,
            LinkAction::CreateLink | LinkAction::ReplaceLink => LinkState::PointsAtSelf,
        };
        assert_eq!(after, LinkState::PointsAtSelf);
        assert_eq!(create_action(after), LinkAction::KeepExisting);
    }
    assert_eq!(create_action(LinkState::Absent), LinkAction::CreateLink);
    assert_eq!(create_action(LinkState::Other), LinkAction::ReplaceLink);
}

#[test]
fn listing_orders_a_prefix_before_its_extension() {
    let mut config = Config::new(settings());
    config
        .add(Alias::new("ab".to_string(), "x".to_string(), None, None))
        .unwrap();
    config
        .add(Alias::new("a".to_string(), "y".to_string(), None, None))
        .unwrap();
    let lines = List.render(&config);
    assert_eq!(lines, vec!["a -> y".to_string(), "ab -> x".to_string()]);
}

#[test]
fn symlink_removal_tolerates_absence() {
    assert!(!removal_needed(LinkState::Absent));
    assert!(removal_needed(LinkState::PointsAtSelf));
    assert!(removal_needed(LinkState::Other));
}
