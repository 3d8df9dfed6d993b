use shdw::aliases::Alias;
use shdw::config::{Config, Settings};
use shdw::document::from_document;
use shdw::error::ShadowError;

const DEF: &str = "/default/bin";

fn sample_config() -> Config {
    let mut config = Config::new(Settings::new("/home/u/.local/bin".to_string(), false));
    config
        .add(Alias::new(
            "ll".to_string(),
            "ls -la".to_string(),
            Some("long listing".to_string()),
            None,
        ))
        .unwrap();
    config
        .add(Alias::new(
            "gs".to_string(),
            "git status".to_string(),
            None,
            Some("/opt/bin".to_string()),
        ))
        .unwrap();
    config
}

#[test]
fn document_text_is_the_expected_shape() {
    let config = sample_config();
    let text = config.to_document();
    let expected = "[settings]\n\
                    bin_path = \"/home/u/.local/bin\"\n\
                    always_use_raw = false\n\
                    [[aliases]]\n\
                    original = \"ll\"\n\
                    replacement = \"ls -la\"\n\
                    description = \"long listing\"\n\
                    [[aliases]]\n\
                    original = \"gs\"\n\
                    replacement = \"git status\"\n\
                    bin_path = \"/opt/bin\"\n";
    assert_eq!(text, expected);
}

#[test]
fn round_trip_preserves_registry_and_settings() {
    let config = sample_config();
    let text = config.to_document();
    let loaded = from_document(&text, DEF).unwrap();
    assert_eq!(loaded.settings().bin_path(), "/home/u/.local/bin");
    assert!(!loaded.settings().always_use_raw());
    let names: Vec<&str> = loaded.aliases().values().iter().map(|a| a.name()).collect();
    assert_eq!(names, vec!["ll", "gs"]);
    let ll = loaded.aliases().find("ll").unwrap();
    assert_eq!(ll.command(), "ls -la");
    assert_eq!(ll.description(), Some("long listing"));
    assert_eq!(ll.bin_path(), &None);
    let gs = loaded.aliases().find("gs").unwrap();
    assert_eq!(gs.command(), "git status");
    assert_eq!(gs.description(), None);
    assert_eq!(gs.bin_path(), &Some("/opt/bin".to_string()));
}

#[test]
fn round_trip_of_empty_registry() {
    let config = Config::new(Settings::new("/b".to_string(), true));
    let loaded = from_document(&config.to_document(), DEF).unwrap();
    assert_eq!(loaded.settings().bin_path(), "/b");
    assert!(loaded.settings().always_use_raw());
    assert!(loaded.aliases().is_empty());
}

#[test]
fn newline_bearing_fields_are_escaped_and_round_trip() {
    let mut config = Config::new(Settings::new("/b".to_string(), false));
    config
        .add(Alias::new(
            "nl".to_string(),
            "printf a\nb\\c".to_string(),
            Some("line1\nline2".to_string()),
            None,
        ))
        .unwrap();
    let text = config.to_document();
    assert!(text.contains("replacement = \"printf a\\nb\\\\c\""));
    let loaded = from_document(&text, DEF).unwrap();
    let a = loaded.aliases().find("nl").unwrap();
    assert_eq!(a.command(), "printf a\nb\\c");
    assert_eq!(a.description(), Some("line1\nline2"));
}

#[test]
fn missing_trailing_newline_is_tolerated() {
    let config = sample_config();
    let mut text = config.to_document();
    assert!(text.ends_with('\n'));
    text.pop();
    let loaded = from_document(&text, DEF).unwrap();
    assert_eq!(loaded.aliases().values().len(), 2);
    assert_eq!(
        loaded.aliases().find("gs").unwrap().bin_path(),
        &Some("/opt/bin".to_string())
    );
}

#[test]
fn absent_fields_take_documented_defaults() {
    // A settings-only document: the absent directory falls back to the given
    // default and the raw-mode default is false.
    let loaded = from_document("[settings]\n", DEF).unwrap();
    assert_eq!(loaded.settings().bin_path(), DEF);
    assert!(!loaded.settings().always_use_raw());
    assert!(loaded.aliases().is_empty());

    let loaded = from_document("[settings]\nbin_path = \"/b\"\n", DEF).unwrap();
    assert_eq!(loaded.settings().bin_path(), "/b");
    assert!(!loaded.settings().always_use_raw());

    // An empty document loads as all defaults.
    let loaded = from_document("", DEF).unwrap();
    assert_eq!(loaded.settings().bin_path(), DEF);
    assert!(loaded.aliases().is_empty());
}

#[test]
fn unknown_extra_lines_are_tolerated() {
    let text = "version = 1\n\
                # a comment\n\
                [settings]\n\
                colour = \"green\"\n\
                bin_path = \"/b\"\n\
                always_use_raw = true\n\
                [other_table]\n\
                [[aliases]]\n\
                priority = \"high\"\n\
                original = \"ll\"\n\
                \n\
                replacement = \"ls -la\"\n";
    let loaded = from_document(text, DEF).unwrap();
    assert_eq!(loaded.settings().bin_path(), "/b");
    assert!(loaded.settings().always_use_raw());
    let a = loaded.aliases().find("ll").unwrap();
    assert_eq!(a.command(), "ls -la");
}

#[test]
fn alias_fields_load_in_any_order() {
    let text = "[settings]\n\
                bin_path = \"/b\"\n\
                [[aliases]]\n\
                bin_path = \"/opt/bin\"\n\
                description = \"d\"\n\
                replacement = \"ls\"\n\
                original = \"ll\"\n";
    let loaded = from_document(text, DEF).unwrap();
    let a = loaded.aliases().find("ll").unwrap();
    assert_eq!(a.command(), "ls");
    assert_eq!(a.description(), Some("d"));
    assert_eq!(a.bin_path(), &Some("/opt/bin".to_string()));
}

#[test]
fn duplicate_originals_are_rejected() {
    let text = "[settings]\n\
                bin_path = \"/b\"\n\
                [[aliases]]\n\
                original = \"ll\"\n\
                replacement = \"ls\"\n\
                [[aliases]]\n\
                original = \"ll\"\n\
                replacement = \"cat\"\n";
    assert!(matches!(
        from_document(text, DEF),
        Err(ShadowError::ConfigError(_))
    ));
}

#[test]
fn malformed_documents_are_config_errors() {
    // A line that is no header, no comment and no assignment.
    assert!(matches!(
        from_document("not a document at all", DEF),
        Err(ShadowError::ConfigError(_))
    ));
    // A known key with an ill-formed value.
    assert!(matches!(
        from_document("[settings]\nbin_path = unquoted\n", DEF),
        Err(ShadowError::ConfigError(_))
    ));
    assert!(matches!(
        from_document("[settings]\nalways_use_raw = banana\n", DEF),
        Err(ShadowError::ConfigError(_))
    ));
    // A dangling escape in a value.
    assert!(matches!(
        from_document("[settings]\nbin_path = \"a\\z\"\n", DEF),
        Err(ShadowError::ConfigError(_))
    ));
    // An alias entry without a name or replacement.
    assert!(matches!(
        from_document("[settings]\n[[aliases]]\n", DEF),
        Err(ShadowError::ConfigError(_))
    ));
    // An alias entry with an empty name.
    assert!(matches!(
        from_document(
            "[settings]\n[[aliases]]\noriginal = \"\"\nreplacement = \"ls\"\n",
            DEF
        ),
        Err(ShadowError::ConfigError(_))
    ));
    let err = from_document("junk", DEF).unwrap_err();
    assert_eq!(err.exit_code().code(), 2);
}
