use shdw::cli::ShadowedArgs;

fn strings(xs: &[&str]) -> Vec<String> {
    xs.iter().map(|s| s.to_string()).collect()
}

#[test]
fn test_normal_args() {
    let args = ShadowedArgs::new(vec!["arg1".to_string(), "arg2".to_string()]);
    assert_eq!(args.args(), &vec!["arg1".to_string(), "arg2".to_string()]);
    assert!(!args.is_raw());
}

#[test]
fn test_raw_long_flag() {
    let args = ShadowedArgs::new(vec!["--raw".to_string(), "arg1".to_string()]);
    assert_eq!(args.args(), &vec!["arg1".to_string()]);
    assert!(args.is_raw());
}

#[test]
fn test_raw_short_flag() {
    let args = ShadowedArgs::new(vec!["-R".to_string(), "arg1".to_string()]);
    assert_eq!(args.args(), &vec!["arg1".to_string()]);
    assert!(args.is_raw());
}

#[test]
fn test_raw_flag_middle() {
    let args = ShadowedArgs::new(vec![
        "arg1".to_string(),
        "--raw".to_string(),
        "arg2".to_string(),
    ]);
    assert_eq!(args.args(), &vec!["arg1".to_string(), "arg2".to_string()]);
    assert!(args.is_raw());
}

#[test]
fn test_multiple_raw_flags() {
    let args = ShadowedArgs::new(vec![
        "--raw".to_string(),
        "-R".to_string(),
        "arg1".to_string(),
    ]);
    assert_eq!(args.args(), &vec!["arg1".to_string()]);
    assert!(args.is_raw());
}

#[test]
fn test_empty_args() {
    let args = ShadowedArgs::new(vec![]);
    assert!(args.args().is_empty());
    assert!(!args.is_raw());
}

#[test]
fn test_only_raw_flag() {
    let args = ShadowedArgs::new(vec!["--raw".to_string()]);
    assert!(args.args().is_empty());
    assert!(args.is_raw());
}

#[test]
fn test_raw_flags_anywhere() {
    let args = ShadowedArgs::new(strings(&["--raw", "foo", "-R", "bar"]));
    assert_eq!(args.args(), &strings(&["foo", "bar"]));
    assert!(args.is_raw());
}

#[test]
fn test_flag_like_but_different_args_kept() {
    let args = ShadowedArgs::new(strings(&["--rawer", "-r", "--R", "x"]));
    assert_eq!(args.args(), &strings(&["--rawer", "-r", "--R", "x"]));
    assert!(!args.is_raw());
}
