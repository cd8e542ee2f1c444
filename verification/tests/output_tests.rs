use yek::{resolve_output, temporary_dir_name, IgnoreConfig, OutputTarget, YekConfig};

fn config(output_dir: Option<&str>) -> YekConfig {
    YekConfig {
        ignore_patterns: IgnoreConfig { patterns: Vec::new() },
        priority_rules: Vec::new(),
        binary_extensions: Vec::new(),
        output_dir: output_dir.map(|d| d.to_string()),
    }
}

#[test]
fn streaming_goes_before_any_directory() {
    let named = config(Some("out"));
    assert!(matches!(resolve_output(true, true, Some(&named)), OutputTarget::Stream));
    assert!(matches!(resolve_output(true, false, Some(&named)), OutputTarget::Stream));
    assert!(matches!(resolve_output(true, false, None), OutputTarget::Stream));
}

#[test]
fn requested_directory_goes_before_the_configured_one() {
    let named = config(Some("out"));
    assert!(matches!(resolve_output(false, true, Some(&named)), OutputTarget::Requested));
    assert!(matches!(resolve_output(false, true, None), OutputTarget::Requested));
}

#[test]
fn configured_directory_is_used_when_none_is_requested() {
    let named = config(Some("chunks/here"));
    match resolve_output(false, false, Some(&named)) {
        OutputTarget::Configured(dir) => assert_eq!(dir, "chunks/here"),
        other => panic!("{:?}", other),
    }
}

#[test]
fn temporary_directory_is_the_last_resort() {
    let unnamed = config(None);
    assert!(matches!(resolve_output(false, false, Some(&unnamed)), OutputTarget::Temporary));
    assert!(matches!(resolve_output(false, false, None), OutputTarget::Temporary));
}

#[test]
fn temporary_directory_is_named_by_the_checksum() {
    assert_eq!(temporary_dir_name("e3b0c442"), "yek-e3b0c442");
    assert_eq!(temporary_dir_name(""), "yek-");
    assert_eq!(temporary_dir_name(&yek::repo_checksum(&Vec::new(), 0)), "yek-e3b0c442");
}
