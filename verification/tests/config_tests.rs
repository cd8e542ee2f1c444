use regex::Regex;
use yek::{
    checked_config, validate_config, ConfigError, IgnoreConfig, OutputDirStatus, PriorityRule,
    YekConfig,
};

fn pairs(errors: &[ConfigError]) -> Vec<(String, String)> {
    errors.iter().map(|e| (e.field.clone(), e.message.clone())).collect()
}

fn reason(pattern: &str) -> String {
    Regex::new(pattern).unwrap_err().to_string()
}

fn empty() -> YekConfig {
    YekConfig {
        ignore_patterns: IgnoreConfig { patterns: Vec::new() },
        priority_rules: Vec::new(),
        binary_extensions: Vec::new(),
        output_dir: None,
    }
}

#[test]
fn default_configuration() {
    let config = YekConfig::default();
    assert!(config.ignore_patterns.patterns.is_empty());
    assert!(config.binary_extensions.is_empty());
    assert!(config.output_dir.is_none());
    assert_eq!(config.priority_rules.len(), 1);
    assert_eq!(config.priority_rules[0].score, 1);
    assert_eq!(config.priority_rules[0].patterns, vec![".*".to_string()]);
    assert!(IgnoreConfig::default().patterns.is_empty());
}

#[test]
fn default_configuration_is_valid() {
    assert!(validate_config(&YekConfig::default(), &OutputDirStatus::Usable).is_empty());
    assert!(validate_config(&empty(), &OutputDirStatus::NotADirectory).is_empty());
}

#[test]
fn invalid_ignore_pattern_is_reported() {
    let mut config = empty();
    config.ignore_patterns.patterns =
        vec!["ok".to_string(), "(".to_string(), "[a-".to_string()];
    let errors = validate_config(&config, &OutputDirStatus::Usable);
    assert_eq!(
        pairs(&errors),
        vec![
            (
                "ignore_patterns".to_string(),
                format!("Invalid regex pattern '(': {}", reason("(")),
            ),
            (
                "ignore_patterns".to_string(),
                format!("Invalid regex pattern '[a-': {}", reason("[a-")),
            ),
        ]
    );
}

#[test]
fn score_out_of_range_is_reported() {
    let mut config = empty();
    config.priority_rules = vec![
        PriorityRule { score: 0, patterns: vec!["a".to_string()] },
        PriorityRule { score: 1000, patterns: Vec::new() },
        PriorityRule { score: 1001, patterns: vec!["b".to_string()] },
        PriorityRule { score: -5, patterns: vec!["(".to_string()] },
        PriorityRule { score: i32::MIN, patterns: Vec::new() },
        PriorityRule { score: i32::MAX, patterns: Vec::new() },
    ];
    let errors = validate_config(&config, &OutputDirStatus::Usable);
    assert_eq!(
        pairs(&errors),
        vec![
            (
                "priority_rules".to_string(),
                "Priority score 1001 must be between 0 and 1000".to_string(),
            ),
            (
                "priority_rules".to_string(),
                "Priority score -5 must be between 0 and 1000".to_string(),
            ),
            (
                "priority_rules".to_string(),
                format!("Invalid regex pattern '(': {}", reason("(")),
            ),
            (
                "priority_rules".to_string(),
                "Priority score -2147483648 must be between 0 and 1000".to_string(),
            ),
            (
                "priority_rules".to_string(),
                "Priority score 2147483647 must be between 0 and 1000".to_string(),
            ),
        ]
    );
}

#[test]
fn unusable_output_directory_is_reported() {
    let mut config = empty();
    config.output_dir = Some("/tmp/out".to_string());
    assert!(validate_config(&config, &OutputDirStatus::Usable).is_empty());
    assert_eq!(
        pairs(&validate_config(&config, &OutputDirStatus::NotADirectory)),
        vec![(
            "output_dir".to_string(),
            "Output path '/tmp/out' exists but is not a directory".to_string(),
        )]
    );
    assert_eq!(
        pairs(&validate_config(
            &config,
            &OutputDirStatus::CannotCreate("Permission denied (os error 13)".to_string()),
        )),
        vec![(
            "output_dir".to_string(),
            "Cannot create output directory '/tmp/out': Permission denied (os error 13)"
                .to_string(),
        )]
    );
}

#[test]
fn errors_come_in_the_order_of_the_fields() {
    let mut config = empty();
    config.ignore_patterns.patterns = vec!["(".to_string()];
    config.priority_rules = vec![PriorityRule { score: 2000, patterns: vec!["[".to_string()] }];
    config.output_dir = Some("out".to_string());
    let errors = validate_config(&config, &OutputDirStatus::NotADirectory);
    let fields: Vec<String> = errors.iter().map(|e| e.field.clone()).collect();
    assert_eq!(fields, vec!["ignore_patterns", "priority_rules", "priority_rules", "output_dir"]);
}

#[test]
fn configuration_with_an_error_is_not_used() {
    let mut bad = empty();
    bad.ignore_patterns.patterns = vec!["(".to_string()];
    match checked_config(bad, &OutputDirStatus::Usable) {
        Ok(_) => panic!("accepted"),
        Err(errors) => assert_eq!(errors.len(), 1),
    }
    let mut good = empty();
    good.ignore_patterns.patterns = vec![r"\.md$".to_string()];
    good.binary_extensions = vec![".dat".to_string()];
    match checked_config(good, &OutputDirStatus::Usable) {
        Ok(config) => {
            assert_eq!(config.ignore_patterns.patterns, vec![r"\.md$".to_string()]);
            assert_eq!(config.binary_extensions, vec![".dat".to_string()]);
        },
        Err(_) => panic!("refused"),
    }
}
