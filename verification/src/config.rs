//! The configuration that a user may supply, and its validation.

use crate::pattern::{compile, error_text, regex_error_text, regex_new};
use crate::text::{decimal, push_decimal};
use vstd::prelude::*;
use vstd::string::StringExecFns;

verus! {

/// Patterns of paths to leave out, added to the built-in ones.
#[derive(Debug, Clone)]
pub struct IgnoreConfig {
    pub patterns: Vec<String>,
}

/// A priority tier as the user writes it: a score and the patterns of the
/// paths that get it.
#[derive(Debug, Clone)]
pub struct PriorityRule {
    pub score: i32,
    pub patterns: Vec<String>,
}

/// What a user may configure. Every part may be left empty.
#[derive(Debug, Clone)]
pub struct YekConfig {
    pub ignore_patterns: IgnoreConfig,
    pub priority_rules: Vec<PriorityRule>,
    pub binary_extensions: Vec<String>,
    pub output_dir: Option<String>,
}

/// A fault found in a configuration: the field and what is wrong with it.
#[derive(Debug)]
pub struct ConfigError {
    pub field: String,
    pub message: String,
}

/// What the caller found where the configured output directory should be.
#[derive(Debug)]
pub enum OutputDirStatus {
    /// It is a directory, or it is absent and can be created.
    Usable,
    /// Something that is no directory stands in its place.
    NotADirectory,
    /// It is absent and cannot be created; the text says why.
    CannotCreate(String),
}

/// The texts of a list as plain values.
pub open spec fn strings_view(strings: Seq<String>) -> Seq<Seq<char>> {
    Seq::new(strings.len(), |i: int| strings[i]@)
}

/// A priority rule as plain values.
pub struct RuleView {
    pub score: int,
    pub patterns: Seq<Seq<char>>,
}

/// A priority rule as plain values.
pub open spec fn rule_view(rule: PriorityRule) -> RuleView {
    RuleView { score: rule.score as int, patterns: strings_view(rule.patterns@) }
}

/// The priority rules of a list as plain values.
pub open spec fn rules_view(rules: Seq<PriorityRule>) -> Seq<RuleView> {
    Seq::new(rules.len(), |i: int| rule_view(rules[i]))
}

/// A configuration error as plain values.
pub struct ErrorView {
    pub field: Seq<char>,
    pub message: Seq<char>,
}

impl View for ConfigError {
    type V = ErrorView;

    open spec fn view(&self) -> ErrorView {
        ErrorView { field: self.field@, message: self.message@ }
    }
}

/// The errors of a list as plain values.
pub open spec fn errors_view(errors: Seq<ConfigError>) -> Seq<ErrorView> {
    Seq::new(errors.len(), |i: int| errors[i]@)
}

impl Default for IgnoreConfig {
    /// No patterns.
    fn default() -> (c: IgnoreConfig)
        ensures
            c.patterns@.len() == 0,
    {
        IgnoreConfig { patterns: Vec::new() }
    }
}

impl Default for YekConfig {
    /// No ignore patterns, no binary extensions, no output directory, and one
    /// priority rule that gives every path the score 1.
    fn default() -> (c: YekConfig)
        ensures
            c.ignore_patterns.patterns@.len() == 0,
            c.binary_extensions@.len() == 0,
            c.output_dir is None,
            c.priority_rules@.len() == 1,
            c.priority_rules@[0].score == 1,
            c.priority_rules@[0].patterns@.len() == 1,
            c.priority_rules@[0].patterns@[0]@ == ".*"@,
    {
        let mut patterns: Vec<String> = Vec::new();
        patterns.push(String::from_str(".*"));
        let mut priority_rules: Vec<PriorityRule> = Vec::new();
        priority_rules.push(PriorityRule { score: 1, patterns });
        YekConfig {
            ignore_patterns: IgnoreConfig { patterns: Vec::new() },
            priority_rules,
            binary_extensions: Vec::new(),
            output_dir: None,
        }
    }
}

/// The lowest score that a priority rule may have.
pub const MIN_SCORE: i32 = 0;

/// The highest score that a priority rule may have.
pub const MAX_SCORE: i32 = 1000;

/// What is said of a pattern that does not compile.
pub open spec fn invalid_pattern_message(pattern: Seq<char>, reason: Seq<char>) -> Seq<char> {
    "Invalid regex pattern '"@ + pattern + "': "@ + reason
}

/// What is said of a score that is out of range.
pub open spec fn score_message(score: int) -> Seq<char> {
    "Priority score "@ + decimal(score) + " must be between 0 and 1000"@
}

/// What is said of an output path that is no directory.
pub open spec fn not_a_directory_message(dir: Seq<char>) -> Seq<char> {
    "Output path '"@ + dir + "' exists but is not a directory"@
}

/// What is said of an output directory that cannot be created.
pub open spec fn cannot_create_message(dir: Seq<char>, reason: Seq<char>) -> Seq<char> {
    "Cannot create output directory '"@ + dir + "': "@ + reason
}

/// One error under `field` for each pattern that does not compile, in the
/// order of the patterns.
pub open spec fn pattern_errors(field: Seq<char>, patterns: Seq<Seq<char>>) -> Seq<ErrorView>
    decreases patterns.len(),
{
    if patterns.len() == 0 {
        Seq::empty()
    } else {
        let front = pattern_errors(field, patterns.drop_last());
        match regex_new(patterns.last()) {
            Ok(_) => front,
            Err(e) => front.push(
                ErrorView {
                    field,
                    message: invalid_pattern_message(patterns.last(), regex_error_text(e)),
                },
            ),
        }
    }
}

/// Whether a score is one that a rule may have.
pub open spec fn score_in_range(score: int) -> bool {
    MIN_SCORE <= score <= MAX_SCORE
}

/// The errors of one priority rule: its score where it is out of range, then
/// its patterns that do not compile.
pub open spec fn rule_errors(rule: RuleView) -> Seq<ErrorView> {
    let for_score = if score_in_range(rule.score) {
        Seq::empty()
    } else {
        seq![ErrorView { field: "priority_rules"@, message: score_message(rule.score) }]
    };
    for_score + pattern_errors("priority_rules"@, rule.patterns)
}

/// The errors of the priority rules, rule by rule.
pub open spec fn rules_errors(rules: Seq<RuleView>) -> Seq<ErrorView>
    decreases rules.len(),
{
    if rules.len() == 0 {
        Seq::empty()
    } else {
        rules_errors(rules.drop_last()) + rule_errors(rules.last())
    }
}

/// The error of the output directory, where one is configured and cannot be
/// used.
pub open spec fn output_dir_errors(dir: Option<String>, status: OutputDirStatus) -> Seq<ErrorView> {
    match (dir, status) {
        (Some(d), OutputDirStatus::NotADirectory) => seq![
            ErrorView { field: "output_dir"@, message: not_a_directory_message(d@) },
        ],
        (Some(d), OutputDirStatus::CannotCreate(reason)) => seq![
            ErrorView { field: "output_dir"@, message: cannot_create_message(d@, reason@) },
        ],
        _ => Seq::empty(),
    }
}

/// All errors of a configuration: those of the ignore patterns, of the
/// priority rules and of the output directory, in this order.
pub open spec fn config_errors(config: YekConfig, status: OutputDirStatus) -> Seq<ErrorView> {
    pattern_errors("ignore_patterns"@, strings_view(config.ignore_patterns.patterns@))
        + rules_errors(rules_view(config.priority_rules@)) + output_dir_errors(
        config.output_dir,
        status,
    )
}

/// Appends the errors of the patterns of one field.
fn push_pattern_errors(errors: &mut Vec<ConfigError>, field: &str, patterns: &Vec<String>)
    ensures
        errors_view(final(errors)@) == errors_view(old(errors)@) + pattern_errors(
            field@,
            strings_view(patterns@),
        ),
{
    let ghost before = errors_view(errors@);
    let ghost sources = strings_view(patterns@);
    let mut i: usize = 0;
    assert(errors_view(errors@) =~= before + pattern_errors(field@, sources.take(0)));
    while i < patterns.len()
        invariant
            i <= patterns.len(),
            sources == strings_view(patterns@),
            errors_view(errors@) == before + pattern_errors(field@, sources.take(i as int)),
        decreases patterns.len() - i,
    {
        proof {
            assert(sources.take(i + 1).drop_last() =~= sources.take(i as int));
            assert(sources.take(i + 1).last() == patterns@[i as int]@);
        }
        let pattern = patterns[i].as_str();
        match compile(pattern) {
            Ok(_) => {},
            Err(e) => {
                let reason = error_text(&e);
                let mut message = String::from_str("Invalid regex pattern '");
                message.append(pattern);
                message.append("': ");
                message.append(reason.as_str());
                let ghost held = errors_view(errors@);
                let error = ConfigError { field: String::from_str(field), message };
                assert(error@.message =~= invalid_pattern_message(pattern@, regex_error_text(e)));
                errors.push(error);
                assert(errors_view(errors@) =~= held.push(error@));
            },
        }
        i = i + 1;
    }
    assert(sources.take(i as int) =~= sources);
}

/// Appends the errors of one priority rule.
fn push_rule_errors(errors: &mut Vec<ConfigError>, rule: &PriorityRule)
    ensures
        errors_view(final(errors)@) == errors_view(old(errors)@) + rule_errors(rule_view(*rule)),
{
    let ghost before = errors_view(errors@);
    if rule.score < MIN_SCORE || rule.score > MAX_SCORE {
        let mut message = String::from_str("Priority score ");
        push_decimal(&mut message, rule.score as i128);
        message.append(" must be between 0 and 1000");
        let error = ConfigError { field: String::from_str("priority_rules"), message };
        assert(error@.message =~= score_message(rule.score as int));
        errors.push(error);
        assert(errors_view(errors@) =~= before.push(error@));
    }
    push_pattern_errors(errors, "priority_rules", &rule.patterns);
    assert(errors_view(errors@) =~= before + rule_errors(rule_view(*rule)));
}

/// Validates a configuration and returns the errors found: each pattern that
/// does not compile, each score outside 0 to 1000, and an output directory
/// that cannot be used.
pub fn validate_config(config: &YekConfig, output_dir: &OutputDirStatus) -> (errors: Vec<
    ConfigError,
>)
    ensures
        errors_view(errors@) == config_errors(*config, *output_dir),
{
    let mut errors: Vec<ConfigError> = Vec::new();
    push_pattern_errors(&mut errors, "ignore_patterns", &config.ignore_patterns.patterns);
    let ghost for_ignore = errors_view(errors@);
    assert(for_ignore =~= pattern_errors(
        "ignore_patterns"@,
        strings_view(config.ignore_patterns.patterns@),
    ));
    let ghost rules = rules_view(config.priority_rules@);
    let mut i: usize = 0;
    assert(errors_view(errors@) =~= for_ignore + rules_errors(rules.take(0)));
    while i < config.priority_rules.len()
        invariant
            i <= config.priority_rules.len(),
            rules == rules_view(config.priority_rules@),
            errors_view(errors@) == for_ignore + rules_errors(rules.take(i as int)),
        decreases config.priority_rules.len() - i,
    {
        proof {
            assert(rules.take(i + 1).drop_last() =~= rules.take(i as int));
            assert(rules.take(i + 1).last() == rule_view(config.priority_rules@[i as int]));
        }
        push_rule_errors(&mut errors, &config.priority_rules[i]);
        assert(errors_view(errors@) =~= for_ignore + rules_errors(rules.take(i + 1)));
        i = i + 1;
    }
    assert(rules.take(i as int) =~= rules);
    let ghost held = errors_view(errors@);
    match &config.output_dir {
        Some(dir) => {
            match output_dir {
                OutputDirStatus::Usable => {},
                OutputDirStatus::NotADirectory => {
                    let mut message = String::from_str("Output path '");
                    message.append(dir.as_str());
                    message.append("' exists but is not a directory");
                    let error = ConfigError { field: String::from_str("output_dir"), message };
                    assert(error@.message =~= not_a_directory_message(dir@));
                    errors.push(error);
                    assert(errors_view(errors@) =~= held.push(error@));
                },
                OutputDirStatus::CannotCreate(reason) => {
                    let mut message = String::from_str("Cannot create output directory '");
                    message.append(dir.as_str());
                    message.append("': ");
                    message.append(reason.as_str());
                    let error = ConfigError { field: String::from_str("output_dir"), message };
                    assert(error@.message =~= cannot_create_message(dir@, reason@));
                    errors.push(error);
                    assert(errors_view(errors@) =~= held.push(error@));
                },
            }
        },
        None => {},
    }
    assert(errors_view(errors@) =~= config_errors(*config, *output_dir));
    errors
}

/// Accepts a configuration that has no error, and hands back the errors of
/// one that has: such a configuration is not used at all.
pub fn checked_config(config: YekConfig, output_dir: &OutputDirStatus) -> (r: Result<
    YekConfig,
    Vec<ConfigError>,
>)
    ensures
        r is Ok <==> config_errors(config, *output_dir).len() == 0,
        r matches Ok(c) ==> c == config,
        r matches Err(errors) ==> errors_view(errors@) == config_errors(config, *output_dir),
{
    let errors = validate_config(&config, output_dir);
    if errors.len() == 0 {
        Ok(config)
    } else {
        Err(errors)
    }
}

/// Every pattern compiles.
pub open spec fn all_compile(patterns: Seq<Seq<char>>) -> bool {
    forall|i: int| 0 <= i < patterns.len() ==> regex_new(#[trigger] patterns[i]) is Ok
}

/// A rule is valid where its score is between 0 and 1000 and its patterns
/// compile.
pub open spec fn is_valid_rule(rule: RuleView) -> bool {
    score_in_range(rule.score) && all_compile(rule.patterns)
}

/// A configuration is valid where its ignore patterns compile, its rules are
/// valid, and its output directory, if it names one, can be used.
pub open spec fn is_valid_config(config: YekConfig, status: OutputDirStatus) -> bool {
    &&& all_compile(strings_view(config.ignore_patterns.patterns@))
    &&& forall|i: int|
        0 <= i < config.priority_rules@.len() ==> is_valid_rule(
            #[trigger] rules_view(config.priority_rules@)[i],
        )
    &&& config.output_dir is Some ==> status is Usable
}

/// Patterns give no error exactly where all compile.
proof fn lemma_pattern_errors_none(field: Seq<char>, patterns: Seq<Seq<char>>)
    ensures
        pattern_errors(field, patterns).len() == 0 <==> all_compile(patterns),
    decreases patterns.len(),
{
    if patterns.len() > 0 {
        let front = patterns.drop_last();
        lemma_pattern_errors_none(field, front);
        if all_compile(patterns) {
            assert(regex_new(patterns[patterns.len() - 1]) is Ok);
            assert forall|i: int| 0 <= i < front.len() implies regex_new(
                #[trigger] front[i],
            ) is Ok by {
                assert(front[i] == patterns[i]);
            }
        }
        if pattern_errors(field, patterns).len() == 0 {
            assert forall|i: int| 0 <= i < patterns.len() implies regex_new(
                #[trigger] patterns[i],
            ) is Ok by {
                if i < front.len() {
                    assert(front[i] == patterns[i]);
                }
            }
        }
    }
}

/// Rules give no error exactly where all are valid.
proof fn lemma_rules_errors_none(rules: Seq<RuleView>)
    ensures
        rules_errors(rules).len() == 0 <==> forall|i: int|
            0 <= i < rules.len() ==> is_valid_rule(#[trigger] rules[i]),
    decreases rules.len(),
{
    if rules.len() > 0 {
        let front = rules.drop_last();
        let last = rules.last();
        lemma_rules_errors_none(front);
        lemma_pattern_errors_none("priority_rules"@, last.patterns);
        if forall|i: int| 0 <= i < rules.len() ==> is_valid_rule(#[trigger] rules[i]) {
            assert(is_valid_rule(rules[rules.len() - 1]));
            assert forall|i: int| 0 <= i < front.len() implies is_valid_rule(
                #[trigger] front[i],
            ) by {
                assert(front[i] == rules[i]);
            }
        }
        if rules_errors(rules).len() == 0 {
            assert forall|i: int| 0 <= i < rules.len() implies is_valid_rule(
                #[trigger] rules[i],
            ) by {
                if i < front.len() {
                    assert(front[i] == rules[i]);
                }
            }
        }
    }
}

/// No error means valid. Validation finds no error exactly in a valid
/// configuration.
pub proof fn law_no_error_iff_valid(config: YekConfig, status: OutputDirStatus)
    ensures
        config_errors(config, status).len() == 0 <==> is_valid_config(config, status),
{
    lemma_pattern_errors_none(
        "ignore_patterns"@,
        strings_view(config.ignore_patterns.patterns@),
    );
    lemma_rules_errors_none(rules_view(config.priority_rules@));
}

} // verus!
