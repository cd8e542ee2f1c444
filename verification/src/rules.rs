//! The rule set: which paths are left out, and which priority a path gets.

use crate::config::{rule_view, rules_view, strings_view, PriorityRule, RuleView, YekConfig};
use crate::pattern::{any_match, compile, matches_any, regex_is_match, regex_new};
use regex::Regex;
use vstd::prelude::*;
use vstd::string::StringExecFns;

verus! {

/// The score of a path that matches no priority tier.
pub const BASELINE_SCORE: i32 = 40;

/// The score that stands for "left out".
pub const IGNORED: i32 = -1;

/// The score of the built-in tier for primary sources.
pub const SOURCE_SCORE: i32 = 50;

/// A priority tier: the paths that one of `patterns` matches get `score`.
#[derive(Debug, Clone)]
pub struct PriorityPattern {
    pub score: i32,
    pub patterns: Vec<Regex>,
}

/// A tier as plain values.
pub struct Tier {
    pub score: int,
    pub patterns: Seq<Regex>,
}

impl View for PriorityPattern {
    type V = Tier;

    open spec fn view(&self) -> Tier {
        Tier { score: self.score as int, patterns: self.patterns@ }
    }
}

/// The tiers of a list as plain values.
pub open spec fn tiers_view(tiers: Seq<PriorityPattern>) -> Seq<Tier> {
    Seq::new(tiers.len(), |i: int| tiers[i]@)
}

/// The resolved rule set: the expressions that leave a path out, and the
/// priority tiers in the order in which they are tried.
#[derive(Debug)]
pub struct FinalConfig {
    pub ignore_patterns: Vec<Regex>,
    pub priority_list: Vec<PriorityPattern>,
}

/// The expressions compiled from `sources`, in their order. A pattern that
/// does not compile is passed over.
pub open spec fn compiled(sources: Seq<Seq<char>>) -> Seq<Regex>
    decreases sources.len(),
{
    if sources.len() == 0 {
        Seq::empty()
    } else {
        let front = compiled(sources.drop_last());
        match regex_new(sources.last()) {
            Ok(re) => front.push(re),
            Err(_) => front,
        }
    }
}

/// Compiles each pattern and keeps those that compile.
pub fn compile_all(patterns: &Vec<String>) -> (out: Vec<Regex>)
    ensures
        out@ == compiled(strings_view(patterns@)),
{
    let ghost sources = strings_view(patterns@);
    let mut out: Vec<Regex> = Vec::new();
    let mut i: usize = 0;
    while i < patterns.len()
        invariant
            i <= patterns.len(),
            sources == strings_view(patterns@),
            out@ == compiled(sources.take(i as int)),
        decreases patterns.len() - i,
    {
        proof {
            assert(sources.take(i + 1).drop_last() =~= sources.take(i as int));
            assert(sources.take(i + 1).last() == patterns@[i as int]@);
        }
        match compile(patterns[i].as_str()) {
            Ok(re) => {
                out.push(re);
            },
            Err(_) => {},
        }
        i = i + 1;
    }
    assert(sources.take(i as int) =~= sources);
    out
}

/// The built-in patterns of paths that are left out: directories of
/// version control, build output and editors, lock files, compiled files,
/// logs, temporary files and the like.
pub open spec fn default_ignore_sources() -> Seq<Seq<char>> {
    seq![
        "^\\.git/"@,
        "^\\.next/"@,
        "^node_modules/"@,
        "^vendor/"@,
        "^dist/"@,
        "^build/"@,
        "^out/"@,
        "^target/"@,
        "^bin/"@,
        "^obj/"@,
        "^\\.idea/"@,
        "^\\.vscode/"@,
        "^\\.vs/"@,
        "^\\.settings/"@,
        "^\\.gradle/"@,
        "^\\.mvn/"@,
        "^\\.pytest_cache/"@,
        "^__pycache__/"@,
        "^\\.sass-cache/"@,
        "^\\.vercel/"@,
        "^\\.turbo/"@,
        "^coverage/"@,
        "^test-results/"@,
        "\\.gitignore"@,
        "pnpm-lock\\.yaml"@,
        "yek\\.toml"@,
        "package-lock\\.json"@,
        "yarn\\.lock"@,
        "Cargo\\.lock"@,
        "Gemfile\\.lock"@,
        "composer\\.lock"@,
        "mix\\.lock"@,
        "poetry\\.lock"@,
        "Pipfile\\.lock"@,
        "packages\\.lock\\.json"@,
        "paket\\.lock"@,
        "\\.pyc$"@,
        "\\.pyo$"@,
        "\\.pyd$"@,
        "\\.class$"@,
        "\\.o$"@,
        "\\.obj$"@,
        "\\.dll$"@,
        "\\.exe$"@,
        "\\.so$"@,
        "\\.dylib$"@,
        "\\.log$"@,
        "\\.tmp$"@,
        "\\.temp$"@,
        "\\.swp$"@,
        "\\.swo$"@,
        "\\.DS_Store$"@,
        "Thumbs\\.db$"@,
        "\\.env(\\..+)?$"@,
        "\\.bak$"@,
        "~$"@,
    ]
}

/// The built-in ignore patterns as texts.
fn default_ignore_strings() -> (out: Vec<String>)
    ensures
        strings_view(out@) == default_ignore_sources(),
{
    let mut out: Vec<String> = Vec::new();
    out.push(String::from_str("^\\.git/"));
    out.push(String::from_str("^\\.next/"));
    out.push(String::from_str("^node_modules/"));
    out.push(String::from_str("^vendor/"));
    out.push(String::from_str("^dist/"));
    out.push(String::from_str("^build/"));
    out.push(String::from_str("^out/"));
    out.push(String::from_str("^target/"));
    out.push(String::from_str("^bin/"));
    out.push(String::from_str("^obj/"));
    out.push(String::from_str("^\\.idea/"));
    out.push(String::from_str("^\\.vscode/"));
    out.push(String::from_str("^\\.vs/"));
    out.push(String::from_str("^\\.settings/"));
    out.push(String::from_str("^\\.gradle/"));
    out.push(String::from_str("^\\.mvn/"));
    out.push(String::from_str("^\\.pytest_cache/"));
    out.push(String::from_str("^__pycache__/"));
    out.push(String::from_str("^\\.sass-cache/"));
    out.push(String::from_str("^\\.vercel/"));
    out.push(String::from_str("^\\.turbo/"));
    out.push(String::from_str("^coverage/"));
    out.push(String::from_str("^test-results/"));
    out.push(String::from_str("\\.gitignore"));
    out.push(String::from_str("pnpm-lock\\.yaml"));
    out.push(String::from_str("yek\\.toml"));
    out.push(String::from_str("package-lock\\.json"));
    out.push(String::from_str("yarn\\.lock"));
    out.push(String::from_str("Cargo\\.lock"));
    out.push(String::from_str("Gemfile\\.lock"));
    out.push(String::from_str("composer\\.lock"));
    out.push(String::from_str("mix\\.lock"));
    out.push(String::from_str("poetry\\.lock"));
    out.push(String::from_str("Pipfile\\.lock"));
    out.push(String::from_str("packages\\.lock\\.json"));
    out.push(String::from_str("paket\\.lock"));
    out.push(String::from_str("\\.pyc$"));
    out.push(String::from_str("\\.pyo$"));
    out.push(String::from_str("\\.pyd$"));
    out.push(String::from_str("\\.class$"));
    out.push(String::from_str("\\.o$"));
    out.push(String::from_str("\\.obj$"));
    out.push(String::from_str("\\.dll$"));
    out.push(String::from_str("\\.exe$"));
    out.push(String::from_str("\\.so$"));
    out.push(String::from_str("\\.dylib$"));
    out.push(String::from_str("\\.log$"));
    out.push(String::from_str("\\.tmp$"));
    out.push(String::from_str("\\.temp$"));
    out.push(String::from_str("\\.swp$"));
    out.push(String::from_str("\\.swo$"));
    out.push(String::from_str("\\.DS_Store$"));
    out.push(String::from_str("Thumbs\\.db$"));
    out.push(String::from_str("\\.env(\\..+)?$"));
    out.push(String::from_str("\\.bak$"));
    out.push(String::from_str("~$"));
    assert(strings_view(out@) =~= default_ignore_sources());
    out
}

/// The built-in ignore expressions.
pub fn default_ignore_patterns() -> (out: Vec<Regex>)
    ensures
        out@ == compiled(default_ignore_sources()),
{
    let sources = default_ignore_strings();
    compile_all(&sources)
}

/// The built-in priority tiers: one, for paths under `src/`.
pub open spec fn default_tiers() -> Seq<Tier> {
    seq![Tier { score: SOURCE_SCORE as int, patterns: compiled(seq!["^src/"@]) }]
}

/// The built-in priority tiers.
pub fn default_priority_list() -> (out: Vec<PriorityPattern>)
    ensures
        tiers_view(out@) == default_tiers(),
{
    let mut sources: Vec<String> = Vec::new();
    sources.push(String::from_str("^src/"));
    assert(strings_view(sources@) =~= seq!["^src/"@]);
    let mut out: Vec<PriorityPattern> = Vec::new();
    out.push(PriorityPattern { score: SOURCE_SCORE, patterns: compile_all(&sources) });
    assert(tiers_view(out@) =~= default_tiers());
    out
}

/// Position of the first tier at or after `from` that has the score `score`,
/// or the number of tiers when there is none.
pub open spec fn tier_index(tiers: Seq<Tier>, score: int, from: int) -> int
    decreases tiers.len() - from,
{
    if from < 0 || from >= tiers.len() {
        tiers.len() as int
    } else if tiers[from].score == score {
        from
    } else {
        tier_index(tiers, score, from + 1)
    }
}

/// Adds expressions under a score: to the first tier that has this score, or
/// else as a new tier at the end.
pub open spec fn merge_tier(tiers: Seq<Tier>, score: int, patterns: Seq<Regex>) -> Seq<Tier> {
    let at = tier_index(tiers, score, 0);
    if at < tiers.len() {
        tiers.update(at, Tier { score, patterns: tiers[at].patterns + patterns })
    } else {
        tiers.push(Tier { score, patterns })
    }
}

/// Merges one rule of the user into the tiers. A rule without patterns is
/// passed over; of its patterns, those that compile are taken.
pub open spec fn merge_rule(tiers: Seq<Tier>, rule: RuleView) -> Seq<Tier> {
    if rule.patterns.len() == 0 {
        tiers
    } else {
        merge_tier(tiers, rule.score, compiled(rule.patterns))
    }
}

/// Merges the rules of the user into the tiers, in their order.
pub open spec fn merge_rules(tiers: Seq<Tier>, rules: Seq<RuleView>) -> Seq<Tier>
    decreases rules.len(),
{
    if rules.len() == 0 {
        tiers
    } else {
        merge_rule(merge_rules(tiers, rules.drop_last()), rules.last())
    }
}

/// Puts `t` into a list of tiers behind the last tier whose score is not
/// below its own.
pub open spec fn insert_tier(sorted: Seq<Tier>, t: Tier) -> Seq<Tier>
    decreases sorted.len(),
{
    if sorted.len() == 0 {
        seq![t]
    } else if sorted.last().score >= t.score {
        sorted.push(t)
    } else {
        insert_tier(sorted.drop_last(), t).push(sorted.last())
    }
}

/// The tiers by descending score; tiers of equal score keep their order.
pub open spec fn sort_tiers(tiers: Seq<Tier>) -> Seq<Tier>
    decreases tiers.len(),
{
    if tiers.len() == 0 {
        Seq::empty()
    } else {
        insert_tier(sort_tiers(tiers.drop_last()), tiers.last())
    }
}

/// No tier stands before one of a higher score.
pub open spec fn is_descending(tiers: Seq<Tier>) -> bool {
    forall|i: int, j: int| 0 <= i < j < tiers.len() ==> tiers[i].score >= tiers[j].score
}

/// No two tiers have the same score.
pub open spec fn has_distinct_scores(tiers: Seq<Tier>) -> bool {
    forall|i: int, j: int| 0 <= i < j < tiers.len() ==> tiers[i].score != tiers[j].score
}

/// `insert_tier` puts the tier at the place where the scan from the end
/// stops.
proof fn lemma_insert_tier_at(sorted: Seq<Tier>, t: Tier, at: int)
    requires
        0 <= at <= sorted.len(),
        forall|j: int| at <= j < sorted.len() ==> sorted[j].score < t.score,
        at > 0 ==> sorted[at - 1].score >= t.score,
    ensures
        insert_tier(sorted, t) == sorted.insert(at, t),
    decreases sorted.len(),
{
    if sorted.len() == 0 {
        assert(sorted.insert(at, t) =~= seq![t]);
    } else if at == sorted.len() {
        assert(sorted.insert(at, t) =~= sorted.push(t));
    } else {
        lemma_insert_tier_at(sorted.drop_last(), t, at);
        assert(sorted.insert(at, t) =~= sorted.drop_last().insert(at, t).push(sorted.last()));
    }
}

/// Inserting keeps a descending list descending and adds the one tier.
pub proof fn lemma_insert_tier(sorted: Seq<Tier>, t: Tier)
    ensures
        insert_tier(sorted, t).to_multiset() == sorted.to_multiset().insert(t),
        insert_tier(sorted, t).len() == sorted.len() + 1,
        is_descending(sorted) ==> is_descending(insert_tier(sorted, t)),
    decreases sorted.len(),
{
    broadcast use vstd::seq_lib::group_to_multiset_ensures;

    let out = insert_tier(sorted, t);
    if sorted.len() == 0 {
        assert(sorted =~= Seq::<Tier>::empty());
        assert(out =~= sorted.push(t));
    } else if sorted.last().score >= t.score {
    } else {
        let front = sorted.drop_last();
        let inner = insert_tier(front, t);
        lemma_insert_tier(front, t);
        assert(sorted =~= front.push(sorted.last()));
        assert(out.to_multiset() =~= sorted.to_multiset().insert(t));
        if is_descending(sorted) {
            assert(is_descending(front));
            assert forall|i: int| 0 <= i < inner.len() implies inner[i].score
                >= sorted.last().score by {
                assert(inner.contains(inner[i]));
                assert(inner.to_multiset().count(inner[i]) > 0);
                if inner[i] != t {
                    assert(front.to_multiset().count(inner[i]) > 0);
                    assert(front.contains(inner[i]));
                    let k = choose|k: int| 0 <= k < front.len() && front[k] == inner[i];
                    assert(sorted[k].score >= sorted[sorted.len() - 1].score);
                }
            }
        }
    }
}

/// Sorting. The sorted tiers are the given tiers, each as often as it was
/// given, and none stands before one of a higher score.
pub proof fn law_sort_tiers(tiers: Seq<Tier>)
    ensures
        sort_tiers(tiers).to_multiset() == tiers.to_multiset(),
        sort_tiers(tiers).len() == tiers.len(),
        is_descending(sort_tiers(tiers)),
    decreases tiers.len(),
{
    broadcast use vstd::seq_lib::group_to_multiset_ensures;

    if tiers.len() == 0 {
        assert(tiers =~= Seq::<Tier>::empty());
    } else {
        law_sort_tiers(tiers.drop_last());
        lemma_insert_tier(sort_tiers(tiers.drop_last()), tiers.last());
        assert(tiers =~= tiers.drop_last().push(tiers.last()));
    }
}

/// Puts `tier` into `out` behind the last tier whose score is not below its
/// own.
fn insert_sorted(out: &mut Vec<PriorityPattern>, tier: PriorityPattern)
    ensures
        tiers_view(final(out)@) == insert_tier(tiers_view(old(out)@), tier@),
{
    let ghost before = tiers_view(out@);
    let mut at: usize = out.len();
    while at > 0 && out[at - 1].score < tier.score
        invariant
            at <= out.len(),
            out@ == old(out)@,
            forall|j: int| at <= j < out.len() ==> before[j].score < tier@.score,
            before == tiers_view(out@),
        decreases at,
    {
        at = at - 1;
    }
    proof {
        lemma_insert_tier_at(before, tier@, at as int);
    }
    out.insert(at, tier);
    assert(tiers_view(out@) =~= before.insert(at as int, tier@));
}

/// Sorts tiers by descending score; tiers of equal score keep their order.
pub fn sort_priority_list(tiers: Vec<PriorityPattern>) -> (out: Vec<PriorityPattern>)
    ensures
        tiers_view(out@) == sort_tiers(tiers_view(tiers@)),
{
    let ghost given = tiers_view(tiers@);
    let mut rest = tiers;
    let mut out: Vec<PriorityPattern> = Vec::new();
    let ghost mut n: int = 0;
    assert(given.take(0) =~= Seq::<Tier>::empty());
    assert(tiers_view(out@) =~= Seq::<Tier>::empty());
    while rest.len() > 0
        invariant
            0 <= n <= given.len(),
            tiers_view(rest@) == given.skip(n),
            tiers_view(out@) == sort_tiers(given.take(n)),
        decreases rest.len(),
    {
        let ghost before = tiers_view(rest@);
        let ghost held = rest@;
        let tier = rest.remove(0);
        assert(rest@ == held.remove(0));
        proof {
            assert(before.len() == rest.len() + 1);
            assert(given.skip(n).len() == given.len() - n);
            assert(tier@ == before[0]);
            assert(given.skip(n)[0] == given[n]);
            assert forall|j: int| 0 <= j < rest.len() implies tiers_view(rest@)[j] == given.skip(
                n + 1,
            )[j] by {
                assert(tiers_view(rest@)[j] == before[j + 1]);
                assert(given.skip(n)[j + 1] == given[n + j + 1]);
            }
            assert(tiers_view(rest@) =~= given.skip(n + 1));
            assert(given.take(n + 1).drop_last() =~= given.take(n));
            assert(given.take(n + 1).last() == given[n]);
            n = n + 1;
        }
        insert_sorted(&mut out, tier);
    }
    assert(given.take(n) =~= given);
    out
}

/// Position of the first tier with the score `score`, or the number of
/// tiers.
fn find_tier(tiers: &Vec<PriorityPattern>, score: i32) -> (at: usize)
    ensures
        at == tier_index(tiers_view(tiers@), score as int, 0),
        at <= tiers.len(),
        at < tiers.len() ==> tiers@[at as int].score == score,
{
    let mut i: usize = 0;
    while i < tiers.len()
        invariant
            i <= tiers.len(),
            tier_index(tiers_view(tiers@), score as int, i as int) == tier_index(
                tiers_view(tiers@),
                score as int,
                0,
            ),
        decreases tiers.len() - i,
    {
        if tiers[i].score == score {
            return i;
        }
        i = i + 1;
    }
    i
}

/// Merges one rule of the user into the tiers.
fn merge_into(tiers: &mut Vec<PriorityPattern>, rule: &PriorityRule)
    ensures
        tiers_view(final(tiers)@) == merge_rule(tiers_view(old(tiers)@), rule_view(*rule)),
{
    assert(rule_view(*rule).patterns.len() == rule.patterns.len());
    if rule.patterns.len() == 0 {
        return;
    }
    let ghost before = tiers_view(tiers@);
    let mut added = compile_all(&rule.patterns);
    let ghost added_view = added@;
    let at = find_tier(tiers, rule.score);
    if at < tiers.len() {
        let ghost held = tiers@;
        let mut tier = tiers.remove(at);
        assert(tier@ == before[at as int]);
        tier.patterns.append(&mut added);
        let ghost grown = tier@;
        assert(grown.patterns =~= before[at as int].patterns + added_view);
        tiers.insert(at, tier);
        assert(tiers@ =~= held.update(at as int, tier));
        assert(tiers_view(tiers@) =~= before.update(at as int, grown));
    } else {
        tiers.push(PriorityPattern { score: rule.score, patterns: added });
        assert(tiers_view(tiers@) =~= before.push(
            Tier { score: rule.score as int, patterns: added_view },
        ));
    }
}

/// The ignore expressions of a configuration: the built-in ones, then those
/// of the user that compile, in the order given and as often as given.
pub open spec fn final_ignore(user: Option<Seq<Seq<char>>>) -> Seq<Regex> {
    match user {
        Some(patterns) => compiled(default_ignore_sources()) + compiled(patterns),
        None => compiled(default_ignore_sources()),
    }
}

/// The priority tiers of a configuration: the built-in tier with the rules of
/// the user merged in, by descending score.
pub open spec fn final_tiers(user: Option<Seq<RuleView>>) -> Seq<Tier> {
    match user {
        Some(rules) => sort_tiers(merge_rules(default_tiers(), rules)),
        None => default_tiers(),
    }
}

/// Resolves the rule set from the built-in rules and what the user supplies.
pub fn build_final_config(cfg: Option<&YekConfig>) -> (out: FinalConfig)
    ensures
        out.ignore_patterns@ == final_ignore(
            match cfg {
                Some(c) => Some(strings_view(c.ignore_patterns.patterns@)),
                None => None,
            },
        ),
        tiers_view(out.priority_list@) == final_tiers(
            match cfg {
                Some(c) => Some(rules_view(c.priority_rules@)),
                None => None,
            },
        ),
        is_strictly_descending(tiers_view(out.priority_list@)),
{
    proof {
        law_final_tiers_descend(
            match cfg {
                Some(c) => Some(rules_view(c.priority_rules@)),
                None => None,
            },
        );
    }
    let mut ignore_patterns = default_ignore_patterns();
    let mut priority_list = default_priority_list();
    match cfg {
        Some(user) => {
            let mut extra = compile_all(&user.ignore_patterns.patterns);
            ignore_patterns.append(&mut extra);
            let ghost rules = rules_view(user.priority_rules@);
            let mut i: usize = 0;
            assert(rules.take(0) =~= Seq::<RuleView>::empty());
            while i < user.priority_rules.len()
                invariant
                    i <= user.priority_rules.len(),
                    rules == rules_view(user.priority_rules@),
                    tiers_view(priority_list@) == merge_rules(default_tiers(), rules.take(i as int)),
                decreases user.priority_rules.len() - i,
            {
                proof {
                    assert(rules.take(i + 1).drop_last() =~= rules.take(i as int));
                    assert(rules.take(i + 1).last() == rule_view(user.priority_rules@[i as int]));
                }
                merge_into(&mut priority_list, &user.priority_rules[i]);
                i = i + 1;
            }
            assert(rules.take(i as int) =~= rules);
            priority_list = sort_priority_list(priority_list);
        },
        None => {},
    }
    FinalConfig { ignore_patterns, priority_list }
}

/// Whether some expression of the tier matches `text`.
pub open spec fn tier_matches(tier: Tier, text: Seq<char>) -> bool {
    matches_any(tier.patterns, text)
}

/// Whether tier `k` is the first one that matches `text`.
pub open spec fn is_first_match(tiers: Seq<Tier>, text: Seq<char>, k: int) -> bool {
    &&& 0 <= k < tiers.len()
    &&& tier_matches(tiers[k], text)
    &&& forall|j: int| 0 <= j < k ==> !tier_matches(#[trigger] tiers[j], text)
}

/// The priority of a path: -1 where an ignore expression matches it; else the
/// score of the first tier that matches it; else 40.
pub open spec fn resolve_priority(text: Seq<char>, ignore: Seq<Regex>, tiers: Seq<Tier>) -> int {
    if matches_any(ignore, text) {
        IGNORED as int
    } else if exists|k: int| is_first_match(tiers, text, k) {
        tiers[choose|k: int| is_first_match(tiers, text, k)].score
    } else {
        BASELINE_SCORE as int
    }
}

/// Determines the priority of a path from the ignore expressions and the
/// priority tiers, which are tried in the order given.
pub fn get_file_priority(rel_str: &str, ignore_pats: &[Regex], prio_list: &[PriorityPattern]) -> (score:
    i32)
    ensures
        score == resolve_priority(rel_str@, ignore_pats@, tiers_view(prio_list@)),
        matches_any(ignore_pats@, rel_str@) ==> score == -1,
{
    if any_match(ignore_pats, rel_str) {
        return IGNORED;
    }
    let ghost tiers = tiers_view(prio_list@);
    let mut i: usize = 0;
    while i < prio_list.len()
        invariant
            i <= prio_list.len(),
            tiers == tiers_view(prio_list@),
            !matches_any(ignore_pats@, rel_str@),
            forall|j: int| 0 <= j < i ==> !tier_matches(#[trigger] tiers[j], rel_str@),
        decreases prio_list.len() - i,
    {
        if any_match(prio_list[i].patterns.as_slice(), rel_str) {
            proof {
                assert(is_first_match(tiers, rel_str@, i as int));
                let k = choose|k: int| is_first_match(tiers, rel_str@, k);
                assert(k == i);
            }
            return prio_list[i].score;
        }
        i = i + 1;
    }
    BASELINE_SCORE
}

/// Where `tier_index` finds no tier, none has the score.
proof fn lemma_tier_index_none(tiers: Seq<Tier>, score: int, from: int)
    requires
        0 <= from,
        tier_index(tiers, score, from) >= tiers.len(),
    ensures
        forall|j: int| from <= j < tiers.len() ==> tiers[j].score != score,
    decreases tiers.len() - from,
{
    if from < tiers.len() {
        lemma_tier_index_none(tiers, score, from + 1);
    }
}

/// Where `tier_index` finds a tier, it has the score.
proof fn lemma_tier_index_some(tiers: Seq<Tier>, score: int, from: int)
    requires
        0 <= from,
        tier_index(tiers, score, from) < tiers.len(),
    ensures
        from <= tier_index(tiers, score, from),
        tiers[tier_index(tiers, score, from)].score == score,
    decreases tiers.len() - from,
{
    if from < tiers.len() && tiers[from].score != score {
        lemma_tier_index_some(tiers, score, from + 1);
    }
}

/// Merging the rules of a user never makes two tiers of one score.
pub proof fn lemma_merge_keeps_scores_distinct(tiers: Seq<Tier>, rules: Seq<RuleView>)
    requires
        has_distinct_scores(tiers),
    ensures
        has_distinct_scores(merge_rules(tiers, rules)),
    decreases rules.len(),
{
    if rules.len() > 0 {
        let before = merge_rules(tiers, rules.drop_last());
        let rule = rules.last();
        lemma_merge_keeps_scores_distinct(tiers, rules.drop_last());
        if rule.patterns.len() > 0 {
            let at = tier_index(before, rule.score, 0);
            if at < before.len() {
                lemma_tier_index_some(before, rule.score, 0);
            } else {
                lemma_tier_index_none(before, rule.score, 0);
            }
        }
    }
}

/// No tier stands before one of the same or a higher score.
pub open spec fn is_strictly_descending(tiers: Seq<Tier>) -> bool {
    forall|i: int, j: int| 0 <= i < j < tiers.len() ==> tiers[i].score > tiers[j].score
}

/// The rule set is ordered. Whatever the user supplies, the resolved tiers
/// have scores that differ from each other and stand by descending score.
pub proof fn law_final_tiers_descend(user: Option<Seq<RuleView>>)
    ensures
        is_strictly_descending(final_tiers(user)),
{
    broadcast use vstd::seq_lib::group_to_multiset_ensures;

    match user {
        Some(rules) => {
            let merged = merge_rules(default_tiers(), rules);
            let sorted = sort_tiers(merged);
            lemma_merge_keeps_scores_distinct(default_tiers(), rules);
            law_sort_tiers(merged);
            assert forall|i: int, j: int| 0 <= i < j < sorted.len() implies sorted[i].score
                != sorted[j].score by {
                assert(merged.no_duplicates());
                merged.lemma_multiset_has_no_duplicates();
                sorted.lemma_multiset_has_no_duplicates_conv();
                assert(sorted[i] != sorted[j]);
                assert(sorted.contains(sorted[i]));
                assert(sorted.contains(sorted[j]));
                assert(merged.to_multiset().count(sorted[i]) > 0);
                assert(merged.to_multiset().count(sorted[j]) > 0);
                assert(merged.contains(sorted[i]));
                assert(merged.contains(sorted[j]));
                let a = choose|a: int| 0 <= a < merged.len() && merged[a] == sorted[i];
                let b = choose|b: int| 0 <= b < merged.len() && merged[b] == sorted[j];
                assert(a != b);
            }
        },
        None => {},
    }
}

/// Ignore overrides priority. A path that an ignore expression matches has
/// the priority -1, whatever the tiers are.
pub proof fn law_ignore_overrides(text: Seq<char>, ignore: Seq<Regex>, tiers: Seq<Tier>)
    requires
        matches_any(ignore, text),
    ensures
        resolve_priority(text, ignore, tiers) == -1,
{
}

/// First match wins. A path that no ignore expression matches has the score
/// of the first tier that matches it, and 40 where none does.
pub proof fn law_first_match_wins(text: Seq<char>, ignore: Seq<Regex>, tiers: Seq<Tier>, k: int)
    requires
        !matches_any(ignore, text),
    ensures
        is_first_match(tiers, text, k) ==> resolve_priority(text, ignore, tiers) == tiers[k].score,
        (forall|j: int| 0 <= j < tiers.len() ==> !tier_matches(#[trigger] tiers[j], text))
            ==> resolve_priority(text, ignore, tiers) == 40,
{
    if is_first_match(tiers, text, k) {
        let c = choose|c: int| is_first_match(tiers, text, c);
        assert(c == k);
    }
}

/// Highest tier wins. With tiers by descending score, a path that is not
/// ignored gets a score that is not below that of any tier that matches it.
pub proof fn law_highest_tier_wins(text: Seq<char>, ignore: Seq<Regex>, tiers: Seq<Tier>, k: int)
    requires
        is_descending(tiers),
        !matches_any(ignore, text),
        0 <= k < tiers.len(),
        tier_matches(tiers[k], text),
    ensures
        resolve_priority(text, ignore, tiers) >= tiers[k].score,
        exists|f: int| is_first_match(tiers, text, f),
{
    lemma_some_first_match(tiers, text, k);
    let f = choose|f: int| is_first_match(tiers, text, f);
    if f > k {
        assert(!tier_matches(tiers[k], text));
    }
}

/// Where a tier matches, some tier is the first to match.
proof fn lemma_some_first_match(tiers: Seq<Tier>, text: Seq<char>, k: int)
    requires
        0 <= k < tiers.len(),
        tier_matches(tiers[k], text),
    ensures
        exists|f: int| is_first_match(tiers, text, f),
    decreases k,
{
    if exists|j: int| 0 <= j < k && tier_matches(#[trigger] tiers[j], text) {
        let j = choose|j: int| 0 <= j < k && tier_matches(#[trigger] tiers[j], text);
        lemma_some_first_match(tiers, text, j);
    } else {
        assert(is_first_match(tiers, text, k));
    }
}

} // verus!
