//! Candidate files: which files are taken, with which priority, and in which
//! order they are handed to the assembly.

use crate::classify::{is_text, is_text_file, option_bytes_view, option_text_view};
use crate::config::strings_view;
use crate::history::CommitTimeIndex;
use crate::rules::{get_file_priority, resolve_priority, tiers_view, FinalConfig, Tier};
use ignore::gitignore::Gitignore;
use regex::Regex;
use vstd::prelude::*;

verus! {

/// What a file gains in priority when it was committed recently.
pub const RECENCY_BONUS: i64 = 50;

/// The time, in seconds, within which a commit counts as recent: 14 days.
pub const RECENCY_WINDOW: u64 = 1209600;

/// The earliest commit time that counts as recent at the time `now`, both in
/// seconds since the epoch; 0 where the epoch is less than 14 days back.
pub open spec fn cutoff_at(now: u64) -> u64 {
    if now >= RECENCY_WINDOW {
        (now - RECENCY_WINDOW) as u64
    } else {
        0
    }
}

/// The earliest commit time that counts as recent.
pub fn recency_cutoff(now: u64) -> (cutoff: u64)
    ensures
        cutoff == cutoff_at(now),
{
    if now >= RECENCY_WINDOW {
        now - RECENCY_WINDOW
    } else {
        0
    }
}

/// A file is recent where a time of its last commit is known and is not
/// before the cutoff.
pub open spec fn is_recent(commit_time: Option<u64>, cutoff: u64) -> bool {
    commit_time matches Some(t) && t >= cutoff
}

/// The priority with the recency bonus added where it is due.
pub open spec fn with_bonus(priority: int, commit_time: Option<u64>, cutoff: u64) -> int {
    if is_recent(commit_time, cutoff) {
        priority + RECENCY_BONUS
    } else {
        priority
    }
}

/// The time of the last commit of a path, where commit times are known at
/// all and one is known for this path.
pub open spec fn commit_time_of(times: Option<Map<Seq<char>, u64>>, rel: Seq<char>) -> Option<u64> {
    match times {
        Some(m) => if m.contains_key(rel) {
            Some(m[rel])
        } else {
            None
        },
        None => None,
    }
}

/// Optional commit times as plain values.
pub open spec fn option_times_view(times: Option<&CommitTimeIndex>) -> Option<Map<Seq<char>, u64>> {
    match times {
        Some(m) => Some(m@),
        None => None,
    }
}

/// Looks up the time of the last commit of a path.
pub fn last_commit_time(times: Option<&CommitTimeIndex>, rel_str: &str) -> (t: Option<u64>)
    ensures
        t == commit_time_of(option_times_view(times), rel_str@),
{
    match times {
        Some(index) => index.time_of(rel_str),
        None => None,
    }
}

/// `ignore::gitignore::Gitignore`, the matcher made from the ignore file of
/// a tree. What it holds is not looked into.
#[verifier::external_type_specification]
#[verifier::external_body]
pub struct ExGitignore(ignore::gitignore::Gitignore);

/// Whether what `Gitignore::matched` finds for a path is an ignore match.
pub uninterp spec fn gitignore_excludes(matcher: Gitignore, rel: Seq<char>, is_dir: bool) -> bool;

/// `Gitignore::matched` and `Match::is_ignore`: whether the matcher leaves
/// out a path, given relative to its root. The result depends on the
/// matcher, the path and `is_dir` alone.
#[verifier::external_body]
pub(crate) fn is_gitignored(matcher: &Gitignore, rel_str: &str, is_dir: bool) -> (b: bool)
    ensures
        b == gitignore_excludes(*matcher, rel_str@, is_dir),
{
    matcher.matched(rel_str, is_dir).is_ignore()
}

/// Why a path is left out before its file is opened.
#[derive(Debug, Clone, Copy, PartialEq, Eq, Structural)]
pub enum LeftOut {
    /// The ignore file of the tree leaves it out.
    ByIgnoreFile,
    /// An ignore expression matches it, or its priority is negative.
    ByRules,
}

/// First screening of a path, before its file is opened. Where the ignore
/// file of the tree leaves it out, that is said and the rules are not asked.
/// Else the rules decide: they leave it out where an ignore expression
/// matches it or its priority is negative, and else give its priority.
pub open spec fn screening(
    rel: Seq<char>,
    gitignored: bool,
    ignore: Seq<Regex>,
    tiers: Seq<Tier>,
) -> Result<int, LeftOut> {
    if gitignored {
        Err(LeftOut::ByIgnoreFile)
    } else if resolve_priority(rel, ignore, tiers) < 0 {
        Err(LeftOut::ByRules)
    } else {
        Ok(resolve_priority(rel, ignore, tiers))
    }
}

/// The priority of a path that passes the first screening, and nothing for
/// one that is left out.
pub open spec fn screened(rel: Seq<char>, gitignored: bool, ignore: Seq<Regex>, tiers: Seq<Tier>) -> Option<
    int,
> {
    match screening(rel, gitignored, ignore, tiers) {
        Ok(p) => Some(p),
        Err(_) => None,
    }
}

/// Screens a path by the rules, before its file is opened.
pub fn screen(rel_str: &str, gitignored: bool, rules: &FinalConfig) -> (r: Result<i32, LeftOut>)
    ensures
        (match r {
            Ok(p) => Ok(p as int),
            Err(e) => Err(e),
        }) == screening(
            rel_str@,
            gitignored,
            rules.ignore_patterns@,
            tiers_view(rules.priority_list@),
        ),
{
    if gitignored {
        return Err(LeftOut::ByIgnoreFile);
    }
    let priority = get_file_priority(
        rel_str,
        rules.ignore_patterns.as_slice(),
        rules.priority_list.as_slice(),
    );
    if priority < 0 {
        Err(LeftOut::ByRules)
    } else {
        Ok(priority)
    }
}

/// Screens a path by the ignore file of the tree and by the rules, before
/// its file is opened.
pub fn screen_in_tree(matcher: &Gitignore, rel_str: &str, is_dir: bool, rules: &FinalConfig) -> (r:
    Result<i32, LeftOut>)
    ensures
        (match r {
            Ok(p) => Ok(p as int),
            Err(e) => Err(e),
        }) == screening(
            rel_str@,
            gitignore_excludes(*matcher, rel_str@, is_dir),
            rules.ignore_patterns@,
            tiers_view(rules.priority_list@),
        ),
{
    screen(rel_str, is_gitignored(matcher, rel_str, is_dir), rules)
}

/// Second screening, of a file that passed the first: nothing where it is
/// binary; else its priority, with the recency bonus where it is due.
pub open spec fn qualified(
    priority: int,
    extension: Option<Seq<char>>,
    user: Seq<Seq<char>>,
    head: Option<Seq<u8>>,
    commit_time: Option<u64>,
    cutoff: u64,
) -> Option<int> {
    if is_text(extension, user, head) {
        Some(with_bonus(priority, commit_time, cutoff))
    } else {
        None
    }
}

/// Screens a file by its extension and leading bytes, and settles its final
/// priority.
pub fn qualify(
    priority: i32,
    extension: Option<&str>,
    user_binary_extensions: &[String],
    head: Option<&[u8]>,
    commit_time: Option<u64>,
    cutoff: u64,
) -> (r: Option<i64>)
    ensures
        (match r {
            Some(p) => Some(p as int),
            None => None,
        }) == qualified(
            priority as int,
            option_text_view(extension),
            strings_view(user_binary_extensions@),
            option_bytes_view(head),
            commit_time,
            cutoff,
        ),
{
    if !is_text_file(extension, user_binary_extensions, head) {
        return None;
    }
    let base: i64 = priority as i64;
    match commit_time {
        Some(t) => {
            if t >= cutoff {
                Some(base + RECENCY_BONUS)
            } else {
                Some(base)
            }
        },
        None => Some(base),
    }
}

/// Whether a file is taken, and with which priority: both screenings, one
/// after the other.
pub open spec fn selected(
    rel: Seq<char>,
    gitignored: bool,
    ignore: Seq<Regex>,
    tiers: Seq<Tier>,
    extension: Option<Seq<char>>,
    user: Seq<Seq<char>>,
    head: Option<Seq<u8>>,
    commit_time: Option<u64>,
    cutoff: u64,
) -> Option<int> {
    match screened(rel, gitignored, ignore, tiers) {
        Some(p) => qualified(p, extension, user, head, commit_time, cutoff),
        None => None,
    }
}

/// Decides whether a file is taken, and settles its priority.
pub fn select(
    rel_str: &str,
    gitignored: bool,
    rules: &FinalConfig,
    extension: Option<&str>,
    user_binary_extensions: &[String],
    head: Option<&[u8]>,
    commit_time: Option<u64>,
    cutoff: u64,
) -> (r: Option<i64>)
    ensures
        (match r {
            Some(p) => Some(p as int),
            None => None,
        }) == selected(
            rel_str@,
            gitignored,
            rules.ignore_patterns@,
            tiers_view(rules.priority_list@),
            option_text_view(extension),
            strings_view(user_binary_extensions@),
            option_bytes_view(head),
            commit_time,
            cutoff,
        ),
{
    match screen(rel_str, gitignored, rules) {
        Ok(p) => qualify(p, extension, user_binary_extensions, head, commit_time, cutoff),
        Err(_) => None,
    }
}

/// What is ignored is never taken. A path that the ignore file of the tree
/// or an ignore expression leaves out is not taken, whatever the tiers, the
/// content and the commit times are.
pub proof fn law_ignored_never_selected(
    rel: Seq<char>,
    gitignored: bool,
    ignore: Seq<Regex>,
    tiers: Seq<Tier>,
    extension: Option<Seq<char>>,
    user: Seq<Seq<char>>,
    head: Option<Seq<u8>>,
    commit_time: Option<u64>,
    cutoff: u64,
)
    requires
        gitignored || crate::pattern::matches_any(ignore, rel),
    ensures
        resolve_priority(rel, ignore, tiers) == -1 || gitignored,
        selected(rel, gitignored, ignore, tiers, extension, user, head, commit_time, cutoff)
            is None,
{
}

/// The recency bonus is 50, for recent files only. A file that is taken has
/// its priority by the rules, and 50 more exactly where a time of its last
/// commit is known and is not before the cutoff. The bonus brings no file
/// back: whether a file is taken does not depend on its commit time.
pub proof fn law_recency_bonus(
    rel: Seq<char>,
    gitignored: bool,
    ignore: Seq<Regex>,
    tiers: Seq<Tier>,
    extension: Option<Seq<char>>,
    user: Seq<Seq<char>>,
    head: Option<Seq<u8>>,
    commit_time: Option<u64>,
    cutoff: u64,
)
    ensures
        ({
            let with_time = selected(
                rel,
                gitignored,
                ignore,
                tiers,
                extension,
                user,
                head,
                commit_time,
                cutoff,
            );
            let without = selected(rel, gitignored, ignore, tiers, extension, user, head, None, cutoff);
            let by_rules = resolve_priority(rel, ignore, tiers);
            &&& with_time is Some <==> without is Some
            &&& without matches Some(p) ==> p == by_rules
            &&& with_time matches Some(p) ==> p == by_rules + (if commit_time matches Some(t) && t
                >= cutoff {
                50int
            } else {
                0int
            })
        }),
{
}

} // verus!
