//! Regular expressions over repository-relative paths.
//!
//! Compiling and matching are done by the `regex` crate. What it returns is
//! not modelled here: each call is given a name, and the contracts of this
//! library speak of these names.

use regex::Regex;
use vstd::prelude::*;

verus! {

/// `regex::Regex`, a compiled regular expression. What it holds is not
/// looked into.
#[verifier::external_type_specification]
#[verifier::external_body]
pub struct ExRegex(regex::Regex);

/// `regex::Error`, the reason why a pattern does not compile. What it holds
/// is not looked into.
#[verifier::external_type_specification]
#[verifier::external_body]
pub struct ExRegexError(regex::Error);

/// What `Regex::new` returns for a pattern.
pub uninterp spec fn regex_new(pattern: Seq<char>) -> Result<Regex, regex::Error>;

/// Whether `Regex::is_match` finds a match of the expression anywhere in `text`.
pub uninterp spec fn regex_is_match(re: Regex, text: Seq<char>) -> bool;

/// The message that a compile error displays.
pub uninterp spec fn regex_error_text(e: regex::Error) -> Seq<char>;

/// `Regex::new`: compiles a pattern with the crate's default options. The
/// result depends on the pattern alone.
#[verifier::external_body]
pub(crate) fn compile(pattern: &str) -> (r: Result<Regex, regex::Error>)
    ensures
        r == regex_new(pattern@),
{
    Regex::new(pattern)
}

/// `Regex::is_match`: whether the expression matches anywhere in the text.
/// The result depends on the compiled expression and the text alone.
#[verifier::external_body]
pub(crate) fn is_match(re: &Regex, text: &str) -> (b: bool)
    ensures
        b == regex_is_match(*re, text@),
{
    re.is_match(text)
}

/// `to_string` of a `regex::Error`: the text that its `Display` writes.
#[verifier::external_body]
pub(crate) fn error_text(e: &regex::Error) -> (s: String)
    ensures
        s@ == regex_error_text(*e),
{
    e.to_string()
}

/// Whether some expression of `pats` matches `text`.
pub open spec fn matches_any(pats: Seq<Regex>, text: Seq<char>) -> bool {
    exists|i: int| 0 <= i < pats.len() && regex_is_match(#[trigger] pats[i], text)
}

/// Tests `text` against each expression in turn.
pub fn any_match(pats: &[Regex], text: &str) -> (b: bool)
    ensures
        b == matches_any(pats@, text@),
{
    let mut i: usize = 0;
    while i < pats.len()
        invariant
            i <= pats.len(),
            forall|j: int| 0 <= j < i ==> !regex_is_match(#[trigger] pats@[j], text@),
        decreases pats.len() - i,
    {
        if is_match(&pats[i], text) {
            return true;
        }
        i = i + 1;
    }
    false
}

} // verus!
