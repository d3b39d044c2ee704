//! Regular expressions, matched by `regex_lite`.
use vstd::prelude::*;

verus! {

/// Declares `regex_lite::Regex` to the verifier; its values are opaque.
#[verifier::external_type_specification]
#[verifier::external_body]
pub struct ExRegex(regex_lite::Regex);

/// Whether `regex_lite` accepts `pattern` as a regular expression.
pub uninterp spec fn regex_compiles(pattern: Seq<char>) -> bool;

/// Whether `regex_lite` finds a match of `pattern` anywhere in `haystack`.
pub uninterp spec fn regex_search(pattern: Seq<char>, haystack: Seq<char>) -> bool;

/// The capture groups of the leftmost-first match of `pattern` in `haystack`,
/// as `regex_lite` reports them: group 0 is the whole match, a group that did
/// not take part in the match is `None`; `None` overall where nothing matches.
pub uninterp spec fn regex_groups(pattern: Seq<char>, haystack: Seq<char>) -> Option<Seq<Option<Seq<char>>>>;

/// Capture groups as plain text.
pub open spec fn groups_view(v: Seq<Option<String>>) -> Seq<Option<Seq<char>>> {
    v.map_values(|g: Option<String>| match g {
        Some(s) => Some(s@),
        None => None,
    })
}

/// A compiled regular expression, together with the text it was compiled from.
pub struct Pattern {
    re: regex_lite::Regex,
    source: Ghost<Seq<char>>,
}

impl View for Pattern {
    type V = Seq<char>;

    /// The text the pattern was compiled from.
    closed spec fn view(&self) -> Seq<char> {
        self.source@
    }
}

/// Compiles a regular expression.
///
/// Calls `regex_lite::Regex::new`. Claims: the result is present exactly when
/// `regex_lite` accepts the pattern, and it remembers the pattern's text.
/// Nothing is claimed about which patterns are accepted.
#[verifier::external_body]
pub(crate) fn compile_pattern(pattern: &str) -> (r: Option<Pattern>)
    ensures
        r.is_some() == regex_compiles(pattern@),
        r matches Some(p) ==> p@ == pattern@,
{
    match regex_lite::Regex::new(pattern) {
        Ok(re) => Some(Pattern { re, source: Ghost(pattern@) }),
        Err(_) => None,
    }
}

/// Whether the pattern matches anywhere in `haystack`.
///
/// Calls `regex_lite::Regex::is_match`. Claims only that the answer is
/// `regex_search` of the pattern's text and the haystack.
#[verifier::external_body]
pub(crate) fn pattern_is_match(p: &Pattern, haystack: &str) -> (b: bool)
    ensures
        b == regex_search(p@, haystack@),
{
    p.re.is_match(haystack)
}

/// The capture groups of the first match of the pattern in `haystack`.
///
/// Calls `regex_lite::Regex::captures`, and reads each group with
/// `Captures::get` and `Match::as_str`. Claims: the groups are
/// `regex_groups` of the pattern's text and the haystack, and there are
/// groups exactly when the pattern matches somewhere (`regex_search`),
/// as the crate's documentation of `captures` and `is_match` states.
#[verifier::external_body]
pub(crate) fn pattern_captures(p: &Pattern, haystack: &str) -> (r: Option<Vec<Option<String>>>)
    ensures
        r.is_some() == regex_search(p@, haystack@),
        r matches Some(v) ==> regex_groups(p@, haystack@) == Some(groups_view(v@)),
        r is None ==> regex_groups(p@, haystack@) is None,
{
    p.re.captures(haystack).map(|caps| caps.iter().map(|m| m.map(|m| m.as_str().to_string())).collect())
}

} // verus!
