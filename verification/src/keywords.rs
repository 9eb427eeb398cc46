use vstd::prelude::*;

use regex::RegexSet;

use crate::text::strings_view;

verus! {

#[verifier::external_type_specification]
#[verifier::external_body]
pub struct ExRegexSet(regex::RegexSet);

#[verifier::external_type_specification]
#[verifier::external_body]
pub struct ExRegexError(regex::Error);

/// The patterns that a regex set was built from, in the order given
/// (`RegexSet::patterns`).
pub uninterp spec fn regex_set_patterns(set: RegexSet) -> Seq<Seq<char>>;

/// Whether `RegexSet::new` accepts these patterns: each is a valid regular
/// expression, and together they stay within the default size limits.
pub uninterp spec fn regex_set_builds(patterns: Seq<Seq<char>>) -> bool;

/// Whether some pattern of the set, unanchored, matches somewhere in the
/// haystack (`RegexSet::is_match`).
pub uninterp spec fn regex_set_matches(patterns: Seq<Seq<char>>, haystack: Seq<char>) -> bool;

/// `RegexSet::new`: compiles the patterns into one set. It fails exactly
/// where `regex_set_builds` does not hold, and the set it returns holds the
/// patterns as given, in order (regex's builder stores each pattern's text).
#[verifier::external_body]
pub(crate) fn build_regex_set(patterns: &Vec<String>) -> (r: Result<RegexSet, regex::Error>)
    ensures
        r is Ok <==> regex_set_builds(strings_view(patterns@)),
        r matches Ok(set) ==> regex_set_patterns(set) == strings_view(patterns@),
{
    RegexSet::new(patterns)
}

/// `RegexSet::is_match`: whether some pattern of the set matches somewhere in
/// the haystack; a function of the set's patterns and the haystack, since every
/// set here is built by `RegexSet::new` with regex's default settings (a set
/// built with other options, such as case-insensitive matching, could differ).
#[verifier::external_body]
pub(crate) fn regex_set_is_match(set: &RegexSet, haystack: &str) -> (r: bool)
    ensures
        r == regex_set_matches(regex_set_patterns(*set), haystack@),
{
    set.is_match(haystack)
}

/// The keywords that mark a skip or close button when the user has set none:
/// "skip" in simplified and traditional Chinese and in English, "close" in
/// Chinese and English, and the multiplication sign used as a close mark.
pub open spec fn default_keyword_patterns() -> Seq<Seq<char>> {
    seq!["跳过"@, "SKIP"@, "Skip"@, "跳過"@, "关闭"@, "Close"@, "×"@]
}

/// The default keywords, as strings.
pub fn default_keyword_list() -> (r: Vec<String>)
    ensures
        strings_view(r@) == default_keyword_patterns(),
{
    let mut r: Vec<String> = Vec::new();
    r.push("跳过".to_owned());
    r.push("SKIP".to_owned());
    r.push("Skip".to_owned());
    r.push("跳過".to_owned());
    r.push("关闭".to_owned());
    r.push("Close".to_owned());
    r.push("×".to_owned());
    assert(strings_view(r@) =~= default_keyword_patterns());
    r
}

} // verus!
