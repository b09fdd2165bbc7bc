use crate::text::is_part_of;
use regex::Regex;
use vstd::prelude::*;

verus! {

/// `regex::Regex`, a compiled expression. It is carried from where it is
/// compiled to where it is run; nothing inside it is looked at.
#[verifier::external_type_specification]
#[verifier::external_body]
pub struct ExRegex(regex::Regex);

/// `regex::Error`, the reason why a pattern was refused. It is never looked
/// into.
#[verifier::external_type_specification]
#[verifier::external_body]
pub struct ExRegexError(regex::Error);

/// Whether `Regex::new` accepts a pattern text and compiles it.
pub uninterp spec fn regex_accepts(pattern: Seq<char>) -> bool;

/// The pattern text from which `Regex::new` made a compiled expression, with
/// the options that `Regex::new` gives it; `None` for an expression that was
/// made in another way.
pub uninterp spec fn regex_pattern(re: Regex) -> Option<Seq<char>>;

/// What `Regex::captures_iter` finds: the successive non-overlapping matches
/// of a pattern in a haystack, leftmost first. Each match is the list of its
/// capture groups, the whole match at index 0; a group that took no part in
/// the match is `None`.
pub uninterp spec fn regex_captures(pattern: Seq<char>, haystack: Seq<char>) -> Seq<
    Seq<Option<Seq<char>>>,
>;

/// Whether every group of every match is a run of consecutive characters of
/// the text that was searched.
pub open spec fn groups_within(found: Seq<Seq<Option<Seq<char>>>>, whole: Seq<char>) -> bool {
    forall|i: int, j: int|
        0 <= i < found.len() && 0 <= j < found[i].len() ==> (#[trigger] found[i][j] matches Some(
            text,
        ) ==> is_part_of(text, whole))
}

/// `Regex::new` compiles a pattern or refuses it; which of the two depends on
/// the pattern text alone, and the compiled expression stands for that text.
pub assume_specification[ regex::Regex::new ](re: &str) -> (compiled: Result<Regex, regex::Error>)
    ensures
        compiled is Ok <==> regex_accepts(re@),
        compiled matches Ok(r) ==> regex_pattern(r) == Some(re@),
;

/// `Regex::captures_iter`, run to its end: every match of the expression in
/// the haystack, each turned into the texts of its groups (`Captures::iter`,
/// `Match::as_str`). For an expression that `Regex::new` made, what comes out
/// depends on the pattern and on the haystack alone. Each group's text is cut
/// out of the haystack.
#[verifier::external_body]
pub(crate) fn captures_in(re: &Regex, haystack: &str) -> (found: Vec<Vec<Option<String>>>)
    requires
        regex_pattern(*re) is Some,
    ensures
        found.deep_view() == regex_captures(regex_pattern(*re)->Some_0, haystack@),
        groups_within(found.deep_view(), haystack@),
{
    re.captures_iter(haystack)
        .map(|caps| caps.iter().map(|group| group.map(|m| m.as_str().to_owned())).collect())
        .collect()
}

} // verus!
