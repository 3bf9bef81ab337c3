//! The textual patterns that locate numbers in free text, and the search for
//! them.
//!
//! The search itself is the work of the `regex` crate. What it finds in a
//! text is a fixed function of the pattern and the text; this module gives
//! that function a name and leaves its value to the crate.

use vstd::prelude::*;

verus! {

/// `regex::Error`, why a pattern was refused. The library hands it on and
/// never looks inside.
#[verifier::external_type_specification]
#[verifier::external_body]
pub struct ExRegexError(regex::Error);

/// The groups of one match: for each group of the pattern, the whole match
/// being the first, the text it matched, if it took part in the match.
pub type Groups = Vec<Option<String>>;

/// The groups of a match as plain values.
pub open spec fn groups_view(groups: Seq<Option<String>>) -> Seq<Option<Seq<char>>> {
    Seq::new(
        groups.len(),
        |i: int|
            match groups[i] {
                Some(text) => Some(text@),
                None => None,
            },
    )
}

/// The groups of a list of matches as plain values.
pub open spec fn matches_view(matches: Seq<Groups>) -> Seq<Seq<Option<Seq<char>>>> {
    Seq::new(matches.len(), |i: int| groups_view(matches[i]@))
}

/// Whether `regex::Regex::new` accepts the pattern.
pub uninterp spec fn pattern_compiles(pattern: Seq<char>) -> bool;

/// What `regex::Regex::captures` finds of the pattern in the text: the groups
/// of the leftmost match, or nothing where the text has no match.
pub uninterp spec fn captured(pattern: Seq<char>, text: Seq<char>) -> Option<Seq<Option<Seq<char>>>>;

/// What `regex::Regex::captures_iter` finds of the pattern in the text: the
/// groups of each match, from left to right, no two matches overlapping.
pub uninterp spec fn all_captured(pattern: Seq<char>, text: Seq<char>) -> Seq<Seq<Option<Seq<char>>>>;

/// What `str::to_lowercase` makes of the text.
pub uninterp spec fn lowercased(text: Seq<char>) -> Seq<char>;

/// The pattern of a load number in a document's complementary information:
/// the word `carga`, then digits.
pub open spec fn load_pattern() -> Seq<char> {
    "carga *:* *([0-9]+)"@
}

/// The pattern of a volume in a document's complementary information: the
/// word `cubicagem`, then a number with a decimal comma, then `m3`.
pub open spec fn cubicage_pattern() -> Seq<char> {
    "cubicagem *:* *([0-9]+,[0-9]+) *m3"@
}

/// The pattern of a load's commercial facts in a dispatch e-mail: load
/// number, plate and freight price, each after its word.
pub open spec fn email_pattern() -> Seq<char> {
    "carga *:* *([0-9]{6}) *placa *:* *([0-9a-z]{3,4}-* *[0-9a-z]{3,4}) *frete *:* *([0-9]\\.[0-9]{3},[0-9]{2})"@
}

/// The pattern of a load number.
pub fn load() -> (pattern: &'static str)
    ensures
        pattern@ == load_pattern(),
{
    "carga *:* *([0-9]+)"
}

/// The pattern of a volume.
pub fn cubicage() -> (pattern: &'static str)
    ensures
        pattern@ == cubicage_pattern(),
{
    "cubicagem *:* *([0-9]+,[0-9]+) *m3"
}

/// The pattern of a load's commercial facts.
pub fn email_text() -> (pattern: &'static str)
    ensures
        pattern@ == email_pattern(),
{
    "carga *:* *([0-9]{6}) *placa *:* *([0-9a-z]{3,4}-* *[0-9a-z]{3,4}) *frete *:* *([0-9]\\.[0-9]{3},[0-9]{2})"
}

/// Calls `regex::Regex::new` on the pattern and `regex::Regex::captures` on
/// the text. The contract claims that the call fails exactly where the
/// pattern does not compile, and that what it returns otherwise is the value
/// named `captured`: the groups of the leftmost match, each as the text it
/// matched.
#[verifier::external_body]
pub(crate) fn find_first(pattern: &str, text: &str) -> (found: Result<Option<Groups>, regex::Error>)
    ensures
        found is Ok == pattern_compiles(pattern@),
        found is Ok ==> (match found.unwrap() {
            Some(groups) => captured(pattern@, text@) == Some(groups_view(groups@)),
            None => captured(pattern@, text@) is None,
        }),
{
    let found = regex::Regex::new(pattern)?.captures(text);
    Ok(found.map(|groups| groups.iter().map(|group| group.map(|part| part.as_str().to_string())).collect()))
}

/// Calls `regex::Regex::new` on the pattern and `regex::Regex::captures_iter`
/// on the text. The contract claims that the call fails exactly where the
/// pattern does not compile, and that what it returns otherwise is the value
/// named `all_captured`: the groups of every match, from left to right.
#[verifier::external_body]
pub(crate) fn find_all(pattern: &str, text: &str) -> (found: Result<Vec<Groups>, regex::Error>)
    ensures
        found is Ok == pattern_compiles(pattern@),
        found is Ok ==> matches_view(found.unwrap()@) == all_captured(pattern@, text@),
{
    let matcher = regex::Regex::new(pattern)?;
    Ok(
        matcher.captures_iter(text).map(
            |groups| groups.iter().map(|group| group.map(|part| part.as_str().to_string())).collect(),
        ).collect(),
    )
}

/// Calls `str::to_lowercase`. The contract claims only that the result is
/// the value named `lowercased`, which depends on the text alone.
#[verifier::external_body]
pub(crate) fn lowercase(text: &str) -> (lower: String)
    ensures
        lower@ == lowercased(text@),
{
    text.to_lowercase()
}

} // verus!
