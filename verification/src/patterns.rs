//! Regular-expression searches (regex crate) and Unicode character
//! properties (std) that the isolation, classification and retrieval rules
//! rely on. Their results are named, not restated: each name stands for
//! what the outside function returns on the given pattern and text.
use vstd::prelude::*;

verus! {

/// One match of a regular expression: its capture groups in order, group 0
/// being the whole match; a group that did not participate is `None`.
pub type CaptureView = Seq<Option<Seq<char>>>;

/// `Regex::new(pattern)` followed by `is_match(text)`; `None` when the
/// pattern does not compile.
pub uninterp spec fn regex_is_match(pattern: Seq<char>, text: Seq<char>) -> Option<bool>;

/// `Regex::new(pattern)` followed by `captures_iter(text)`: the successive
/// non-overlapping matches with their groups; `None` when the pattern does
/// not compile.
pub uninterp spec fn regex_captures(pattern: Seq<char>, text: Seq<char>) -> Option<
    Seq<CaptureView>,
>;

/// `Regex::new(pattern)` followed by `split(text)`: the pieces of the text
/// between successive matches; `None` when the pattern does not compile.
pub uninterp spec fn regex_gaps(pattern: Seq<char>, text: Seq<char>) -> Option<Seq<Seq<char>>>;

pub open spec fn capture_view(c: Vec<Option<String>>) -> CaptureView {
    c@.map_values(|g: Option<String>| opt_view(g))
}

pub open spec fn opt_view(g: Option<String>) -> Option<Seq<char>> {
    match g {
        Some(s) => Some(s@),
        None => None,
    }
}

pub open spec fn captures_view(v: Seq<Vec<Option<String>>>) -> Seq<CaptureView> {
    v.map_values(|c: Vec<Option<String>>| capture_view(c))
}

pub open spec fn strings_view(v: Seq<String>) -> Seq<Seq<char>> {
    v.map_values(|s: String| s@)
}

/// Whether the regular expression `pattern` matches somewhere in `text`
/// (`Regex::new` then `Regex::is_match`). The result is the named one; a
/// pattern that does not compile gives `None`.
#[verifier::external_body]
pub(crate) fn pattern_matches(pattern: &str, text: &str) -> (r: Option<bool>)
    ensures
        r == regex_is_match(pattern@, text@),
{
    regex::Regex::new(pattern).ok().map(|re| re.is_match(text))
}

/// The matches of `pattern` in `text` with their capture groups
/// (`Regex::new` then `Regex::captures_iter`), each group as its text.
#[verifier::external_body]
pub(crate) fn pattern_captures(pattern: &str, text: &str) -> (r: Option<Vec<Vec<Option<String>>>>)
    ensures
        match r {
            Some(v) => regex_captures(pattern@, text@) == Some(captures_view(v@)),
            None => regex_captures(pattern@, text@) is None,
        },
{
    regex::Regex::new(pattern).ok().map(
        |re|
            re.captures_iter(text).map(
                |c| c.iter().map(|g| g.map(|m| m.as_str().to_string())).collect(),
            ).collect(),
    )
}

/// The pieces of `text` between the matches of `pattern`
/// (`Regex::new` then `Regex::split`).
#[verifier::external_body]
pub(crate) fn pattern_gaps(pattern: &str, text: &str) -> (r: Option<Vec<String>>)
    ensures
        match r {
            Some(v) => regex_gaps(pattern@, text@) == Some(strings_view(v@)),
            None => regex_gaps(pattern@, text@) is None,
        },
{
    regex::Regex::new(pattern).ok().map(|re| re.split(text).map(|s| s.to_string()).collect())
}

/// `char::is_alphanumeric`: the Unicode `Alphabetic` or `Numeric` property.
pub uninterp spec fn unicode_alphanumeric(c: char) -> bool;

/// `char::to_lowercase`: the full Unicode lowercase mapping of a character.
pub uninterp spec fn unicode_char_lowercase(c: char) -> Seq<char>;

/// `str::to_lowercase`: the Unicode lowercase form of a text.
pub uninterp spec fn unicode_lowercase(s: Seq<char>) -> Seq<char>;

/// `char::is_alphanumeric` (std), whose result is the named property.
#[verifier::external_body]
pub(crate) fn is_alphanumeric(c: char) -> (r: bool)
    ensures
        r == unicode_alphanumeric(c),
{
    c.is_alphanumeric()
}

/// `char::to_lowercase` (std): the characters of the lowercase mapping.
#[verifier::external_body]
pub(crate) fn char_lowercase(c: char) -> (r: Vec<char>)
    ensures
        r@ == unicode_char_lowercase(c),
{
    c.to_lowercase().collect()
}

/// `str::to_lowercase` (std).
#[verifier::external_body]
pub(crate) fn lowercase(s: &str) -> (r: String)
    ensures
        r@ == unicode_lowercase(s@),
{
    s.to_lowercase()
}

} // verus!
