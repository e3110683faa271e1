//! Glob patterns on paths.

use crate::error::{Error, ErrorView};
use vstd::prelude::*;

verus! {

/// Whether `glob::Pattern::new` accepts a text.
pub uninterp spec fn glob_is_valid(text: Seq<char>) -> bool;

/// What `glob::Pattern::matches_path_with` answers for a pattern and a path, with the
/// options `case_sensitive`, `require_literal_separator` and `require_literal_leading_dot`.
pub uninterp spec fn glob_matches(
    pattern: Seq<char>,
    path: Seq<char>,
    case_sensitive: bool,
    literal_separator: bool,
    literal_leading_dot: bool,
) -> bool;

/// Whether the pattern matches the path, where case counts, and neither a separator nor a
/// dot at the start of a name is matched by a wildcard.
pub open spec fn pattern_hits(pattern: Seq<char>, path: Seq<char>) -> bool {
    glob_matches(pattern, path, true, true, true)
}

/// Compiles a text with `glob::Pattern::new` and tells whether that succeeds. The answer
/// depends on the text alone, on systems where `/` is the only separator: a `**` has to
/// stand between separators, and which characters these are goes by the target system.
#[verifier::external_body]
pub(crate) fn is_valid(text: &str) -> (r: bool)
    ensures
        r == glob_is_valid(text@),
{
    glob::Pattern::new(text).is_ok()
}

/// Matches a path against a pattern with `glob::Pattern::matches_path_with`. The answer
/// depends on the two texts and the options, on systems where `/` is the only separator.
#[verifier::external_body]
fn matches(
    pattern: &str,
    path: &str,
    case_sensitive: bool,
    literal_separator: bool,
    literal_leading_dot: bool,
) -> (r: bool)
    requires
        glob_is_valid(pattern@),
    ensures
        r == glob_matches(pattern@, path@, case_sensitive, literal_separator, literal_leading_dot),
{
    let options = glob::MatchOptions {
        case_sensitive,
        require_literal_separator: literal_separator,
        require_literal_leading_dot: literal_leading_dot,
    };
    glob::Pattern::new(pattern).unwrap().matches_path_with(std::path::Path::new(path), options)
}

/// A glob pattern that is well formed.
#[derive(Debug)]
pub struct Pattern {
    text: String,
}

impl View for Pattern {
    type V = Seq<char>;

    closed spec fn view(&self) -> Seq<char> {
        self.text@
    }
}

impl Pattern {
    #[verifier::type_invariant]
    spec fn valid(self) -> bool {
        glob_is_valid(self.text@)
    }

    /// The pattern that a text writes down.
    pub fn new(text: &str) -> (r: Result<Pattern, Error>)
        ensures
            match r {
                Ok(p) => glob_is_valid(text@) && p@ == text@,
                Err(e) => !glob_is_valid(text@) && e@ == ErrorView::InvalidPattern,
            },
    {
        if is_valid(text) {
            Ok(Pattern::of(text))
        } else {
            Err(Error::InvalidPattern)
        }
    }

    /// The pattern that a text writes down, where it is well formed.
    pub(crate) fn of(text: &str) -> (r: Pattern)
        requires
            glob_is_valid(text@),
        ensures
            r@ == text@,
    {
        Pattern { text: text.to_owned() }
    }

    /// The text that writes the pattern down.
    pub fn as_str(&self) -> (r: &str)
        ensures
            r@ == self@,
            glob_is_valid(r@),
    {
        proof {
            use_type_invariant(self);
        }
        self.text.as_str()
    }

    /// Whether the pattern matches a path.
    pub fn hits(&self, path: &str) -> (r: bool)
        ensures
            r == pattern_hits(self@, path@),
    {
        proof {
            use_type_invariant(self);
        }
        matches(self.text.as_str(), path, true, true, true)
    }
}

} // verus!
