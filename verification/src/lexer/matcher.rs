//! Regular expressions, by way of the `regex` crate.

use vstd::prelude::*;

verus! {

#[verifier::external_type_specification]
#[verifier::external_body]
pub struct ExRegex(regex::bytes::Regex);

#[verifier::external_type_specification]
#[verifier::external_body]
pub struct ExRegexError(regex::Error);

/// The first match of the regular expression `pattern` in `haystack`, as the
/// byte offsets of its start and its end; `None` where there is no match, and
/// where `pattern` is no regular expression at all.
pub uninterp spec fn regex_match(pattern: Seq<char>, haystack: Seq<u8>) -> Option<(usize, usize)>;

/// A regular expression, compiled once and searched with many times. Only
/// `compile` makes one, so that the compiled form always belongs to the text.
pub struct Matcher {
    source: &'static str,
    compiled: Result<regex::bytes::Regex, regex::Error>,
}

impl Matcher {
    /// The text of the regular expression.
    pub closed spec fn source(&self) -> Seq<char> {
        self.source@
    }

    /// Compiles `source` with `regex::bytes::Regex::new` and keeps what comes
    /// back, be it the compiled expression or the error.
    ///
    /// Trusted: the matcher remembers the text it was made from.
    #[verifier::external_body]
    pub(crate) fn compile(source: &'static str) -> (matcher: Matcher)
        ensures
            matcher.source() == source@,
    {
        Matcher { source, compiled: regex::bytes::Regex::new(source) }
    }

    /// Searches `haystack` with `regex::bytes::Regex::find`; a text that did
    /// not compile matches nothing.
    ///
    /// Trusted: the outcome depends on the text of the expression and on the
    /// haystack alone, and is called `regex_match`; a match is a range of the
    /// haystack, start before end.
    #[verifier::external_body]
    pub(crate) fn search(&self, haystack: &[u8]) -> (found: Option<(usize, usize)>)
        ensures
            found == regex_match(self.source(), haystack@),
            found matches Some(span) ==> span.0 <= span.1 <= haystack@.len(),
    {
        match &self.compiled {
            Ok(regex) => match regex.find(haystack) {
                Some(found) => Some((found.start(), found.end())),
                None => None,
            },
            Err(_) => None,
        }
    }
}

} // verus!
