//! The lexical patterns and the order in which the scanner tries them.

use vstd::prelude::*;
use vstd::slice::slice_subrange;
use vstd::string::StringSliceAdditionalSpecFns;

use super::matcher::{regex_match, Matcher};
use super::tokens::Token;

verus! {

/// Whether `text` begins with `prefix`.
pub open spec fn spec_starts_with(text: Seq<u8>, prefix: Seq<u8>) -> bool {
    prefix.len() <= text.len() && text.subrange(0, prefix.len() as int) == prefix
}

/// Whether `text` begins with `prefix`, byte by byte.
pub fn starts_with(text: &[u8], prefix: &[u8]) -> (r: bool)
    ensures
        r == spec_starts_with(text@, prefix@),
{
    if prefix.len() > text.len() {
        return false;
    }
    let mut i: usize = 0;
    while i < prefix.len()
        invariant
            i <= prefix@.len() <= text@.len(),
            text@.subrange(0, i as int) == prefix@.subrange(0, i as int),
        decreases prefix@.len() - i,
    {
        if text[i] != prefix[i] {
            assert(text@.subrange(0, prefix@.len() as int)[i as int] != prefix@[i as int]);
            return false;
        }
        assert(text@.subrange(0, i + 1) == text@.subrange(0, i as int).push(text@[i as int]));
        assert(prefix@.subrange(0, i + 1) == prefix@.subrange(0, i as int).push(prefix@[i as int]));
        i += 1;
    }
    assert(prefix@.subrange(0, prefix@.len() as int) == prefix@);
    true
}

/// One lexical pattern: a regular expression, or a fixed string.
pub enum PatternType {
    Regex(Matcher),
    String(&'static str),
}

/// A lexical pattern as text: the text of a regular expression, or the bytes
/// of a fixed string.
pub enum PatternView {
    Regex(Seq<char>),
    String(Seq<u8>),
}

impl View for PatternType {
    type V = PatternView;

    open spec fn view(&self) -> PatternView {
        match self {
            PatternType::Regex(matcher) => PatternView::Regex(matcher.source()),
            PatternType::String(value) => PatternView::String(value.spec_bytes()),
        }
    }
}

impl PatternView {
    /// The text that the pattern matches in `slice`: for a regular expression
    /// its first match, for a fixed string the string itself where `slice`
    /// begins with it.
    pub open spec fn find(self, slice: Seq<u8>) -> Option<Seq<u8>> {
        match self {
            PatternView::Regex(pattern) => match regex_match(pattern, slice) {
                Some(span) => Some(slice.subrange(span.0 as int, span.1 as int)),
                None => None,
            },
            PatternView::String(value) => if spec_starts_with(slice, value) {
                Some(value)
            } else {
                None
            },
        }
    }
}

impl PatternType {
    /// The pattern of the regular expression `source`.
    pub fn regex(source: &'static str) -> (pattern: PatternType)
        ensures
            pattern@ == PatternView::Regex(source@),
    {
        PatternType::Regex(Matcher::compile(source))
    }

    /// Looks for the pattern in `slice` and returns the matched text.
    pub fn find<'a>(&self, slice: &'a [u8]) -> (r: Option<&'a [u8]>)
        ensures
            r is Some == self@.find(slice@) is Some,
            r matches Some(value) ==> {
                &&& self@.find(slice@) == Some(value@)
                &&& value@.len() <= slice@.len()
            },
    {
        match self {
            PatternType::Regex(matcher) => match matcher.search(slice) {
                Some(span) => Some(slice_subrange(slice, span.0, span.1)),
                None => None,
            },
            PatternType::String(value) => {
                let bytes: &'static [u8] = value.as_bytes();
                if starts_with(slice, bytes) {
                    Some(bytes)
                } else {
                    None
                }
            },
        }
    }
}

/// What the scanner does with the text that a pattern matched.
#[derive(Debug, Clone, Copy, PartialEq, Eq, Structural)]
pub enum Rule {
    /// Emit a token of this kind.
    Emit(Token),
    /// Emit a comment, and a line end in place of the one the comment took.
    LineComment,
    /// Emit a keyword or an identifier.
    Word,
    /// Emit a line end unless the last token is one already.
    LineEnd,
    /// Emit nothing.
    Blank,
}

/// The patterns of a language.
pub struct Pattern {
    // literals and constants
    pub string: PatternType,
    pub number: PatternType,
    // punctuators
    pub open_paren: PatternType,
    pub close_paren: PatternType,
    pub semi: PatternType,
    pub question: PatternType,
    pub colon: PatternType,
    pub equal: PatternType,
    // operators
    pub plus: PatternType,
    pub minus: PatternType,
    pub star: PatternType,
    pub slash: PatternType,
    pub percent: PatternType,
    // identifier
    pub identifier: PatternType,
    // special characters
    pub single_line_comment: PatternType,
    pub multi_line_comment: PatternType,
    pub end_of_line: PatternType,
    pub whitespace: PatternType,
}

/// The number of patterns.
pub const RULES: usize = 18;

/// Patterns in the order in which they are tried, each with what a match of
/// it means.
pub type Table = Seq<(PatternView, Rule)>;

/// The patterns of the language, each anchored at the start of the text.
/// Comments come before the slash, strings and words before numbers, and
/// blanks last.
pub open spec fn language() -> Table {
    seq![
        (PatternView::Regex(r"^//.*([\r\n]|$)"@), Rule::LineComment),
        (PatternView::Regex(r"^/\*(.|[\r\n])*?\*/"@), Rule::Emit(Token::Comment)),
        (PatternView::Regex(r#"^"[^"]*""#@), Rule::Emit(Token::String)),
        (PatternView::Regex(r"^[a-zA-Z_][a-zA-Z0-9_]*"@), Rule::Word),
        (PatternView::Regex(r"^[0-9][0-9_]*(\.[0-9]*)?"@), Rule::Emit(Token::Number)),
        (PatternView::String("(".spec_bytes()), Rule::Emit(Token::OpenParen)),
        (PatternView::String(")".spec_bytes()), Rule::Emit(Token::CloseParen)),
        (PatternView::String("=".spec_bytes()), Rule::Emit(Token::Equal)),
        (PatternView::String("+".spec_bytes()), Rule::Emit(Token::Plus)),
        (PatternView::String("-".spec_bytes()), Rule::Emit(Token::Minus)),
        (PatternView::String("*".spec_bytes()), Rule::Emit(Token::Star)),
        (PatternView::String("/".spec_bytes()), Rule::Emit(Token::Slash)),
        (PatternView::String("%".spec_bytes()), Rule::Emit(Token::Percent)),
        (PatternView::Regex(r"^[\r\n]+"@), Rule::LineEnd),
        (PatternView::String(";".spec_bytes()), Rule::Emit(Token::Semi)),
        (PatternView::String(":".spec_bytes()), Rule::Emit(Token::Colon)),
        (PatternView::String("?".spec_bytes()), Rule::Emit(Token::Question)),
        (PatternView::Regex(r"^[\s\t]+"@), Rule::Blank),
    ]
}

/// The first place from `k` on whose pattern matches a text that is not empty
/// at the start of `rest`, with that text.
pub open spec fn spec_first_hit(table: Table, rest: Seq<u8>, k: int) -> Option<(int, Seq<u8>)>
    decreases table.len() - k,
{
    if k < 0 || k >= table.len() {
        None
    } else {
        match table[k].0.find(rest) {
            Some(value) => if 0 < value.len() <= rest.len() {
                Some((k, value))
            } else {
                spec_first_hit(table, rest, k + 1)
            },
            None => spec_first_hit(table, rest, k + 1),
        }
    }
}

/// A hit is a text that is not empty and no longer than `rest`.
pub proof fn lemma_first_hit(table: Table, rest: Seq<u8>, k: int)
    ensures
        spec_first_hit(table, rest, k) matches Some(hit) ==> {
            &&& k <= hit.0 < table.len()
            &&& 0 < hit.1.len() <= rest.len()
        },
    decreases table.len() - k,
{
    if 0 <= k < table.len() {
        lemma_first_hit(table, rest, k + 1);
    }
}

impl Pattern {
    /// The patterns in the order in which they are tried, each with what a
    /// match of it means.
    pub open spec fn table(&self) -> Table {
        seq![
            (self.single_line_comment@, Rule::LineComment),
            (self.multi_line_comment@, Rule::Emit(Token::Comment)),
            (self.string@, Rule::Emit(Token::String)),
            (self.identifier@, Rule::Word),
            (self.number@, Rule::Emit(Token::Number)),
            (self.open_paren@, Rule::Emit(Token::OpenParen)),
            (self.close_paren@, Rule::Emit(Token::CloseParen)),
            (self.equal@, Rule::Emit(Token::Equal)),
            (self.plus@, Rule::Emit(Token::Plus)),
            (self.minus@, Rule::Emit(Token::Minus)),
            (self.star@, Rule::Emit(Token::Star)),
            (self.slash@, Rule::Emit(Token::Slash)),
            (self.percent@, Rule::Emit(Token::Percent)),
            (self.end_of_line@, Rule::LineEnd),
            (self.semi@, Rule::Emit(Token::Semi)),
            (self.colon@, Rule::Emit(Token::Colon)),
            (self.question@, Rule::Emit(Token::Question)),
            (self.whitespace@, Rule::Blank),
        ]
    }

    /// The patterns of the language.
    pub fn new() -> (patterns: Pattern)
        ensures
            patterns.table() == language(),
    {
        let patterns = Pattern {
            // literals and constants
            string: PatternType::regex(r#"^"[^"]*""#),
            number: PatternType::regex(r"^[0-9][0-9_]*(\.[0-9]*)?"),
            // punctuators
            open_paren: PatternType::String("("),
            close_paren: PatternType::String(")"),
            semi: PatternType::String(";"),
            question: PatternType::String("?"),
            colon: PatternType::String(":"),
            equal: PatternType::String("="),
            // operators
            plus: PatternType::String("+"),
            minus: PatternType::String("-"),
            star: PatternType::String("*"),
            slash: PatternType::String("/"),
            percent: PatternType::String("%"),
            // identifier
            identifier: PatternType::regex(r"^[a-zA-Z_][a-zA-Z0-9_]*"),
            // special characters
            single_line_comment: PatternType::regex(r"^//.*([\r\n]|$)"),
            multi_line_comment: PatternType::regex(r"^/\*(.|[\r\n])*?\*/"),
            end_of_line: PatternType::regex(r"^[\r\n]+"),
            whitespace: PatternType::regex(r"^[\s\t]+"),
        };
        assert(patterns.table() =~= language());
        patterns
    }

    /// The pattern tried in place `k`, and what a match of it means.
    pub fn rule(&self, k: usize) -> (r: (&PatternType, Rule))
        requires
            k < RULES,
        ensures
            r.0@ == self.table()[k as int].0,
            r.1 == self.table()[k as int].1,
    {
        if k == 0 {
            (&self.single_line_comment, Rule::LineComment)
        } else if k == 1 {
            (&self.multi_line_comment, Rule::Emit(Token::Comment))
        } else if k == 2 {
            (&self.string, Rule::Emit(Token::String))
        } else if k == 3 {
            (&self.identifier, Rule::Word)
        } else if k == 4 {
            (&self.number, Rule::Emit(Token::Number))
        } else if k == 5 {
            (&self.open_paren, Rule::Emit(Token::OpenParen))
        } else if k == 6 {
            (&self.close_paren, Rule::Emit(Token::CloseParen))
        } else if k == 7 {
            (&self.equal, Rule::Emit(Token::Equal))
        } else if k == 8 {
            (&self.plus, Rule::Emit(Token::Plus))
        } else if k == 9 {
            (&self.minus, Rule::Emit(Token::Minus))
        } else if k == 10 {
            (&self.star, Rule::Emit(Token::Star))
        } else if k == 11 {
            (&self.slash, Rule::Emit(Token::Slash))
        } else if k == 12 {
            (&self.percent, Rule::Emit(Token::Percent))
        } else if k == 13 {
            (&self.end_of_line, Rule::LineEnd)
        } else if k == 14 {
            (&self.semi, Rule::Emit(Token::Semi))
        } else if k == 15 {
            (&self.colon, Rule::Emit(Token::Colon))
        } else if k == 16 {
            (&self.question, Rule::Emit(Token::Question))
        } else {
            (&self.whitespace, Rule::Blank)
        }
    }

    /// Tries the patterns in order at the start of `rest`. A pattern that
    /// matches the empty text does not count: the scanner could not advance.
    pub fn first_hit<'a>(&self, rest: &'a [u8]) -> (r: Option<(Rule, &'a [u8])>)
        ensures
            r is Some == spec_first_hit(self.table(), rest@, 0) is Some,
            r matches Some(hit) ==> {
                &&& spec_first_hit(self.table(), rest@, 0) matches Some(found)
                &&& hit.0 == self.table()[found.0].1
                &&& hit.1@ == found.1
                &&& 0 < hit.1@.len() <= rest@.len()
            },
    {
        let mut k: usize = 0;
        while k < RULES
            invariant
                k <= RULES,
                self.table().len() == RULES,
                spec_first_hit(self.table(), rest@, 0) == spec_first_hit(
                    self.table(),
                    rest@,
                    k as int,
                ),
            decreases RULES - k,
        {
            let (pattern, rule) = self.rule(k);
            match pattern.find(rest) {
                Some(value) => {
                    if value.len() > 0 {
                        return Some((rule, value));
                    }
                },
                None => {},
            }
            k += 1;
        }
        None
    }
}

} // verus!
