//! The token vocabulary shared by the scanner and the parser.

use vstd::prelude::*;

verus! {

/// The kind of a token.
#[derive(Debug, Clone, Copy, PartialEq, Eq, Structural)]
pub enum Token {
    // literals and constants
    Number,
    String,
    // punctuators
    OpenParen,
    CloseParen,
    Semi,
    Question,
    Colon,
    Equal,
    // operators
    Plus,
    Minus,
    Star,
    Slash,
    Percent,
    // identifier
    Identifier,
    // keywords
    Let,
    Const,
    // special
    Comment,
    /// End of line: a separator that may stand for a semicolon.
    Eol,
    /// End of input.
    Eof,
}

/// A token together with the byte offset at which it begins in the source.
#[derive(Debug, Clone, Copy, PartialEq, Eq, Structural)]
pub struct TokenNode {
    pub index: u32,
    pub token: Token,
}

impl Token {
    /// Comments and line ends carry no meaning for the parser.
    pub open spec fn spec_is_trivia(self) -> bool {
        self == Token::Eol || self == Token::Comment
    }

    #[verifier::when_used_as_spec(spec_is_trivia)]
    pub fn is_trivia(self) -> (r: bool)
        ensures
            r == self.spec_is_trivia(),
    {
        self == Token::Eol || self == Token::Comment
    }
}

} // verus!
