//! The scanner: it walks the source text from left to right, tries the
//! patterns of the language at each place, and emits a token for each match.

use vstd::prelude::*;
use vstd::slice::slice_subrange;
use vstd::string::StringSliceAdditionalSpecFns;

use pattern::{language, lemma_first_hit, spec_first_hit, Pattern, Rule, Table};
use tokens::{Token, TokenNode};

pub mod handlers;
pub mod matcher;
pub mod pattern;
pub mod stream;
pub mod tokens;

verus! {

/// The state of a scan: the tokens emitted so far and the offset reached.
pub struct Lexer {
    pub tokens: Vec<TokenNode>,
    pub index: usize,
}

/// The scanner met text that no pattern matches.
#[derive(Debug, Clone, Copy, PartialEq, Eq, Structural)]
pub struct LexError {
    /// The byte offset of the text.
    pub index: u32,
}

impl Lexer {
    pub fn advance(&mut self, length: usize)
        requires
            old(self).index + length <= usize::MAX,
        ensures
            final(self).index == old(self).index + length,
            final(self).tokens == old(self).tokens,
    {
        self.index += length
    }

    pub fn push(&mut self, token: TokenNode)
        ensures
            final(self).index == old(self).index,
            final(self).tokens@ == old(self).tokens@.push(token),
    {
        self.tokens.push(token);
    }

    /// The kind of the last token emitted, if there is one.
    pub open spec fn spec_last_type(&self) -> Option<Token> {
        spec_last_type(self.tokens@)
    }

    /// The kind of the last token emitted, if there is one.
    pub fn last_type(&self) -> (r: Option<Token>)
        ensures
            r == self.spec_last_type(),
    {
        let n = self.tokens.len();
        if n == 0 {
            None
        } else {
            Some(self.tokens[n - 1].token)
        }
    }

    pub fn new() -> (lexer: Lexer)
        ensures
            lexer.index == 0,
            lexer.tokens@ == Seq::<TokenNode>::empty(),
    {
        Lexer { tokens: Vec::new(), index: 0 }
    }
}

/// The kind of the last of `tokens`, if there is one.
pub open spec fn spec_last_type(tokens: Seq<TokenNode>) -> Option<Token> {
    if tokens.len() == 0 {
        None
    } else {
        Some(tokens.last().token)
    }
}

/// The tokens after the text `value`, matched at offset `at` by a pattern
/// with the meaning `rule`, has been handled.
pub open spec fn spec_apply(rule: Rule, tokens: Seq<TokenNode>, value: Seq<u8>, at: u32) -> Seq<
    TokenNode,
> {
    match rule {
        Rule::Emit(token) => tokens.push(TokenNode { index: at, token }),
        Rule::LineComment => tokens.push(TokenNode { index: at, token: Token::Comment }).push(
            TokenNode { index: at, token: Token::Eol },
        ),
        Rule::Word => tokens.push(TokenNode { index: at, token: handlers::spec_word(value) }),
        Rule::LineEnd => if spec_last_type(tokens) == Some(Token::Eol) {
            tokens
        } else {
            tokens.push(TokenNode { index: at, token: Token::Eol })
        },
        Rule::Blank => tokens,
    }
}

/// The scan of `source` from offset `pos` on, after `tokens` have been
/// emitted: at each place the first pattern that matches decides, the scan
/// fails where none does, and the end of the text is marked by one `Eof`.
pub open spec fn spec_scan(table: Table, source: Seq<u8>, pos: int, tokens: Seq<TokenNode>)
    -> Result<Seq<TokenNode>, LexError>
    decreases source.len() - pos,
{
    if pos < 0 || pos >= source.len() {
        Ok(tokens.push(TokenNode { index: source.len() as u32, token: Token::Eof }))
    } else {
        match spec_first_hit(table, source.subrange(pos, source.len() as int), 0) {
            None => Err(LexError { index: pos as u32 }),
            Some(hit) => {
                proof {
                    lemma_first_hit(table, source.subrange(pos, source.len() as int), 0);
                }
                spec_scan(
                    table,
                    source,
                    pos + hit.1.len(),
                    spec_apply(table[hit.0].1, tokens, hit.1, pos as u32),
                )
            },
        }
    }
}

/// The tokens of `source`, or the place where the scan fails.
pub open spec fn spec_tokenize(source: Seq<u8>) -> Result<Seq<TokenNode>, LexError> {
    spec_scan(language(), source, 0, Seq::empty())
}

/// Turns source text into tokens. Comments stay in as tokens, each run of line
/// breaks gives at most one line end, and the last token is `Eof`, at the
/// offset where the text ends. Offsets are 32 bits wide, and so the text is at
/// most that long.
pub fn tokenize(buffer: &str) -> (r: Result<Vec<TokenNode>, LexError>)
    requires
        buffer.spec_bytes().len() <= u32::MAX,
    ensures
        match spec_tokenize(buffer.spec_bytes()) {
            Ok(tokens) => r is Ok && r->Ok_0@ == tokens,
            Err(e) => r == Err::<Vec<TokenNode>, LexError>(e),
        },
        r matches Ok(tokens) ==> {
            &&& tokens@.len() > 0
            &&& tokens@.last() == (TokenNode {
                index: buffer.spec_bytes().len() as u32,
                token: Token::Eof,
            })
            &&& stream::open_ended(tokens@.drop_last())
            &&& stream::collapsed(tokens@)
            &&& stream::ordered(tokens@, buffer.spec_bytes().len() as int)
        },
{
    proof {
        stream::lemma_tokenize_stream(buffer.spec_bytes());
    }
    let patterns = Pattern::new();
    let source = buffer.as_bytes();
    let mut lexer = Lexer::new();

    while lexer.index < source.len()
        invariant
            patterns.table() == language(),
            source@ == buffer.spec_bytes(),
            source@.len() <= u32::MAX,
            lexer.index <= source@.len(),
            spec_tokenize(source@) == spec_scan(
                language(),
                source@,
                lexer.index as int,
                lexer.tokens@,
            ),
        decreases source@.len() - lexer.index,
    {
        let slice = slice_subrange(source, lexer.index, source.len());
        let index: u32 = lexer.index as u32;

        match patterns.first_hit(slice) {
            None => {
                return Err(LexError { index });
            },
            Some((rule, value)) => {
                match rule {
                    Rule::LineComment => {
                        handlers::default(&mut lexer, value, Token::Comment, index);
                        // the comment has taken the line break with it
                        lexer.push(TokenNode { index, token: Token::Eol });
                    },
                    Rule::Emit(token) => handlers::default(&mut lexer, value, token, index),
                    Rule::Word => handlers::identifier(&mut lexer, value, index),
                    Rule::LineEnd => handlers::end_of_line(&mut lexer, value, index),
                    Rule::Blank => handlers::skip(&mut lexer, value.len()),
                }
            },
        }
    }

    let end: u32 = source.len() as u32;
    lexer.push(TokenNode { index: end, token: Token::Eof });
    Ok(lexer.tokens)
}

} // verus!
