//! What the scanner does once a pattern has matched.

use vstd::prelude::*;
use vstd::string::StringSliceAdditionalSpecFns;

use super::pattern::starts_with;
use super::tokens::{Token, TokenNode};
use super::Lexer;

verus! {

/// The token kind of a word: a keyword where the word is reserved, an
/// identifier otherwise.
pub open spec fn spec_word(value: Seq<u8>) -> Token {
    if value == "let".spec_bytes() {
        Token::Let
    } else if value == "const".spec_bytes() {
        Token::Const
    } else {
        Token::Identifier
    }
}

/// Whether two texts are the same.
fn same_text(a: &[u8], b: &[u8]) -> (r: bool)
    ensures
        r == (a@ == b@),
{
    if a.len() != b.len() {
        return false;
    }
    assert(a@.subrange(0, b@.len() as int) == a@);
    starts_with(a, b)
}

/// Moves the scanner forward by `length` bytes and emits nothing.
pub fn skip(lexer: &mut Lexer, length: usize)
    requires
        old(lexer).index + length <= usize::MAX,
    ensures
        final(lexer).index == old(lexer).index + length,
        final(lexer).tokens == old(lexer).tokens,
{
    lexer.advance(length);
}

/// Handles a run of line breaks: it emits one line end, unless the last token
/// is a line end already, and moves past the run.
pub fn end_of_line(lexer: &mut Lexer, value: &[u8], index: u32)
    requires
        old(lexer).index + value@.len() <= usize::MAX,
    ensures
        final(lexer).index == old(lexer).index + value@.len(),
        final(lexer).tokens@ == if old(lexer).spec_last_type() == Some(Token::Eol) {
            old(lexer).tokens@
        } else {
            old(lexer).tokens@.push(TokenNode { index, token: Token::Eol })
        },
{
    match lexer.last_type() {
        Some(Token::Eol) => skip(lexer, value.len()),
        _ => default(lexer, value, Token::Eol, index),
    }
}

/// Handles a word: `let` and `const` become keywords, any other word an
/// identifier.
pub fn identifier(lexer: &mut Lexer, value: &[u8], index: u32)
    requires
        old(lexer).index + value@.len() <= usize::MAX,
    ensures
        final(lexer).index == old(lexer).index + value@.len(),
        final(lexer).tokens@ == old(lexer).tokens@.push(
            TokenNode { index, token: spec_word(value@) },
        ),
{
    let token = if same_text(value, "let".as_bytes()) {
        Token::Let
    } else if same_text(value, "const".as_bytes()) {
        Token::Const
    } else {
        Token::Identifier
    };
    default(lexer, value, token, index)
}

/// Emits `token` at offset `index` and moves past the text `value`.
pub fn default(lexer: &mut Lexer, value: &[u8], token: Token, index: u32)
    requires
        old(lexer).index + value@.len() <= usize::MAX,
    ensures
        final(lexer).index == old(lexer).index + value@.len(),
        final(lexer).tokens@ == old(lexer).tokens@.push(TokenNode { index, token }),
{
    let node = TokenNode { token, index };
    lexer.push(node);
    skip(lexer, value.len());
}

} // verus!
