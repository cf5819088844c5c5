//! What holds of every token sequence that the scanner gives.

use vstd::prelude::*;

use super::pattern::{language, lemma_first_hit, spec_first_hit, Rule, Table};
use super::tokens::{Token, TokenNode};
use super::{spec_apply, spec_scan, spec_tokenize};

verus! {

/// Two line ends stand side by side at place `i`.
pub open spec fn double_line_end(tokens: Seq<TokenNode>, i: int) -> bool {
    tokens[i].token == Token::Eol && tokens[i + 1].token == Token::Eol
}

/// The offset of the token at place `i` lies behind that of the next token.
pub open spec fn steps_back(tokens: Seq<TokenNode>, i: int) -> bool {
    tokens[i].index > tokens[i + 1].index
}

/// No two line ends stand side by side.
pub open spec fn collapsed(tokens: Seq<TokenNode>) -> bool {
    forall|i: int| 0 <= i < tokens.len() - 1 ==> !#[trigger] double_line_end(tokens, i)
}

/// No token marks the end of the input.
pub open spec fn open_ended(tokens: Seq<TokenNode>) -> bool {
    forall|i: int| 0 <= i < tokens.len() ==> (#[trigger] tokens[i]).token != Token::Eof
}

/// The offsets do not go back, and none lies beyond `bound`.
pub open spec fn ordered(tokens: Seq<TokenNode>, bound: int) -> bool {
    &&& forall|i: int| 0 <= i < tokens.len() - 1 ==> !#[trigger] steps_back(tokens, i)
    &&& forall|i: int| 0 <= i < tokens.len() ==> (#[trigger] tokens[i]).index <= bound
}

/// No pattern of the table emits a line end or the end of the input as such.
pub open spec fn plain(table: Table) -> bool {
    forall|k: int|
        0 <= k < table.len() ==> ((#[trigger] table[k]).1 matches Rule::Emit(token) ==> token
            != Token::Eol && token != Token::Eof)
}

/// A token behind tokens in order keeps them in order, unless it is a second
/// line end or lies before the last of them.
proof fn lemma_push(tokens: Seq<TokenNode>, node: TokenNode, bound: int)
    requires
        collapsed(tokens),
        ordered(tokens, node.index as int),
        node.index <= bound,
        !(node.token == Token::Eol && tokens.len() > 0 && tokens.last().token == Token::Eol),
    ensures
        collapsed(tokens.push(node)),
        ordered(tokens.push(node), bound),
        open_ended(tokens) && node.token != Token::Eof ==> open_ended(tokens.push(node)),
{
    let out = tokens.push(node);
    assert forall|i: int| 0 <= i < out.len() - 1 implies !#[trigger] double_line_end(out, i) by {
        if i + 1 < tokens.len() {
            assert(!double_line_end(tokens, i));
        }
    }
    assert forall|i: int| 0 <= i < out.len() - 1 implies !#[trigger] steps_back(out, i) by {
        if i + 1 < tokens.len() {
            assert(!steps_back(tokens, i));
        } else {
            assert(tokens[i].index <= node.index);
        }
    }
    assert forall|i: int| 0 <= i < out.len() implies (#[trigger] out[i]).index <= bound by {
        if i < tokens.len() {
            assert(tokens[i].index <= node.index);
        }
    }
}

/// One handled match keeps the tokens in order, without two line ends side
/// by side and without an end of input.
proof fn lemma_apply(rule: Rule, tokens: Seq<TokenNode>, value: Seq<u8>, at: u32)
    requires
        rule matches Rule::Emit(token) ==> token != Token::Eol && token != Token::Eof,
        collapsed(tokens),
        open_ended(tokens),
        ordered(tokens, at as int),
    ensures
        collapsed(spec_apply(rule, tokens, value, at)),
        open_ended(spec_apply(rule, tokens, value, at)),
        ordered(spec_apply(rule, tokens, value, at), at as int),
{
    match rule {
        Rule::Emit(token) => {
            lemma_push(tokens, TokenNode { index: at, token }, at as int);
        },
        Rule::LineComment => {
            let comment = TokenNode { index: at, token: Token::Comment };
            lemma_push(tokens, comment, at as int);
            lemma_push(tokens.push(comment), TokenNode { index: at, token: Token::Eol }, at as int);
        },
        Rule::Word => {
            lemma_push(
                tokens,
                TokenNode { index: at, token: super::handlers::spec_word(value) },
                at as int,
            );
        },
        Rule::LineEnd => {
            if super::spec_last_type(tokens) != Some(Token::Eol) {
                lemma_push(tokens, TokenNode { index: at, token: Token::Eol }, at as int);
            }
        },
        Rule::Blank => {},
    }
}

/// Tokens within a bound are within every greater bound.
proof fn lemma_ordered_on(tokens: Seq<TokenNode>, bound: int, wider: int)
    requires
        ordered(tokens, bound),
        bound <= wider,
    ensures
        ordered(tokens, wider),
{
}

/// A scan that comes through gives tokens in the order of the text, closed by
/// one end of input at the offset where the text ends, and without two line
/// ends side by side.
pub proof fn lemma_scan_stream(table: Table, source: Seq<u8>, pos: int, tokens: Seq<TokenNode>)
    requires
        plain(table),
        source.len() <= u32::MAX,
        0 <= pos <= source.len(),
        collapsed(tokens),
        open_ended(tokens),
        ordered(tokens, pos),
    ensures
        spec_scan(table, source, pos, tokens) matches Ok(stream) ==> {
            &&& stream.len() > 0
            &&& stream.last() == (TokenNode { index: source.len() as u32, token: Token::Eof })
            &&& open_ended(stream.drop_last())
            &&& collapsed(stream)
            &&& ordered(stream, source.len() as int)
        },
    decreases source.len() - pos,
{
    if pos >= source.len() {
        let end = TokenNode { index: source.len() as u32, token: Token::Eof };
        lemma_push(tokens, end, source.len() as int);
        assert(tokens.push(end).drop_last() =~= tokens);
    } else {
        let rest = source.subrange(pos, source.len() as int);
        lemma_first_hit(table, rest, 0);
        if let Some(hit) = spec_first_hit(table, rest, 0) {
            let rule = table[hit.0].1;
            lemma_apply(rule, tokens, hit.1, pos as u32);
            let next = spec_apply(rule, tokens, hit.1, pos as u32);
            lemma_ordered_on(next, pos, pos + hit.1.len());
            lemma_scan_stream(table, source, pos + hit.1.len(), next);
        }
    }
}

/// The patterns of the language emit neither a line end nor the end of the
/// input as a token of their own.
pub proof fn lemma_language_plain()
    ensures
        plain(language()),
{
    let table = language();
    assert forall|k: int| 0 <= k < table.len() implies ((#[trigger] table[k]).1 matches Rule::Emit(
        token,
    ) ==> token != Token::Eol && token != Token::Eof) by {
        assert(table.len() == 18);
        if k == 0 {
        } else if k == 1 {
        } else if k == 2 {
        } else if k == 3 {
        } else if k == 4 {
        } else if k == 5 {
        } else if k == 6 {
        } else if k == 7 {
        } else if k == 8 {
        } else if k == 9 {
        } else if k == 10 {
        } else if k == 11 {
        } else if k == 12 {
        } else if k == 13 {
        } else if k == 14 {
        } else if k == 15 {
        } else if k == 16 {
        } else {
        }
    }
}

/// The tokens of a text stand in the order of the text, the last of them,
/// and no other, is the end of input, at the offset where the text ends, and
/// no two line ends stand side by side.
pub proof fn lemma_tokenize_stream(source: Seq<u8>)
    requires
        source.len() <= u32::MAX,
    ensures
        spec_tokenize(source) matches Ok(stream) ==> {
            &&& stream.len() > 0
            &&& stream.last() == (TokenNode { index: source.len() as u32, token: Token::Eof })
            &&& open_ended(stream.drop_last())
            &&& collapsed(stream)
            &&& ordered(stream, source.len() as int)
        },
{
    lemma_language_plain();
    lemma_scan_stream(language(), source, 0, Seq::empty());
}

} // verus!
