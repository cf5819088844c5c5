//! The parser: a cursor over the tokens, and the statements parsed so far.

use vstd::prelude::*;

use crate::ast::statements::Statement;
use crate::lexer::tokens::{Token, TokenNode};
use crate::ast::statements::StatementView;
use crate::ast::traversal::traversable;
use grammar::{
    has_tokens_left, next_index, peek_at, prev_at, skip_trivia, spec_parse, spec_stmt, unexpected,
    ParseError,
};
use statements::parse_stmt;

pub mod expressions;
pub mod grammar;
pub mod mirror;
pub mod order;
pub mod origin;
pub mod precedence;
pub mod shape;
pub mod statements;

verus! {

/// The state of a parse.
pub struct Parser {
    /// The place of the cursor in `tokens`.
    pub index: usize,
    /// The statements parsed so far.
    pub stmts: Vec<Statement>,
    pub tokens: Vec<TokenNode>,
}

impl Parser {
    /// A parser at the start of `tokens`.
    pub fn new(tokens: Vec<TokenNode>) -> (parser: Parser)
        ensures
            parser.index == 0,
            parser.stmts@ == Seq::<Statement>::empty(),
            parser.tokens == tokens,
    {
        Parser { index: 0, stmts: Vec::new(), tokens }
    }

    /// Adds a statement to those parsed so far.
    pub fn push(&mut self, stmt: Statement)
        ensures
            final(self).index == old(self).index,
            final(self).tokens == old(self).tokens,
            final(self).stmts@ == old(self).stmts@.push(stmt),
    {
        self.stmts.push(stmt);
    }

    /// The token before the cursor, whatever its kind; `Eof` where there is
    /// none.
    pub fn prev(&self) -> (node: TokenNode)
        ensures
            node == prev_at(self.tokens@, self.index as int),
    {
        if 0 < self.index && self.index <= self.tokens.len() {
            self.tokens[self.index - 1]
        } else {
            TokenNode { token: Token::Eof, index: 0 }
        }
    }

    /// The place of the first token from the cursor on that is neither a
    /// comment nor a line end.
    fn skip(&self) -> (place: usize)
        ensures
            place == skip_trivia(self.tokens@, self.index as int),
            self.index <= place,
            self.index <= self.tokens@.len() ==> place <= self.tokens@.len(),
    {
        let mut place = self.index;
        proof {
            grammar::lemma_skip_trivia(self.tokens@, self.index as int);
        }
        while place < self.tokens.len() && self.tokens[place].token.is_trivia()
            invariant
                self.index <= place,
                skip_trivia(self.tokens@, self.index as int) == skip_trivia(
                    self.tokens@,
                    place as int,
                ),
            decreases self.tokens@.len() - place,
        {
            place += 1;
        }
        place
    }

    /// The token at the cursor, comments and line ends passed over; `Eof`
    /// where the tokens have run out.
    pub fn peek(&self) -> (node: TokenNode)
        ensures
            node == peek_at(self.tokens@, self.index as int),
    {
        let place = self.skip();
        if place < self.tokens.len() {
            self.tokens[place]
        } else {
            TokenNode { token: Token::Eof, index: 0 }
        }
    }

    /// Takes the token at the cursor and moves the cursor past it, and past
    /// the comments and line ends before it. Where the tokens have run out,
    /// the token is `Eof`, and the cursor moves one place on all the same.
    /// The cursor has to stay within the range of the machine.
    pub fn next(&mut self) -> (node: TokenNode)
        requires
            skip_trivia(old(self).tokens@, old(self).index as int) < usize::MAX,
        ensures
            node == peek_at(old(self).tokens@, old(self).index as int),
            final(self).index == skip_trivia(old(self).tokens@, old(self).index as int) + 1,
            final(self).index == next_index(old(self).tokens@, old(self).index as int),
            final(self).tokens == old(self).tokens,
            final(self).stmts == old(self).stmts,
    {
        let place = self.skip();
        let current = if place < self.tokens.len() {
            self.tokens[place]
        } else {
            TokenNode { token: Token::Eof, index: 0 }
        };
        self.index = place + 1;

        current
    }

    /// Takes the token at the cursor, which has to be of kind `target`. The
    /// cursor moves as with `next`, whatever the token.
    pub fn eat(&mut self, target: Token) -> (r: Result<TokenNode, ParseError>)
        requires
            skip_trivia(old(self).tokens@, old(self).index as int) < usize::MAX,
        ensures
            final(self).index == skip_trivia(old(self).tokens@, old(self).index as int) + 1,
            final(self).index == next_index(old(self).tokens@, old(self).index as int),
            final(self).tokens == old(self).tokens,
            final(self).stmts == old(self).stmts,
            r == if peek_at(old(self).tokens@, old(self).index as int).token == target {
                Ok::<TokenNode, ParseError>(peek_at(old(self).tokens@, old(self).index as int))
            } else {
                Err::<TokenNode, ParseError>(
                    unexpected(peek_at(old(self).tokens@, old(self).index as int), Some(target)),
                )
            },
    {
        let node = self.next();
        if target == node.token {
            return Ok(node);
        }
        Err(ParseError { token: node, expected: Some(target), too_large: false })
    }

    /// Whether a token other than `Eof` is left.
    pub fn has_tokens_left(&self) -> (left: bool)
        ensures
            left == has_tokens_left(self.tokens@, self.index as int),
    {
        match self.peek().token {
            Token::Eof => false,
            _ => true,
        }
    }
}

/// The statements are those of `views`, one for one, each with its buffer in
/// order.
pub open spec fn holds(statements: Seq<Statement>, views: Seq<StatementView>) -> bool {
    &&& statements.len() == views.len()
    &&& forall|k: int|
        0 <= k < statements.len() ==> (#[trigger] statements[k]).wf() && statements[k]@ == views[k]
}

/// Parses `tokens` into statements, up to the first `Eof` or to the end of
/// the tokens. The first token that fits nowhere stops the parse: the error
/// names it, and the kind of token that had to stand in its place where only
/// one kind could. In every statement the nodes encode as many trees as the
/// statement holds expressions, and so every statement can be read back;
/// and every binary node stands directly behind its two operands, the left
/// one first, which are made of the tokens before and behind the operator.
pub fn parse(tokens: Vec<TokenNode>) -> (r: Result<Vec<Statement>, ParseError>)
    requires
        tokens@.len() <= isize::MAX,
    ensures
        match spec_parse(tokens@, 0) {
            Ok(statements) => {
                &&& r matches Ok(parsed)
                &&& holds(parsed@, statements)
                &&& forall|k: int|
                    0 <= k < statements.len() ==> (#[trigger] statements[k]).well_shaped()
                &&& forall|k: int|
                    0 <= k < statements.len() ==> traversable(
                        (#[trigger] statements[k]).nodes(),
                        statements[k].roots() as usize,
                    )
                &&& forall|k: int|
                    0 <= k < statements.len() ==> order::postfix(
                        (#[trigger] statements[k]).nodes(),
                        tokens@,
                    )
            },
            Err(error) => r matches Err(e) && e == error,
        },
{
    let ghost all = tokens@;
    let mut parser = Parser::new(tokens);
    let ghost mut done: Seq<StatementView> = Seq::empty();
    proof {
        shape::lemma_parse_shape(all, 0);
        shape::lemma_parse_traversable(all);
        order::lemma_parse_order(all, 0);
        assert(Seq::<StatementView>::empty() + spec_parse(all, 0)->Ok_0 =~= spec_parse(
            all,
            0,
        )->Ok_0);
    }

    while parser.has_tokens_left()
        invariant
            parser.tokens@ == all,
            tokens@ == all,
            all.len() <= isize::MAX,
            holds(parser.stmts@, done),
            spec_parse(all, 0) == match spec_parse(all, parser.index as int) {
                Ok(rest) => Ok::<Seq<StatementView>, ParseError>(done + rest),
                Err(error) => Err::<Seq<StatementView>, ParseError>(error),
            },
        decreases grammar::remaining(all, parser.index as int),
    {
        let ghost at = parser.index as int;
        proof {
            shape::lemma_stmt_shape(all, at);
        }
        let stmt = match parse_stmt(&mut parser) {
            Err(error) => {
                assert(spec_parse(all, at) == Err::<Seq<StatementView>, ParseError>(error));
                return Err(error);
            },
            Ok(stmt) => stmt,
        };
        parser.push(stmt);
        proof {
            let parsed = spec_stmt(all, at);
            let rest = spec_parse(all, parser.index as int);
            if rest is Ok {
                assert(done + (seq![parsed->statement] + rest->Ok_0) =~= done.push(
                    parsed->statement,
                ) + rest->Ok_0);
            }
            done = done.push(parsed->statement);
        }
    }
    proof {
        assert(done + Seq::<StatementView>::empty() =~= done);
    }

    Ok(parser.stmts)
}

} // verus!
