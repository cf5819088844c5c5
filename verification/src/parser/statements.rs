//! Parsing statements.

use vstd::prelude::*;

use super::expressions::parse_expr;
use super::grammar::{
    lemma_skip_trivia, peek_at, remaining, spec_expr, spec_expr_stmt, spec_stmt,
    spec_variable_stmt, ParseError, ParsedStatement,
};
use super::precedence::Precedence;
use super::shape::lemma_expr_sizes;
use super::Parser;
use crate::ast::expressions::ExpressionNode;
use crate::ast::statements::{Statement, StatementFlag};
use crate::lexer::tokens::Token;
use crate::utils::array_page_buffer::ArrayPageBuffer;
use crate::utils::bit_array::{BitArray, Byte};

verus! {

/// The cursor has moved and `result` holds the statement as `outcome` says.
pub open spec fn gives(
    outcome: ParsedStatement,
    result: Result<Statement, ParseError>,
    from: int,
    to: int,
) -> bool {
    match outcome {
        ParsedStatement::Done { statement, used } => {
            &&& result matches Ok(parsed)
            &&& parsed.wf()
            &&& parsed@ == statement
            &&& to == from + used
        },
        ParsedStatement::Failed { error } => result matches Err(e) && e == error,
    }
}

/// Parses the statement at the cursor: a declaration where it starts with
/// `let` or `const`, an expression otherwise. A semicolon after the statement
/// is taken with it.
pub fn parse_stmt(parser: &mut Parser) -> (r: Result<Statement, ParseError>)
    requires
        remaining(old(parser).tokens@, old(parser).index as int) <= isize::MAX,
        old(parser).tokens@.len() < usize::MAX,
    ensures
        final(parser).tokens == old(parser).tokens,
        final(parser).stmts == old(parser).stmts,
        gives(
            spec_stmt(old(parser).tokens@, old(parser).index as int),
            r,
            old(parser).index as int,
            final(parser).index as int,
        ),
{
    let stmt = match parser.peek().token {
        Token::Let | Token::Const => parse_variable_stmt(parser),
        _ => parse_expr_stmt(parser),
    };
    let stmt = match stmt {
        Err(error) => {
            return Err(error);
        },
        Ok(stmt) => stmt,
    };

    proof {
        lemma_skip_trivia(parser.tokens@, parser.index as int);
        super::shape::lemma_stmt_shape(old(parser).tokens@, old(parser).index as int);
    }
    if let Token::Semi = parser.peek().token {
        parser.next();
    }

    Ok(stmt)
}

/// Parses the declaration at the cursor: the keyword, the name, an equals
/// sign, and the value. The buffer holds the value first, then the name.
pub fn parse_variable_stmt(parser: &mut Parser) -> (r: Result<Statement, ParseError>)
    requires
        remaining(old(parser).tokens@, old(parser).index as int) <= isize::MAX,
        old(parser).tokens@.len() < usize::MAX,
        peek_at(old(parser).tokens@, old(parser).index as int).token == Token::Let || peek_at(
            old(parser).tokens@,
            old(parser).index as int,
        ).token == Token::Const,
    ensures
        final(parser).tokens == old(parser).tokens,
        final(parser).stmts == old(parser).stmts,
        gives(
            spec_variable_stmt(old(parser).tokens@, old(parser).index as int),
            r,
            old(parser).index as int,
            final(parser).index as int,
        ),
{
    let ghost tokens = parser.tokens@;
    proof {
        lemma_skip_trivia(tokens, parser.index as int);
    }
    let node = parser.next();
    let mut flags: Byte = 0;

    match node.token {
        Token::Const => {
            flags |= StatementFlag::IsConst.bit();
            assert(0u8 | 1u8 == 1u8) by (bit_vector);
        },
        _ => (),
    };
    let ghost after = parser.index as int;

    let mut expr = ArrayPageBuffer::<ExpressionNode>::new();
    match parse_expr(parser, &mut expr, Precedence::Default) {
        Err(error) => {
            return Err(error);
        },
        Ok(()) => {},
    }
    let ghost symbol = spec_expr(tokens, after, Precedence::Default, 0);
    proof {
        lemma_expr_sizes(tokens, after, Precedence::Default, 0);
        lemma_skip_trivia(tokens, after + symbol->used);
    }

    match parser.eat(Token::Equal) {
        Err(error) => {
            return Err(error);
        },
        Ok(_) => {},
    }
    let ghost start = parser.index as int;

    let mut value = ArrayPageBuffer::<ExpressionNode>::new();
    match parse_expr(parser, &mut value, Precedence::Default) {
        Err(error) => {
            return Err(error);
        },
        Ok(()) => {},
    }
    proof {
        let parsed = spec_expr(tokens, start, Precedence::Default, 0);
        lemma_expr_sizes(tokens, start, Precedence::Default, 0);
        assert(expr@ =~= symbol->front + symbol->back);
        assert(value@ =~= parsed->front + parsed->back);
    }

    // [Value][Symbol]
    expr.prepend(&mut value);

    Ok(Statement::Variable { expr, flags })
}

/// Parses the expression at the cursor as a statement.
pub fn parse_expr_stmt(parser: &mut Parser) -> (r: Result<Statement, ParseError>)
    requires
        remaining(old(parser).tokens@, old(parser).index as int) <= isize::MAX,
        old(parser).tokens@.len() < usize::MAX,
    ensures
        final(parser).tokens == old(parser).tokens,
        final(parser).stmts == old(parser).stmts,
        gives(
            spec_expr_stmt(old(parser).tokens@, old(parser).index as int),
            r,
            old(parser).index as int,
            final(parser).index as int,
        ),
{
    let mut expr = ArrayPageBuffer::<ExpressionNode>::new();
    match parse_expr(parser, &mut expr, Precedence::Default) {
        Err(error) => {
            return Err(error);
        },
        Ok(()) => {},
    }
    proof {
        let parsed = spec_expr(parser.tokens@, old(parser).index as int, Precedence::Default, 0);
        assert(expr@ =~= parsed->front + parsed->back);
    }

    Ok(Statement::Expression { expr })
}

} // verus!
