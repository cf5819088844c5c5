//! Parsing expressions by precedence climbing.

use vstd::prelude::*;

use super::grammar::{
    is_binary_operator, lemma_skip_trivia, next_index, oversize, peek_at, remaining, spec_binary,
    spec_expr, spec_led, spec_nud, spec_step, spec_ternary, ParseError, Parsed,
};
use super::order::{lemma_expr_order, postfix};
use super::precedence::{led_power, nud_power, spec_led_power, Precedence};
use super::shape::{lemma_expr_sizes, lemma_nud_sizes, lemma_step_sizes};
use super::Parser;
use crate::ast::expressions::{Expression, ExpressionKind, ExpressionNode, MAX_EXPRESSION_SIZE};
use crate::lexer::tokens::{Token, TokenNode};
use crate::utils::array_page_buffer::ArrayPageBuffer;

verus! {

/// The buffer can take a node for each token from place `i` on, at either
/// end, without its indices leaving the range of the machine, and the cursor
/// can move past the last token.
pub open spec fn room(expr: Expression, tokens: Seq<TokenNode>, i: int) -> bool {
    &&& expr.end_index() + remaining(tokens, i) <= isize::MAX
    &&& expr.start_index() - remaining(tokens, i) >= isize::MIN
    &&& tokens.len() < usize::MAX
}

/// The buffer and the cursor have changed as `outcome` says, and `result`
/// reports it.
pub open spec fn follows(
    outcome: Parsed,
    result: Result<(), ParseError>,
    before: Expression,
    after: Expression,
    from: int,
    to: int,
) -> bool {
    match outcome {
        Parsed::Done { front, back, used } => {
            &&& result is Ok
            &&& after@ == front + before@ + back
            &&& after.start_index() == before.start_index() - front.len()
            &&& after.end_index() == before.end_index() + back.len()
            &&& to == from + used
        },
        Parsed::Failed { error } => result == Err::<(), ParseError>(error),
    }
}

/// The error for an operator that finds the buffer full.
fn too_large(index: u32, token: Token) -> (error: ParseError)
    ensures
        error == oversize(TokenNode { index, token }),
{
    ParseError { token: TokenNode { index, token }, expected: None, too_large: true }
}

/// Parses the expression at the cursor into `expr`, as far as its operators
/// bind tighter than `prev_power`. What `expr` held stays, between the nodes
/// that the expression adds: those of the branches of a conditional in
/// front, the others behind. An operator that would close an expression of
/// more than `MAX_EXPRESSION_SIZE` nodes, those that `expr` held counted,
/// stops the parse. In an expression parsed into an empty buffer, every
/// binary node stands directly behind its two operands, the left one first,
/// and they are made of the tokens before and behind the operator.
#[verifier::rlimit(40)]
pub fn parse_expr(parser: &mut Parser, expr: &mut Expression, prev_power: Precedence) -> (r:
    Result<(), ParseError>)
    requires
        old(expr).wf(),
        room(*old(expr), old(parser).tokens@, old(parser).index as int),
    ensures
        final(expr).wf(),
        final(parser).tokens == old(parser).tokens,
        final(parser).stmts == old(parser).stmts,
        follows(
            spec_expr(
                old(parser).tokens@,
                old(parser).index as int,
                prev_power,
                old(expr)@.len(),
            ),
            r,
            *old(expr),
            *final(expr),
            old(parser).index as int,
            final(parser).index as int,
        ),
        r is Ok && old(expr)@.len() == 0 ==> postfix(final(expr)@, old(parser).tokens@),
    decreases remaining(old(parser).tokens@, old(parser).index as int), 2nat,
{
    let ghost tokens = parser.tokens@;
    let ghost from = parser.index as int;
    let ghost held = old(expr)@.len();

    // --- nud --- //
    let node = parser.peek();
    let nud_power = nud_power(&node);

    let started = match node.token {
        Token::Number | Token::Identifier => parse_literal_expr(parser, expr),
        Token::Plus | Token::Minus => parse_prefix_expr(parser, expr, nud_power),
        Token::OpenParen => parse_block_expr(parser, expr),
        _ => Err(ParseError { token: node, expected: None, too_large: false }),
    };
    match started {
        Err(error) => {
            return Err(error);
        },
        Ok(()) => {},
    }
    let ghost start = parser.index as int;
    let ghost nud = spec_nud(tokens, from, held);
    let ghost total = spec_led(tokens, start, prev_power, nud->front, nud->back, held);
    let ghost mut front = nud->front;
    let ghost mut back = nud->back;
    proof {
        lemma_nud_sizes(tokens, from, held);
    }

    // --- led --- //
    loop
        invariant
            expr.wf(),
            parser.tokens@ == tokens,
            parser.tokens == old(parser).tokens,
            parser.stmts == old(parser).stmts,
            from == old(parser).index,
            held == old(expr)@.len(),
            from < start <= parser.index <= tokens.len(),
            spec_expr(tokens, from, prev_power, held) == total.after((start - from) as nat),
            room(*expr, tokens, parser.index as int),
            expr@ == front + old(expr)@ + back,
            expr.start_index() == old(expr).start_index() - front.len(),
            expr.end_index() == old(expr).end_index() + back.len(),
            total == spec_led(tokens, parser.index as int, prev_power, front, back, held).after(
                (parser.index - start) as nat,
            ),
        ensures
            expr.wf(),
            parser.tokens == old(parser).tokens,
            parser.stmts == old(parser).stmts,
            from < start <= parser.index,
            spec_expr(tokens, from, prev_power, held) == total.after((start - from) as nat),
            expr@ == front + old(expr)@ + back,
            expr.start_index() == old(expr).start_index() - front.len(),
            expr.end_index() == old(expr).end_index() + back.len(),
            total == (Parsed::Done { front, back, used: (parser.index - start) as nat }),
        decreases tokens.len() - parser.index,
    {
        let node = parser.peek();
        match node.token {
            Token::Eof | Token::Semi => {
                break ;
            },
            _ => (),
        };

        let next_power = led_power(&node);

        if next_power.rank() <= prev_power.rank() {
            break ;
        }
        let ghost at = parser.index as int;
        let ghost after = next_index(tokens, at);
        let ghost inner = expr@;
        proof {
            lemma_skip_trivia(tokens, at);
            lemma_step_sizes(tokens, after, node, next_power, inner.len());
        }

        match parse_led_expr(parser, expr, node, next_power) {
            Err(error) => {
                return Err(error);
            },
            Ok(()) => {},
        }
        proof {
            let step = spec_step(tokens, after, node, next_power, inner.len());
            assert(step is Done);
            assert(expr@ == step->front + inner + step->back);
            lemma_led_progress(tokens, start, at, prev_power, front, back, held, total);
            lemma_spliced(step->front, front, old(expr)@, back, step->back);
            front = step->front + front;
            back = back + step->back;
        }
    }
    proof {
        lemma_expr_order(tokens, from, prev_power, held);
        if held == 0 {
            assert(front + old(expr)@ + back =~= front + back);
        }
    }
    Ok(())
}

/// Hands the operator at the cursor, which binds with `power`, to what
/// parses its kind.
fn parse_led_expr(
    parser: &mut Parser,
    expr: &mut Expression,
    node: TokenNode,
    power: Precedence,
) -> (r: Result<(), ParseError>)
    requires
        old(expr).wf(),
        room(*old(expr), old(parser).tokens@, old(parser).index as int),
        node == peek_at(old(parser).tokens@, old(parser).index as int),
        node.token != Token::Eof,
    ensures
        final(expr).wf(),
        final(parser).tokens == old(parser).tokens,
        final(parser).stmts == old(parser).stmts,
        follows(
            spec_step(
                old(parser).tokens@,
                next_index(old(parser).tokens@, old(parser).index as int),
                node,
                power,
                old(expr)@.len(),
            ).after(
                (next_index(old(parser).tokens@, old(parser).index as int) - old(
                    parser,
                ).index) as nat,
            ),
            r,
            *old(expr),
            *final(expr),
            old(parser).index as int,
            final(parser).index as int,
        ),
    decreases remaining(old(parser).tokens@, old(parser).index as int), 1nat,
{
    // led handler
    match node.token {
        Token::Plus | Token::Minus => parse_binary_expr(parser, expr, power),
        Token::Star | Token::Slash | Token::Percent => parse_binary_expr(parser, expr, power),
        Token::Question => parse_ternary_expr(parser, expr, power),
        _ => Err(ParseError { token: node, expected: None, too_large: false }),
    }
}

/// Once an operator has added its operands and itself, the outcome of the
/// whole is the outcome of going on from there.
proof fn lemma_led_progress(
    tokens: Seq<TokenNode>,
    start: int,
    at: int,
    power: Precedence,
    front: Seq<ExpressionNode>,
    back: Seq<ExpressionNode>,
    held: nat,
    total: Parsed,
)
    requires
        start <= at,
        spec_led_power(peek_at(tokens, at).token).spec_rank() > power.spec_rank(),
        spec_step(
            tokens,
            next_index(tokens, at),
            peek_at(tokens, at),
            spec_led_power(peek_at(tokens, at).token),
            held + front.len() + back.len(),
        ) is Done,
        total == spec_led(tokens, at, power, front, back, held).after((at - start) as nat),
    ensures
        ({
            let after = next_index(tokens, at);
            let step = spec_step(
                tokens,
                after,
                peek_at(tokens, at),
                spec_led_power(peek_at(tokens, at).token),
                held + front.len() + back.len(),
            );
            total == spec_led(
                tokens,
                after + step->used,
                power,
                step->front + front,
                back + step->back,
                held,
            ).after((after + step->used - start) as nat)
        }),
{
    lemma_skip_trivia(tokens, at);
}

/// Nodes added around nodes that were added around a buffer.
proof fn lemma_spliced(
    outer_front: Seq<ExpressionNode>,
    front: Seq<ExpressionNode>,
    held: Seq<ExpressionNode>,
    back: Seq<ExpressionNode>,
    outer_back: Seq<ExpressionNode>,
)
    ensures
        outer_front + (front + held + back) + outer_back == (outer_front + front) + held + (back
            + outer_back),
{
    assert(outer_front + (front + held + back) + outer_back =~= (outer_front + front) + held + (
    back + outer_back));
}

/// Adds the literal at the cursor.
fn parse_literal_expr(parser: &mut Parser, expr: &mut Expression) -> (r: Result<(), ParseError>)
    requires
        old(expr).wf(),
        room(*old(expr), old(parser).tokens@, old(parser).index as int),
        peek_at(old(parser).tokens@, old(parser).index as int).token == Token::Number || peek_at(
            old(parser).tokens@,
            old(parser).index as int,
        ).token == Token::Identifier,
    ensures
        final(expr).wf(),
        final(parser).tokens == old(parser).tokens,
        final(parser).stmts == old(parser).stmts,
        follows(
            spec_nud(old(parser).tokens@, old(parser).index as int, old(expr)@.len()),
            r,
            *old(expr),
            *final(expr),
            old(parser).index as int,
            final(parser).index as int,
        ),
{
    proof {
        lemma_skip_trivia(parser.tokens@, parser.index as int);
    }
    let TokenNode { index, token } = parser.next();
    let literal = ExpressionNode::new(index, 1, token, ExpressionKind::Literal);

    expr.push(literal);
    proof {
        assert(expr@ =~= Seq::<ExpressionNode>::empty() + old(expr)@ + seq![literal]);
    }
    Ok(())
}

/// Parses the operand of the sign at the cursor, and adds the sign after it.
fn parse_prefix_expr(parser: &mut Parser, expr: &mut Expression, power: Precedence) -> (r:
    Result<(), ParseError>)
    requires
        old(expr).wf(),
        room(*old(expr), old(parser).tokens@, old(parser).index as int),
        peek_at(old(parser).tokens@, old(parser).index as int).token == Token::Plus || peek_at(
            old(parser).tokens@,
            old(parser).index as int,
        ).token == Token::Minus,
        power == Precedence::Unary,
    ensures
        final(expr).wf(),
        final(parser).tokens == old(parser).tokens,
        final(parser).stmts == old(parser).stmts,
        follows(
            spec_nud(old(parser).tokens@, old(parser).index as int, old(expr)@.len()),
            r,
            *old(expr),
            *final(expr),
            old(parser).index as int,
            final(parser).index as int,
        ),
    decreases remaining(old(parser).tokens@, old(parser).index as int), 1nat,
{
    let ghost tokens = parser.tokens@;
    let ghost held = old(expr)@.len();
    proof {
        lemma_skip_trivia(tokens, parser.index as int);
    }
    let TokenNode { index, token } = parser.next();
    let ghost after = parser.index as int;
    match parse_expr(parser, expr, power) {
        Err(error) => {
            return Err(error);
        },
        Ok(()) => {},
    }
    proof {
        lemma_expr_sizes(tokens, after, power, held);
    }
    let size = expr.len();
    if size >= MAX_EXPRESSION_SIZE {
        return Err(too_large(index, token));
    }
    let operator = ExpressionNode::new(index, size + 1, token, ExpressionKind::Prefix);
    expr.push(operator);
    proof {
        let inner = spec_expr(tokens, after, power, held);
        assert(expr@ =~= inner->front + old(expr)@ + inner->back.push(operator));
    }
    Ok(())
}

/// Parses the right operand of the operator at the cursor, and adds the
/// operator after it: left operand, right operand, operator.
fn parse_binary_expr(parser: &mut Parser, expr: &mut Expression, power: Precedence) -> (r: Result<
    (),
    ParseError,
>)
    requires
        old(expr).wf(),
        room(*old(expr), old(parser).tokens@, old(parser).index as int),
        is_binary_operator(peek_at(old(parser).tokens@, old(parser).index as int).token),
    ensures
        final(expr).wf(),
        final(parser).tokens == old(parser).tokens,
        final(parser).stmts == old(parser).stmts,
        follows(
            spec_binary(
                old(parser).tokens@,
                next_index(old(parser).tokens@, old(parser).index as int),
                peek_at(old(parser).tokens@, old(parser).index as int),
                power,
                old(expr)@.len(),
            ).after(
                (next_index(old(parser).tokens@, old(parser).index as int) - old(
                    parser,
                ).index) as nat,
            ),
            r,
            *old(expr),
            *final(expr),
            old(parser).index as int,
            final(parser).index as int,
        ),
    decreases remaining(old(parser).tokens@, old(parser).index as int), 0nat,
{
    let ghost tokens = parser.tokens@;
    let ghost held = old(expr)@.len();
    proof {
        lemma_skip_trivia(tokens, parser.index as int);
    }
    let TokenNode { index, token } = parser.next();
    let ghost after = parser.index as int;
    match parse_expr(parser, expr, power) {
        Err(error) => {
            return Err(error);
        },
        Ok(()) => {},
    }
    proof {
        lemma_expr_sizes(tokens, after, power, held);
    }
    let size = expr.len();
    if size >= MAX_EXPRESSION_SIZE {
        return Err(too_large(index, token));
    }
    let operator = ExpressionNode::new(index, size + 1, token, ExpressionKind::Binary);
    expr.push(operator);
    proof {
        let right = spec_expr(tokens, after, power, held);
        assert(expr@ =~= right->front + old(expr)@ + right->back.push(operator));
    }
    Ok(())
}

/// Parses the two branches of the conditional whose question mark stands at
/// the cursor. The condition is in `expr` already; the branches are parsed on
/// their own and moved to its front, the one after the colon first, and the
/// operator goes to the back: right, middle, left, operator.
#[verifier::rlimit(40)]
fn parse_ternary_expr(parser: &mut Parser, expr: &mut Expression, power: Precedence) -> (r: Result<
    (),
    ParseError,
>)
    requires
        old(expr).wf(),
        room(*old(expr), old(parser).tokens@, old(parser).index as int),
        peek_at(old(parser).tokens@, old(parser).index as int).token == Token::Question,
    ensures
        final(expr).wf(),
        final(parser).tokens == old(parser).tokens,
        final(parser).stmts == old(parser).stmts,
        follows(
            spec_ternary(
                old(parser).tokens@,
                next_index(old(parser).tokens@, old(parser).index as int),
                peek_at(old(parser).tokens@, old(parser).index as int),
                power,
                old(expr)@.len(),
            ).after(
                (next_index(old(parser).tokens@, old(parser).index as int) - old(
                    parser,
                ).index) as nat,
            ),
            r,
            *old(expr),
            *final(expr),
            old(parser).index as int,
            final(parser).index as int,
        ),
    decreases remaining(old(parser).tokens@, old(parser).index as int), 0nat,
{
    let ghost tokens = parser.tokens@;
    let ghost from = parser.index as int;
    proof {
        lemma_skip_trivia(tokens, from);
        expr.lemma_bounds();
    }
    let TokenNode { index, token } = parser.next();
    let ghost after = parser.index as int;
    let mut tmp = ArrayPageBuffer::<ExpressionNode>::new();

    match parse_expr(parser, &mut tmp, power) {
        Err(error) => {
            return Err(error);
        },
        Ok(()) => {},
    }
    let ghost middle = spec_expr(tokens, after, power, 0);
    proof {
        lemma_expr_sizes(tokens, after, power, 0);
        lemma_skip_trivia(tokens, after + middle->used);
        assert(tmp@ =~= middle->front + middle->back);
    }
    expr.prepend(&mut tmp);

    // eat middle token
    match parser.eat(Token::Colon) {
        Err(error) => {
            return Err(error);
        },
        Ok(_) => {},
    }
    let ghost branch = parser.index as int;

    match parse_expr(parser, &mut tmp, power) {
        Err(error) => {
            return Err(error);
        },
        Ok(()) => {},
    }
    let ghost right = spec_expr(tokens, branch, power, 0);
    proof {
        lemma_expr_sizes(tokens, branch, power, 0);
        assert(tmp@ =~= right->front + right->back);
    }
    expr.prepend(&mut tmp);

    let size = expr.len();
    if size >= MAX_EXPRESSION_SIZE {
        return Err(too_large(index, token));
    }
    let operator = ExpressionNode::new(index, size + 1, token, ExpressionKind::Ternary);

    // [R][M][L]+[T]
    expr.push(operator);
    proof {
        assert(expr@ =~= ((right->front + right->back) + (middle->front + middle->back)) + old(
            expr,
        )@ + seq![operator]);
    }
    Ok(())
}

/// Sets the nodes of `inner` behind those of `expr`, in their order.
fn copy_nodes(expr: &mut Expression, inner: &Expression)
    requires
        old(expr).wf(),
        inner.wf(),
        old(expr).end_index() + inner@.len() <= isize::MAX,
    ensures
        final(expr).wf(),
        final(expr)@ == old(expr)@ + inner@,
        final(expr).start_index() == old(expr).start_index(),
        final(expr).end_index() == old(expr).end_index() + inner@.len(),
{
    let count = inner.len();
    let mut k: usize = 0;
    proof {
        assert(expr@ =~= old(expr)@ + inner@.take(0));
    }
    while k < count
        invariant
            expr.wf(),
            inner.wf(),
            k <= count,
            count == inner@.len(),
            old(expr).end_index() + inner@.len() <= isize::MAX,
            expr@ == old(expr)@ + inner@.take(k as int),
            expr.start_index() == old(expr).start_index(),
            expr.end_index() == old(expr).end_index() + k,
        decreases count - k,
    {
        match inner.get(k) {
            Some(node) => {
                expr.push(*node);
            },
            None => {},
        }
        k += 1;
        proof {
            assert(expr@ =~= old(expr)@ + inner@.take(k as int));
        }
    }
    proof {
        assert(inner@.take(count as int) =~= inner@);
    }
}

/// Parses the expression in parentheses whose opening parenthesis stands at
/// the cursor. The expression is parsed on its own; then its nodes are set
/// behind those of `expr`, and a block node behind them.
fn parse_block_expr(parser: &mut Parser, expr: &mut Expression) -> (r: Result<(), ParseError>)
    requires
        old(expr).wf(),
        room(*old(expr), old(parser).tokens@, old(parser).index as int),
        peek_at(old(parser).tokens@, old(parser).index as int).token == Token::OpenParen,
    ensures
        final(expr).wf(),
        final(parser).tokens == old(parser).tokens,
        final(parser).stmts == old(parser).stmts,
        follows(
            spec_nud(old(parser).tokens@, old(parser).index as int, old(expr)@.len()),
            r,
            *old(expr),
            *final(expr),
            old(parser).index as int,
            final(parser).index as int,
        ),
    decreases remaining(old(parser).tokens@, old(parser).index as int), 1nat,
{
    let ghost tokens = parser.tokens@;
    proof {
        lemma_skip_trivia(tokens, parser.index as int);
        expr.lemma_bounds();
    }
    let TokenNode { index, token } = parser.next();
    let ghost after = parser.index as int;
    let mut inner = ArrayPageBuffer::<ExpressionNode>::new();
    match parse_expr(parser, &mut inner, Precedence::Default) {
        Err(error) => {
            return Err(error);
        },
        Ok(()) => {},
    }
    let ghost inside = spec_expr(tokens, after, Precedence::Default, 0);
    proof {
        lemma_expr_sizes(tokens, after, Precedence::Default, 0);
        lemma_skip_trivia(tokens, after + inside->used);
        assert(inner@ =~= inside->front + inside->back);
    }

    match parser.eat(Token::CloseParen) {
        Err(error) => {
            return Err(error);
        },
        Ok(_) => {},
    }

    let count = inner.len();
    let size = expr.len();
    if count >= MAX_EXPRESSION_SIZE || size >= MAX_EXPRESSION_SIZE - count {
        return Err(too_large(index, token));
    }
    copy_nodes(expr, &inner);
    let operator = ExpressionNode::new(index, size + count + 1, token, ExpressionKind::Block);

    expr.push(operator);
    proof {
        assert(expr@ =~= Seq::<ExpressionNode>::empty() + old(expr)@ + (inside->front
            + inside->back).push(operator));
    }
    Ok(())
}

} // verus!
