//! What holds of every expression that the grammar accepts: its nodes form
//! one tree, it uses up at least one token, it adds no more nodes than it
//! uses tokens, and only a conditional that is not in parentheses puts nodes
//! to the front.

use vstd::prelude::*;

use super::grammar::{
    flags_of, has_tokens_left, is_binary_operator, lemma_skip_trivia, next_index, node_of,
    peek_at, spec_expr, spec_led, spec_nud, spec_parse, spec_step, spec_stmt,
    spec_variable_stmt, Parsed, ParsedStatement,
};
use super::precedence::{spec_led_power, Precedence};
use crate::ast::expressions::{ExpressionKind, ExpressionNode};
use crate::ast::forest::{
    is_forest, is_tree, lemma_forest_concat, lemma_forest_insert, lemma_forest_push, weight,
};
use crate::ast::statements::StatementView;
use crate::ast::traversal::{lemma_traversable, traversable};
use crate::lexer::tokens::{Token, TokenNode};
use crate::utils::bit_array::BIT_1;

verus! {

/// A node without operands is a tree.
pub proof fn lemma_leaf(node: ExpressionNode)
    requires
        node.kind == ExpressionKind::Literal,
    ensures
        is_tree(seq![node]),
{
    let none = Seq::<ExpressionNode>::empty();
    assert(is_forest(none));
    assert(weight(none) == 0);
    lemma_forest_push(none, node);
    assert(none.push(node) =~= seq![node]);
}

/// A node with one operand, set after a tree, closes it into one tree.
proof fn lemma_wrap(front: Seq<ExpressionNode>, back: Seq<ExpressionNode>, node: ExpressionNode)
    requires
        is_tree(front + back),
        node.kind.spec_arity() == 1,
    ensures
        is_tree(front + back.push(node)),
        is_tree(Seq::<ExpressionNode>::empty() + (front + back).push(node)),
{
    lemma_forest_push(front + back, node);
    assert(front + back.push(node) =~= (front + back).push(node));
    assert(Seq::<ExpressionNode>::empty() + (front + back).push(node) =~= (front + back).push(
        node,
    ));
}

/// A token that binds tighter than a conditional is an operator between two
/// operands.
pub proof fn lemma_tight_is_binary(token: Token)
    ensures
        spec_led_power(token).spec_rank() >= 2 ==> is_binary_operator(token),
        spec_led_power(token).spec_rank() <= 3,
{
}

/// The start of an expression is one tree, all of it at the back.
pub proof fn lemma_nud_shape(tokens: Seq<TokenNode>, i: int, held: nat)
    ensures
        spec_nud(tokens, i, held) matches Parsed::Done { front, back, used } ==> {
            &&& is_tree(front + back)
            &&& front.len() == 0
            &&& 1 <= used
            &&& front.len() + back.len() <= used
            &&& 0 <= i
            &&& i + used <= tokens.len()
        },
    decreases tokens.len() - i, 2nat,
{
    let node = peek_at(tokens, i);
    let after = next_index(tokens, i);
    lemma_skip_trivia(tokens, i);
    match node.token {
        Token::Number | Token::Identifier => {
            lemma_leaf(node_of(node, ExpressionKind::Literal));
            assert(Seq::<ExpressionNode>::empty() + seq![node_of(node, ExpressionKind::Literal)]
                =~= seq![node_of(node, ExpressionKind::Literal)]);
        },
        Token::Plus | Token::Minus => {
            lemma_expr_shape(tokens, after, Precedence::Unary, held);
            if let Parsed::Done { front, back, used } = spec_expr(
                tokens,
                after,
                Precedence::Unary,
                held,
            ) {
                lemma_wrap(front, back, node_of(node, ExpressionKind::Prefix));
            }
        },
        Token::OpenParen => {
            lemma_expr_shape(tokens, after, Precedence::Default, 0);
            if let Parsed::Done { front, back, used } = spec_expr(
                tokens,
                after,
                Precedence::Default,
                0,
            ) {
                lemma_wrap(front, back, node_of(node, ExpressionKind::Block));
                lemma_skip_trivia(tokens, after + used);
            }
        },
        _ => {},
    }
}

/// An expression is one tree, uses up at least one token, adds no more
/// nodes than it uses tokens, and ends before a token that does not bind
/// tighter than `power`. Unless `power` is the loosest, all its nodes are at
/// the back.
pub proof fn lemma_expr_shape(tokens: Seq<TokenNode>, i: int, power: Precedence, held: nat)
    ensures
        spec_expr(tokens, i, power, held) matches Parsed::Done { front, back, used } ==> {
            &&& is_tree(front + back)
            &&& power.spec_rank() >= 1 ==> front.len() == 0
            &&& 1 <= used
            &&& front.len() + back.len() <= used
            &&& 0 <= i
            &&& i + used <= tokens.len()
            &&& spec_led_power(peek_at(tokens, i + used).token).spec_rank() <= power.spec_rank()
        },
    decreases tokens.len() - i, 3nat,
{
    lemma_nud_shape(tokens, i, held);
    if let Parsed::Done { front, back, used } = spec_nud(tokens, i, held) {
        lemma_led_shape(tokens, i + used, power, front, back, held);
    }
}

/// A tree and a binary operator behind what was one tree are one tree again.
proof fn lemma_binary_joins(
    front: Seq<ExpressionNode>,
    back: Seq<ExpressionNode>,
    right_front: Seq<ExpressionNode>,
    right_back: Seq<ExpressionNode>,
    operator: ExpressionNode,
)
    requires
        is_tree(front + back),
        is_tree(right_front + right_back),
        operator.kind == ExpressionKind::Binary,
    ensures
        is_tree((right_front + front) + (back + right_back.push(operator))),
{
    lemma_forest_insert(right_front, front + back, right_back);
    lemma_forest_push(right_front + (front + back) + right_back, operator);
    assert((right_front + front) + (back + right_back.push(operator)) =~= (right_front + (front
        + back) + right_back).push(operator));
}

/// Two trees before what was one tree, and a ternary operator behind it, are
/// one tree again.
proof fn lemma_ternary_joins(
    front: Seq<ExpressionNode>,
    back: Seq<ExpressionNode>,
    right: Seq<ExpressionNode>,
    middle: Seq<ExpressionNode>,
    operator: ExpressionNode,
)
    requires
        is_tree(front + back),
        is_tree(right),
        is_tree(middle),
        operator.kind == ExpressionKind::Ternary,
    ensures
        is_tree(((right + middle) + front) + (back + seq![operator])),
{
    lemma_forest_concat(right, middle);
    lemma_forest_concat(right + middle, front + back);
    lemma_forest_push(right + middle + (front + back), operator);
    assert(((right + middle) + front) + (back + seq![operator]) =~= (right + middle + (front
        + back)).push(operator));
}

/// An operator with its operands, behind what was one tree, gives one tree
/// again; it adds no more nodes than it uses tokens, the operator counted,
/// and its operands use at least one. An operator between two operands adds
/// at the back only.
pub proof fn lemma_step_shape(
    tokens: Seq<TokenNode>,
    after: int,
    operator: TokenNode,
    power: Precedence,
    front: Seq<ExpressionNode>,
    back: Seq<ExpressionNode>,
    held: nat,
)
    requires
        is_tree(front + back),
    ensures
        spec_step(tokens, after, operator, power, held) matches Parsed::Done {
            front: step_front,
            back: step_back,
            used,
        } ==> {
            &&& is_tree((step_front + front) + (back + step_back))
            &&& is_binary_operator(operator.token) && power.spec_rank() >= 1
                ==> step_front.len() == 0
            &&& 1 <= used
            &&& step_front.len() + step_back.len() <= used + 1
            &&& 0 <= after
            &&& after + used <= tokens.len()
            &&& spec_led_power(peek_at(tokens, after + used).token).spec_rank()
                <= power.spec_rank()
        },
    decreases tokens.len() - after, 4nat,
{
    if is_binary_operator(operator.token) {
        lemma_expr_shape(tokens, after, power, held);
        if let Parsed::Done { front: right_front, back: right_back, used } = spec_expr(
            tokens,
            after,
            power,
            held,
        ) {
            lemma_binary_joins(
                front,
                back,
                right_front,
                right_back,
                node_of(operator, ExpressionKind::Binary),
            );
        }
    } else if operator.token == Token::Question {
        lemma_expr_shape(tokens, after, power, 0);
        if let Parsed::Done { front: middle_front, back: middle_back, used } = spec_expr(
            tokens,
            after,
            power,
            0,
        ) {
            let branch = next_index(tokens, after + used);
            lemma_skip_trivia(tokens, after + used);
            if peek_at(tokens, after + used).token == Token::Colon {
                lemma_expr_shape(tokens, branch, power, 0);
                if let Parsed::Done { front: right_front, back: right_back, used: right_used } =
                    spec_expr(tokens, branch, power, 0) {
                    lemma_ternary_joins(
                        front,
                        back,
                        right_front + right_back,
                        middle_front + middle_back,
                        node_of(operator, ExpressionKind::Ternary),
                    );
                }
            }
        }
    }
}

/// The start of an expression uses up at least one token, of those that
/// there are, and adds its nodes at the back.
pub proof fn lemma_nud_sizes(tokens: Seq<TokenNode>, i: int, held: nat)
    ensures
        spec_nud(tokens, i, held) matches Parsed::Done { front, back, used } ==> {
            &&& front.len() == 0
            &&& 1 <= used
            &&& front.len() + back.len() <= used
            &&& 0 <= i
            &&& i + used <= tokens.len()
        },
{
    lemma_nud_shape(tokens, i, held);
}

/// An expression uses up at least one token, of those that there are, and
/// adds no more nodes than it uses tokens.
pub proof fn lemma_expr_sizes(tokens: Seq<TokenNode>, i: int, power: Precedence, held: nat)
    ensures
        spec_expr(tokens, i, power, held) matches Parsed::Done { front, back, used } ==> {
            &&& 1 <= used
            &&& front.len() + back.len() <= used
            &&& 0 <= i
            &&& i + used <= tokens.len()
        },
{
    lemma_expr_shape(tokens, i, power, held);
}

/// An operator with its operands adds no more nodes than it uses tokens, the
/// operator counted, and its operands use at least one.
pub proof fn lemma_step_sizes(
    tokens: Seq<TokenNode>,
    after: int,
    operator: TokenNode,
    power: Precedence,
    held: nat,
)
    ensures
        spec_step(tokens, after, operator, power, held) matches Parsed::Done {
            front,
            back,
            used,
        } ==> {
            &&& 1 <= used
            &&& front.len() + back.len() <= used + 1
            &&& 0 <= after
            &&& after + used <= tokens.len()
        },
{
    lemma_expr_sizes(tokens, after, power, held);
    lemma_expr_sizes(tokens, after, power, 0);
    if let Parsed::Done { front, back, used } = spec_expr(tokens, after, power, 0) {
        lemma_skip_trivia(tokens, after + used);
        lemma_expr_sizes(tokens, next_index(tokens, after + used), power, 0);
    }
}

/// Going on with an expression keeps it one tree.
pub proof fn lemma_led_shape(
    tokens: Seq<TokenNode>,
    i: int,
    power: Precedence,
    front: Seq<ExpressionNode>,
    back: Seq<ExpressionNode>,
    held: nat,
)
    requires
        is_tree(front + back),
        0 <= i <= tokens.len(),
    ensures
        spec_led(tokens, i, power, front, back, held) matches Parsed::Done {
            front: whole_front,
            back: whole_back,
            used,
        } ==> {
            &&& is_tree(whole_front + whole_back)
            &&& power.spec_rank() >= 1 && front.len() == 0 ==> whole_front.len() == 0
            &&& whole_front.len() + whole_back.len() <= front.len() + back.len() + used
            &&& i + used <= tokens.len()
            &&& spec_led_power(peek_at(tokens, i + used).token).spec_rank() <= power.spec_rank()
        },
    decreases tokens.len() - i, 1nat,
{
    let node = peek_at(tokens, i);
    let next_power = spec_led_power(node.token);
    let after = next_index(tokens, i);
    if next_power.spec_rank() > power.spec_rank() {
        lemma_skip_trivia(tokens, i);
        lemma_tight_is_binary(node.token);
        let room = (held + front.len() + back.len()) as nat;
        lemma_step_shape(tokens, after, node, next_power, front, back, room);
        let step = spec_step(tokens, after, node, next_power, room);
        if step is Done {
            lemma_led_shape(
                tokens,
                after + step->used,
                power,
                step->front + front,
                back + step->back,
                held,
            );
        }
    }
}

/// A statement uses up at least one token, and its nodes encode as many
/// trees as it holds expressions.
pub proof fn lemma_stmt_shape(tokens: Seq<TokenNode>, i: int)
    ensures
        spec_stmt(tokens, i) matches ParsedStatement::Done { statement, used } ==> {
            &&& statement.well_shaped()
            &&& 1 <= used
            &&& statement.nodes().len() <= used
            &&& 0 <= i
            &&& i + used <= tokens.len()
        },
{
    let first = peek_at(tokens, i).token;
    lemma_skip_trivia(tokens, i);
    if first == Token::Let || first == Token::Const {
        let after = next_index(tokens, i);
        lemma_expr_shape(tokens, after, Precedence::Default, 0);
        if let Parsed::Done { front: symbol_front, back: symbol_back, used: symbol_used } =
            spec_expr(tokens, after, Precedence::Default, 0) {
            let start = next_index(tokens, after + symbol_used);
            lemma_skip_trivia(tokens, after + symbol_used);
            lemma_expr_shape(tokens, start, Precedence::Default, 0);
            if let Parsed::Done { front: value_front, back: value_back, used: value_used } =
                spec_expr(tokens, start, Precedence::Default, 0) {
                lemma_forest_concat(value_front + value_back, symbol_front + symbol_back);
                lemma_skip_trivia(tokens, start + value_used);
            }
        }
    } else {
        lemma_expr_shape(tokens, i, Precedence::Default, 0);
        if let Parsed::Done { front, back, used } = spec_expr(tokens, i, Precedence::Default, 0) {
            lemma_skip_trivia(tokens, i + used);
        }
    }
}

/// A declaration is constant exactly when it starts with `const`: then its
/// first flag is set, and no other flag is ever set.
pub proof fn lemma_variable_flags(tokens: Seq<TokenNode>, i: int)
    ensures
        spec_variable_stmt(tokens, i) matches ParsedStatement::Done { statement, used } ==> {
            &&& statement matches StatementView::Variable { expr, flags }
            &&& flags == flags_of(peek_at(tokens, i).token)
            &&& (BIT_1 & flags != 0) == (peek_at(tokens, i).token == Token::Const)
            &&& peek_at(tokens, i).token != Token::Const ==> flags == 0
            &&& flags == 0 || flags == BIT_1
        },
        spec_stmt(tokens, i) matches ParsedStatement::Done { statement, used } ==> (
        statement matches StatementView::Variable { expr, flags } ==> {
            &&& peek_at(tokens, i).token == Token::Let || peek_at(tokens, i).token == Token::Const
            &&& flags == flags_of(peek_at(tokens, i).token)
            &&& (BIT_1 & flags != 0) == (peek_at(tokens, i).token == Token::Const)
        }),
{
    assert(1u8 & 1u8 != 0u8) by (bit_vector);
    assert(1u8 & 0u8 == 0u8) by (bit_vector);
}

/// In every statement that the parser gives, the nodes encode as many trees
/// as the statement holds expressions: one, or two for a declaration.
pub proof fn lemma_parse_shape(tokens: Seq<TokenNode>, i: int)
    ensures
        spec_parse(tokens, i) matches Ok(statements) ==> forall|k: int|
            0 <= k < statements.len() ==> (#[trigger] statements[k]).well_shaped(),
    decreases crate::parser::grammar::remaining(tokens, i),
{
    if has_tokens_left(tokens, i) {
        lemma_stmt_shape(tokens, i);
        if let ParsedStatement::Done { statement, used } = spec_stmt(tokens, i) {
            lemma_parse_shape(tokens, i + used);
        }
    }
}

/// An expression parsed into a forest leaves a forest of one tree more,
/// wherever its nodes go.
pub proof fn lemma_expr_grows_forest(
    tokens: Seq<TokenNode>,
    i: int,
    power: Precedence,
    held: Seq<ExpressionNode>,
)
    requires
        is_forest(held),
    ensures
        spec_expr(tokens, i, power, held.len()) matches Parsed::Done {
            front,
            back,
            used,
        } ==> is_forest(front + held + back) && weight(front + held + back) == weight(held) + 1,
{
    lemma_expr_shape(tokens, i, power, held.len());
    if let Parsed::Done { front, back, used } = spec_expr(tokens, i, power, held.len()) {
        lemma_forest_insert(front, held, back);
    }
}

/// Parentheses add one node and nothing else: an expression in parentheses
/// gives the nodes of the expression inside, as it is parsed on its own, in
/// their order, and one block node behind them.
pub proof fn lemma_block_wraps(tokens: Seq<TokenNode>, i: int, held: nat)
    requires
        peek_at(tokens, i).token == Token::OpenParen,
        spec_nud(tokens, i, held) is Done,
    ensures
        ({
            let inside = spec_expr(tokens, next_index(tokens, i), Precedence::Default, 0);
            &&& inside is Done
            &&& spec_nud(tokens, i, held)->front == Seq::<ExpressionNode>::empty()
            &&& spec_nud(tokens, i, held)->back == (inside->front + inside->back).push(
                node_of(peek_at(tokens, i), ExpressionKind::Block),
            )
        }),
{
}

/// Every statement that the parser gives can be read back: the traversal
/// from the last node to the first meets every node while an open node waits
/// for it, and after the first node none waits any more.
pub proof fn lemma_parse_traversable(tokens: Seq<TokenNode>)
    ensures
        spec_parse(tokens, 0) matches Ok(statements) ==> forall|k: int|
            0 <= k < statements.len() ==> traversable(
                (#[trigger] statements[k]).nodes(),
                statements[k].roots() as usize,
            ),
{
    lemma_parse_shape(tokens, 0);
    if let Ok(statements) = spec_parse(tokens, 0) {
        assert forall|k: int| 0 <= k < statements.len() implies traversable(
            (#[trigger] statements[k]).nodes(),
            statements[k].roots() as usize,
        ) by {
            lemma_traversable(statements[k].nodes(), statements[k].roots() as usize);
        }
    }
}

/// Every expression that the parser gives can be read back as one
/// expression.
pub proof fn lemma_expr_traversable(tokens: Seq<TokenNode>, i: int, power: Precedence, held: nat)
    ensures
        spec_expr(tokens, i, power, held) matches Parsed::Done {
            front,
            back,
            used,
        } ==> traversable(front + back, 1),
{
    lemma_expr_shape(tokens, i, power, held);
    if let Parsed::Done { front, back, used } = spec_expr(tokens, i, power, held) {
        lemma_traversable(front + back, 1);
    }
}

} // verus!
