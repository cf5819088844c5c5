//! Left operand, right operand, operator: where the operands of a binary
//! node stand, and which tokens they are made of.

use vstd::prelude::*;

use super::grammar::{
    has_tokens_left, is_binary_operator, lemma_skip_trivia, next_index, node_of, peek_at,
    skip_trivia, spec_expr, spec_led, spec_nud, spec_parse, spec_step, spec_stmt, Parsed,
    ParsedStatement,
};
use super::origin::{
    all_taken, lemma_expr_origin, lemma_joined, lemma_nud_origin, lemma_step_origin, lemma_wider,
    stands_for,
};
use super::precedence::{spec_led_power, Precedence};
use super::shape::{lemma_expr_shape, lemma_nud_shape, lemma_step_shape, lemma_step_sizes};
use crate::ast::expressions::{ExpressionKind, ExpressionNode};
use crate::ast::forest::{is_forest, is_tree, lemma_forest_concat};
use crate::ast::subtree::{
    lemma_binary_behind, lemma_reach_finds, lemma_reach_prefix, lemma_reach_shift, subtree_start,
};
use crate::lexer::tokens::{Token, TokenNode};

verus! {

/// The binary node at place `i` stands between its operands, as its token
/// does. The tree that ends directly before the node is its right operand:
/// every node of it stands for a token behind the token of the operator. The
/// tree that ends directly before the right operand is the left operand:
/// every node of it stands for a token before the token of the operator.
pub open spec fn between(nodes: Seq<ExpressionNode>, tokens: Seq<TokenNode>, i: int) -> bool {
    let right_start = subtree_start(nodes, i - 1);
    let left = right_start - 1;
    let left_start = subtree_start(nodes, left);
    &&& 0 <= left_start <= left < right_start < i
    &&& exists|j: int|
        {
            &&& #[trigger] stands_for(nodes[i], tokens, j)
            &&& all_taken(nodes.subrange(right_start, i), tokens, j + 1, tokens.len() as int)
            &&& all_taken(nodes.subrange(left_start, left + 1), tokens, 0, j)
        }
}

/// Every binary node of `nodes` stands between its operands.
pub open spec fn postfix(nodes: Seq<ExpressionNode>, tokens: Seq<TokenNode>) -> bool {
    forall|i: int|
        0 <= i < nodes.len() && nodes[i].kind == ExpressionKind::Binary ==> #[trigger] between(
            nodes,
            tokens,
            i,
        )
}

/// What stands behind a binary node does not touch its operands.
proof fn lemma_between_prefix(
    a: Seq<ExpressionNode>,
    b: Seq<ExpressionNode>,
    tokens: Seq<TokenNode>,
    i: int,
)
    requires
        0 <= i < a.len(),
        between(a, tokens, i),
    ensures
        between(a + b, tokens, i),
{
    let right_start = subtree_start(a, i - 1);
    let left = right_start - 1;
    let left_start = subtree_start(a, left);
    lemma_reach_prefix(a, b, i - 1, 1);
    lemma_reach_prefix(a, b, left, 1);
    assert((a + b).subrange(right_start, i) =~= a.subrange(right_start, i));
    assert((a + b).subrange(left_start, left + 1) =~= a.subrange(left_start, left + 1));
    assert((a + b)[i] == a[i]);
    let j = choose|j: int|
        {
            &&& #[trigger] stands_for(a[i], tokens, j)
            &&& all_taken(a.subrange(right_start, i), tokens, j + 1, tokens.len() as int)
            &&& all_taken(a.subrange(left_start, left + 1), tokens, 0, j)
        };
    assert(stands_for((a + b)[i], tokens, j));
}

/// What stands before a forest does not touch the operands of its binary
/// nodes.
proof fn lemma_between_suffix(
    a: Seq<ExpressionNode>,
    b: Seq<ExpressionNode>,
    tokens: Seq<TokenNode>,
    k: int,
)
    requires
        is_forest(b),
        0 <= k < b.len(),
        between(b, tokens, k),
    ensures
        between(a + b, tokens, a.len() + k),
{
    let right_start = subtree_start(b, k - 1);
    let left = right_start - 1;
    let left_start = subtree_start(b, left);
    let n = a.len() as int;
    lemma_reach_shift(a, b, k - 1);
    lemma_reach_shift(a, b, left);
    assert((a + b).subrange(n + right_start, n + k) =~= b.subrange(right_start, k));
    assert((a + b).subrange(n + left_start, n + left + 1) =~= b.subrange(left_start, left + 1));
    assert((a + b)[n + k] == b[k]);
    let j = choose|j: int|
        {
            &&& #[trigger] stands_for(b[k], tokens, j)
            &&& all_taken(b.subrange(right_start, k), tokens, j + 1, tokens.len() as int)
            &&& all_taken(b.subrange(left_start, left + 1), tokens, 0, j)
        };
    assert(stands_for((a + b)[n + k], tokens, j));
}

/// A forest behind other nodes: the binary nodes of both keep their
/// operands.
pub proof fn lemma_postfix_concat(
    a: Seq<ExpressionNode>,
    b: Seq<ExpressionNode>,
    tokens: Seq<TokenNode>,
)
    requires
        postfix(a, tokens),
        postfix(b, tokens),
        is_forest(b),
    ensures
        postfix(a + b, tokens),
{
    assert forall|i: int|
        0 <= i < (a + b).len() && (a + b)[i].kind == ExpressionKind::Binary implies #[trigger] between(
        a + b,
        tokens,
        i,
    ) by {
        if i < a.len() {
            assert((a + b)[i] == a[i]);
            assert(between(a, tokens, i));
            lemma_between_prefix(a, b, tokens, i);
        } else {
            let k = i - a.len();
            assert((a + b)[i] == b[k]);
            assert(between(b, tokens, k));
            lemma_between_suffix(a, b, tokens, k);
        }
    }
}

/// A node behind other nodes: their binary nodes keep their operands.
pub proof fn lemma_postfix_push(
    nodes: Seq<ExpressionNode>,
    node: ExpressionNode,
    tokens: Seq<TokenNode>,
)
    requires
        postfix(nodes, tokens),
        node.kind == ExpressionKind::Binary ==> between(
            nodes.push(node),
            tokens,
            nodes.len() as int,
        ),
    ensures
        postfix(nodes.push(node), tokens),
{
    let whole = nodes.push(node);
    assert(whole =~= nodes + seq![node]);
    assert forall|i: int|
        0 <= i < whole.len() && whole[i].kind == ExpressionKind::Binary implies #[trigger] between(
        whole,
        tokens,
        i,
    ) by {
        if i < nodes.len() {
            assert(whole[i] == nodes[i]);
            assert(between(nodes, tokens, i));
            lemma_between_prefix(nodes, seq![node], tokens, i);
        }
    }
}

/// A binary operator behind its two operands stands between them.
proof fn lemma_between_new(
    left: Seq<ExpressionNode>,
    right: Seq<ExpressionNode>,
    node: ExpressionNode,
    tokens: Seq<TokenNode>,
    j: int,
)
    requires
        is_tree(left),
        is_tree(right),
        node.kind == ExpressionKind::Binary,
        stands_for(node, tokens, j),
        all_taken(left, tokens, 0, j),
        all_taken(right, tokens, j + 1, tokens.len() as int),
    ensures
        between((left + right).push(node), tokens, (left.len() + right.len()) as int),
{
    let whole = (left + right).push(node);
    let last = whole.len() - 1;
    crate::ast::forest::lemma_forest_weight(left);
    crate::ast::forest::lemma_forest_weight(right);
    assert(crate::ast::forest::weight(Seq::<ExpressionNode>::empty()) == 0);
    lemma_binary_behind(left, right, node);
    assert(whole.subrange(0, left.len() as int) =~= left);
    lemma_reach_finds(whole, 0, left.len() - 1, 1);
    assert(whole[last] == node);
    assert(stands_for(whole[last], tokens, j));
}

/// In the start of an expression every binary node stands between its
/// operands.
pub proof fn lemma_nud_order(tokens: Seq<TokenNode>, i: int, held: nat)
    ensures
        spec_nud(tokens, i, held) matches Parsed::Done { front, back, used } ==> postfix(
            front + back,
            tokens,
        ),
    decreases tokens.len() - i, 2nat,
{
    let node = peek_at(tokens, i);
    let after = next_index(tokens, i);
    lemma_skip_trivia(tokens, i);
    let none = Seq::<ExpressionNode>::empty();
    match node.token {
        Token::Number | Token::Identifier => {
            let literal = node_of(node, ExpressionKind::Literal);
            assert(none + seq![literal] =~= none.push(literal));
            assert(postfix(none, tokens));
            lemma_postfix_push(none, literal, tokens);
        },
        Token::Plus | Token::Minus => {
            lemma_expr_order(tokens, after, Precedence::Unary, held);
            if let Parsed::Done { front, back, used } = spec_expr(
                tokens,
                after,
                Precedence::Unary,
                held,
            ) {
                let sign = node_of(node, ExpressionKind::Prefix);
                lemma_postfix_push(front + back, sign, tokens);
                assert(front + back.push(sign) =~= (front + back).push(sign));
            }
        },
        Token::OpenParen => {
            lemma_expr_order(tokens, after, Precedence::Default, 0);
            if let Parsed::Done { front, back, used } = spec_expr(
                tokens,
                after,
                Precedence::Default,
                0,
            ) {
                let block = node_of(node, ExpressionKind::Block);
                lemma_postfix_push(front + back, block, tokens);
                assert(none + (front + back).push(block) =~= (front + back).push(block));
            }
        },
        _ => {},
    }
}

/// Left operand, right operand, operator, in every expression: the tree
/// that ends directly before a binary node is made of tokens behind the
/// operator, and the tree that ends directly before that one is made of
/// tokens before the operator.
pub proof fn lemma_expr_order(tokens: Seq<TokenNode>, i: int, power: Precedence, held: nat)
    ensures
        spec_expr(tokens, i, power, held) matches Parsed::Done { front, back, used } ==> postfix(
            front + back,
            tokens,
        ),
    decreases tokens.len() - i, 3nat,
{
    lemma_nud_order(tokens, i, held);
    lemma_nud_shape(tokens, i, held);
    lemma_nud_origin(tokens, i, held);
    if let Parsed::Done { front, back, used } = spec_nud(tokens, i, held) {
        lemma_led_order(tokens, i + used, power, front, back, i, held);
    }
}

/// An operator with its operands, behind what was one tree in which every
/// binary node stands between its operands, leaves such a tree.
proof fn lemma_step_order(
    tokens: Seq<TokenNode>,
    i: int,
    power: Precedence,
    front: Seq<ExpressionNode>,
    back: Seq<ExpressionNode>,
    low: int,
    held: nat,
)
    requires
        0 <= low <= i <= tokens.len(),
        peek_at(tokens, i).token != Token::Eof,
        power == spec_led_power(peek_at(tokens, i).token),
        is_tree(front + back),
        postfix(front + back, tokens),
        all_taken(front, tokens, low, i),
        all_taken(back, tokens, low, i),
    ensures
        spec_step(tokens, next_index(tokens, i), peek_at(tokens, i), power, held) matches Parsed::Done {
            front: step_front,
            back: step_back,
            used,
        } ==> postfix((step_front + front) + (back + step_back), tokens),
    decreases tokens.len() - i, 0nat,
{
    let operator = peek_at(tokens, i);
    let after = next_index(tokens, i);
    let place = skip_trivia(tokens, i);
    let whole = front + back;
    lemma_skip_trivia(tokens, i);
    lemma_joined(front, back, tokens, low, i);
    lemma_wider(whole, tokens, low, i, 0, place);
    if is_binary_operator(operator.token) {
        lemma_expr_order(tokens, after, power, held);
        lemma_expr_shape(tokens, after, power, held);
        lemma_expr_origin(tokens, after, power, held);
        if let Parsed::Done { front: right_front, back: right_back, used } = spec_expr(
            tokens,
            after,
            power,
            held,
        ) {
            let node = node_of(operator, ExpressionKind::Binary);
            assert(right_front + right_back =~= right_back);
            lemma_wider(right_back, tokens, after, after + used, place + 1, tokens.len() as int);
            assert(stands_for(node, tokens, place));
            lemma_between_new(whole, right_back, node, tokens, place);
            lemma_postfix_concat(whole, right_back, tokens);
            lemma_postfix_push(whole + right_back, node, tokens);
            assert((right_front + front) + (back + right_back.push(node)) =~= (whole
                + right_back).push(node));
        }
    } else if operator.token == Token::Question {
        lemma_expr_order(tokens, after, power, 0);
        lemma_expr_shape(tokens, after, power, 0);
        if let Parsed::Done { front: middle_front, back: middle_back, used } = spec_expr(
            tokens,
            after,
            power,
            0,
        ) {
            let branch = next_index(tokens, after + used);
            lemma_skip_trivia(tokens, after + used);
            if peek_at(tokens, after + used).token == Token::Colon {
                lemma_expr_order(tokens, branch, power, 0);
                lemma_expr_shape(tokens, branch, power, 0);
                if let Parsed::Done { front: right_front, back: right_back, used: right_used } =
                    spec_expr(tokens, branch, power, 0) {
                    let node = node_of(operator, ExpressionKind::Ternary);
                    let right = right_front + right_back;
                    let middle = middle_front + middle_back;
                    lemma_postfix_concat(right, middle, tokens);
                    lemma_forest_concat(right, middle);
                    lemma_postfix_concat(right + middle, whole, tokens);
                    lemma_postfix_push(right + middle + whole, node, tokens);
                    assert(((right + middle) + front) + (back + seq![node]) =~= (right + middle
                        + whole).push(node));
                }
            }
        }
    }
}

/// Going on with an expression keeps every binary node between its
/// operands.
pub proof fn lemma_led_order(
    tokens: Seq<TokenNode>,
    i: int,
    power: Precedence,
    front: Seq<ExpressionNode>,
    back: Seq<ExpressionNode>,
    low: int,
    held: nat,
)
    requires
        0 <= low <= i <= tokens.len(),
        is_tree(front + back),
        postfix(front + back, tokens),
        all_taken(front, tokens, low, i),
        all_taken(back, tokens, low, i),
    ensures
        spec_led(tokens, i, power, front, back, held) matches Parsed::Done {
            front: whole_front,
            back: whole_back,
            used,
        } ==> postfix(whole_front + whole_back, tokens),
    decreases tokens.len() - i, 1nat,
{
    let node = peek_at(tokens, i);
    let next_power = spec_led_power(node.token);
    let after = next_index(tokens, i);
    if next_power.spec_rank() > power.spec_rank() {
        lemma_skip_trivia(tokens, i);
        assert(tokens[skip_trivia(tokens, i)] == node);
        let room = (held + front.len() + back.len()) as nat;
        lemma_step_order(tokens, i, next_power, front, back, low, room);
        lemma_step_shape(tokens, after, node, next_power, front, back, room);
        lemma_step_origin(tokens, after, node, next_power, low, room);
        lemma_step_sizes(tokens, after, node, next_power, room);
        let step = spec_step(tokens, after, node, next_power, room);
        if step is Done {
            let at = after + step->used;
            lemma_wider(front, tokens, low, i, low, at);
            lemma_wider(back, tokens, low, i, low, at);
            lemma_joined(step->front, front, tokens, low, at);
            lemma_joined(back, step->back, tokens, low, at);
            lemma_led_order(tokens, at, power, step->front + front, back + step->back, low, held);
        }
    }
}

/// Left operand, right operand, operator, in every statement that the
/// parser gives: for every binary node, the tree that ends directly before
/// it is its right operand, made of tokens behind the operator, and the
/// tree that ends directly before the right operand is its left operand,
/// made of tokens before the operator.
pub proof fn lemma_parse_order(tokens: Seq<TokenNode>, i: int)
    ensures
        spec_parse(tokens, i) matches Ok(statements) ==> forall|k: int|
            0 <= k < statements.len() ==> postfix((#[trigger] statements[k]).nodes(), tokens),
    decreases crate::parser::grammar::remaining(tokens, i),
{
    if has_tokens_left(tokens, i) {
        super::shape::lemma_stmt_shape(tokens, i);
        lemma_stmt_order(tokens, i);
        if let ParsedStatement::Done { statement, used } = spec_stmt(tokens, i) {
            lemma_parse_order(tokens, i + used);
        }
    }
}

/// In a statement every binary node stands between its operands.
pub proof fn lemma_stmt_order(tokens: Seq<TokenNode>, i: int)
    ensures
        spec_stmt(tokens, i) matches ParsedStatement::Done { statement, used } ==> postfix(
            statement.nodes(),
            tokens,
        ),
{
    let first = peek_at(tokens, i).token;
    lemma_skip_trivia(tokens, i);
    if first == Token::Let || first == Token::Const {
        let after = next_index(tokens, i);
        lemma_expr_order(tokens, after, Precedence::Default, 0);
        lemma_expr_shape(tokens, after, Precedence::Default, 0);
        if let Parsed::Done { front: symbol_front, back: symbol_back, used: symbol_used } =
            spec_expr(tokens, after, Precedence::Default, 0) {
            let start = next_index(tokens, after + symbol_used);
            lemma_expr_order(tokens, start, Precedence::Default, 0);
            if let Parsed::Done { front: value_front, back: value_back, used: value_used } =
                spec_expr(tokens, start, Precedence::Default, 0) {
                lemma_postfix_concat(
                    value_front + value_back,
                    symbol_front + symbol_back,
                    tokens,
                );
            }
        }
    } else {
        lemma_expr_order(tokens, i, Precedence::Default, 0);
    }
}

} // verus!
