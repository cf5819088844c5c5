//! Where the nodes of an expression come from: each node stands for one
//! token of those that the expression used up, and its kind goes with the
//! kind of that token.

use vstd::prelude::*;

use super::grammar::{
    is_binary_operator, lemma_skip_trivia, next_index, node_of, peek_at, skip_trivia, spec_expr,
    spec_led, spec_nud, spec_step, Parsed,
};
use super::precedence::{spec_led_power, Precedence};
use super::shape::lemma_expr_shape;
use crate::ast::expressions::{ExpressionKind, ExpressionNode};
use crate::lexer::tokens::{Token, TokenNode};

verus! {

/// The kind of the node goes with its token: a literal is a number or an
/// identifier, a prefix node a sign, a block an opening parenthesis, a binary
/// node an operator between two operands, and a ternary node a question mark.
pub open spec fn fits(node: ExpressionNode) -> bool {
    match node.kind {
        ExpressionKind::Literal => node.token == Token::Number || node.token == Token::Identifier,
        ExpressionKind::Prefix => node.token == Token::Plus || node.token == Token::Minus,
        ExpressionKind::Block => node.token == Token::OpenParen,
        ExpressionKind::Binary => is_binary_operator(node.token),
        ExpressionKind::Ternary => node.token == Token::Question,
    }
}

/// The node stands for the token at place `j`.
pub open spec fn stands_for(node: ExpressionNode, tokens: Seq<TokenNode>, j: int) -> bool {
    0 <= j < tokens.len() && tokens[j].index == node.index && tokens[j].token == node.token
}

/// The node fits its token, which is one of the tokens from place `low` up
/// to, but not including, place `high`.
pub open spec fn taken(node: ExpressionNode, tokens: Seq<TokenNode>, low: int, high: int) -> bool {
    fits(node) && exists|j: int| low <= j < high && #[trigger] stands_for(node, tokens, j)
}

/// Every node of `nodes` is taken from the tokens between `low` and `high`.
pub open spec fn all_taken(
    nodes: Seq<ExpressionNode>,
    tokens: Seq<TokenNode>,
    low: int,
    high: int,
) -> bool {
    forall|k: int| 0 <= k < nodes.len() ==> taken(#[trigger] nodes[k], tokens, low, high)
}

/// Nodes taken from a range of tokens are taken from every wider range.
pub proof fn lemma_wider(
    nodes: Seq<ExpressionNode>,
    tokens: Seq<TokenNode>,
    low: int,
    high: int,
    lower: int,
    higher: int,
)
    requires
        all_taken(nodes, tokens, low, high),
        lower <= low,
        high <= higher,
    ensures
        all_taken(nodes, tokens, lower, higher),
{
    assert forall|k: int| 0 <= k < nodes.len() implies taken(
        #[trigger] nodes[k],
        tokens,
        lower,
        higher,
    ) by {
        assert(taken(nodes[k], tokens, low, high));
        let j = choose|j: int| low <= j < high && #[trigger] stands_for(nodes[k], tokens, j);
        assert(stands_for(nodes[k], tokens, j));
    }
}

/// Two runs of nodes taken from a range give one run taken from that range.
pub proof fn lemma_joined(
    a: Seq<ExpressionNode>,
    b: Seq<ExpressionNode>,
    tokens: Seq<TokenNode>,
    low: int,
    high: int,
)
    requires
        all_taken(a, tokens, low, high),
        all_taken(b, tokens, low, high),
    ensures
        all_taken(a + b, tokens, low, high),
{
    assert forall|k: int| 0 <= k < (a + b).len() implies taken(
        #[trigger] (a + b)[k],
        tokens,
        low,
        high,
    ) by {
        if k < a.len() {
            assert(taken(a[k], tokens, low, high));
        } else {
            assert(taken(b[k - a.len()], tokens, low, high));
        }
    }
}

/// The node for the token that the parser sees at place `i` is taken from the
/// tokens up to the next place.
pub proof fn lemma_seen(tokens: Seq<TokenNode>, i: int, kind: ExpressionKind)
    requires
        0 <= i,
        peek_at(tokens, i).token != Token::Eof,
        fits(node_of(peek_at(tokens, i), kind)),
    ensures
        all_taken(seq![node_of(peek_at(tokens, i), kind)], tokens, i, next_index(tokens, i)),
{
    lemma_skip_trivia(tokens, i);
    let node = node_of(peek_at(tokens, i), kind);
    assert(stands_for(node, tokens, skip_trivia(tokens, i)));
}

/// The nodes at the start of an expression are taken from the tokens that it
/// used up.
pub proof fn lemma_nud_origin(tokens: Seq<TokenNode>, i: int, held: nat)
    ensures
        spec_nud(tokens, i, held) matches Parsed::Done { front, back, used } ==> {
            &&& all_taken(front, tokens, i, i + used)
            &&& all_taken(back, tokens, i, i + used)
        },
    decreases tokens.len() - i, 2nat,
{
    let node = peek_at(tokens, i);
    let after = next_index(tokens, i);
    lemma_skip_trivia(tokens, i);
    super::shape::lemma_nud_shape(tokens, i, held);
    if let Parsed::Done { front: all_front, back: all_back, used: all_used } = spec_nud(
        tokens,
        i,
        held,
    ) {
        match node.token {
            Token::Number | Token::Identifier => {
                lemma_seen(tokens, i, ExpressionKind::Literal);
            },
            Token::Plus | Token::Minus => {
                lemma_expr_origin(tokens, after, Precedence::Unary, held);
                if let Parsed::Done { front, back, used } = spec_expr(
                    tokens,
                    after,
                    Precedence::Unary,
                    held,
                ) {
                    lemma_seen(tokens, i, ExpressionKind::Prefix);
                    lemma_wider(front, tokens, after, after + used, i, i + all_used);
                    lemma_wider(back, tokens, after, after + used, i, i + all_used);
                    lemma_wider(
                        seq![node_of(node, ExpressionKind::Prefix)],
                        tokens,
                        i,
                        after,
                        i,
                        i + all_used,
                    );
                    lemma_joined(
                        back,
                        seq![node_of(node, ExpressionKind::Prefix)],
                        tokens,
                        i,
                        i + all_used,
                    );
                    assert(back + seq![node_of(node, ExpressionKind::Prefix)] =~= all_back);
                }
            },
            Token::OpenParen => {
                lemma_expr_origin(tokens, after, Precedence::Default, 0);
                lemma_expr_shape(tokens, after, Precedence::Default, 0);
                if let Parsed::Done { front, back, used } = spec_expr(
                    tokens,
                    after,
                    Precedence::Default,
                    0,
                ) {
                    lemma_skip_trivia(tokens, after + used);
                    lemma_seen(tokens, i, ExpressionKind::Block);
                    lemma_wider(front, tokens, after, after + used, i, i + all_used);
                    lemma_wider(back, tokens, after, after + used, i, i + all_used);
                    lemma_wider(
                        seq![node_of(node, ExpressionKind::Block)],
                        tokens,
                        i,
                        after,
                        i,
                        i + all_used,
                    );
                    lemma_joined(front, back, tokens, i, i + all_used);
                    lemma_joined(
                        front + back,
                        seq![node_of(node, ExpressionKind::Block)],
                        tokens,
                        i,
                        i + all_used,
                    );
                    assert((front + back) + seq![node_of(node, ExpressionKind::Block)]
                        =~= all_back);
                }
            },
            _ => {},
        }
    }
}

/// Every node of an expression stands for one of the tokens that the
/// expression used up, and its kind goes with the kind of that token.
pub proof fn lemma_expr_origin(tokens: Seq<TokenNode>, i: int, power: Precedence, held: nat)
    ensures
        spec_expr(tokens, i, power, held) matches Parsed::Done { front, back, used } ==> {
            &&& all_taken(front, tokens, i, i + used)
            &&& all_taken(back, tokens, i, i + used)
        },
    decreases tokens.len() - i, 3nat,
{
    lemma_nud_origin(tokens, i, held);
    super::shape::lemma_nud_shape(tokens, i, held);
    if let Parsed::Done { front, back, used } = spec_nud(tokens, i, held) {
        lemma_led_origin(tokens, i + used, power, front, back, i, held);
    }
}

/// An operator with its operands adds nodes for the operator and for tokens
/// that its operands use up.
pub proof fn lemma_step_origin(
    tokens: Seq<TokenNode>,
    after: int,
    operator: TokenNode,
    power: Precedence,
    low: int,
    held: nat,
)
    requires
        exists|j: int| low <= j < after && 0 <= j < tokens.len() && #[trigger] tokens[j] == operator,
    ensures
        spec_step(tokens, after, operator, power, held) matches Parsed::Done {
            front,
            back,
            used,
        } ==> {
            &&& all_taken(front, tokens, low, after + used)
            &&& all_taken(back, tokens, low, after + used)
        },
    decreases tokens.len() - after, 4nat,
{
    let place = choose|j: int|
        low <= j < after && 0 <= j < tokens.len() && #[trigger] tokens[j] == operator;
    if is_binary_operator(operator.token) {
        lemma_expr_origin(tokens, after, power, held);
        lemma_expr_shape(tokens, after, power, held);
        if let Parsed::Done { front: right_front, back: right_back, used } = spec_expr(
            tokens,
            after,
            power,
            held,
        ) {
            let node = node_of(operator, ExpressionKind::Binary);
            let at = after + used;
            assert(stands_for(node, tokens, place));
            assert(all_taken(seq![node], tokens, low, at));
            lemma_wider(right_front, tokens, after, at, low, at);
            lemma_wider(right_back, tokens, after, at, low, at);
            lemma_joined(right_back, seq![node], tokens, low, at);
            assert(right_back + seq![node] =~= right_back.push(node));
        }
    } else if operator.token == Token::Question {
        lemma_expr_origin(tokens, after, power, 0);
        lemma_expr_shape(tokens, after, power, 0);
        if let Parsed::Done { front: middle_front, back: middle_back, used } = spec_expr(
            tokens,
            after,
            power,
            0,
        ) {
            let branch = next_index(tokens, after + used);
            lemma_skip_trivia(tokens, after + used);
            if peek_at(tokens, after + used).token == Token::Colon {
                lemma_expr_origin(tokens, branch, power, 0);
                lemma_expr_shape(tokens, branch, power, 0);
                if let Parsed::Done { front: right_front, back: right_back, used: right_used } =
                    spec_expr(tokens, branch, power, 0) {
                    let node = node_of(operator, ExpressionKind::Ternary);
                    let at = branch + right_used;
                    assert(stands_for(node, tokens, place));
                    assert(all_taken(seq![node], tokens, low, at));
                    lemma_wider(middle_front, tokens, after, after + used, low, at);
                    lemma_wider(middle_back, tokens, after, after + used, low, at);
                    lemma_wider(right_front, tokens, branch, at, low, at);
                    lemma_wider(right_back, tokens, branch, at, low, at);
                    lemma_joined(right_front, right_back, tokens, low, at);
                    lemma_joined(middle_front, middle_back, tokens, low, at);
                    lemma_joined(
                        right_front + right_back,
                        middle_front + middle_back,
                        tokens,
                        low,
                        at,
                    );
                }
            }
        }
    }
}

/// Going on with an expression adds nodes for tokens that it uses up.
pub proof fn lemma_led_origin(
    tokens: Seq<TokenNode>,
    i: int,
    power: Precedence,
    front: Seq<ExpressionNode>,
    back: Seq<ExpressionNode>,
    low: int,
    held: nat,
)
    requires
        0 <= low <= i <= tokens.len(),
        all_taken(front, tokens, low, i),
        all_taken(back, tokens, low, i),
    ensures
        spec_led(tokens, i, power, front, back, held) matches Parsed::Done {
            front: whole_front,
            back: whole_back,
            used,
        } ==> {
            &&& all_taken(whole_front, tokens, low, i + used)
            &&& all_taken(whole_back, tokens, low, i + used)
        },
    decreases tokens.len() - i, 1nat,
{
    let node = peek_at(tokens, i);
    let next_power = spec_led_power(node.token);
    let after = next_index(tokens, i);
    if next_power.spec_rank() > power.spec_rank() {
        lemma_skip_trivia(tokens, i);
        assert(tokens[skip_trivia(tokens, i)] == node);
        let room = (held + front.len() + back.len()) as nat;
        lemma_step_origin(tokens, after, node, next_power, low, room);
        super::shape::lemma_step_sizes(tokens, after, node, next_power, room);
        let step = spec_step(tokens, after, node, next_power, room);
        if step is Done {
            let at = after + step->used;
            lemma_wider(front, tokens, low, i, low, at);
            lemma_wider(back, tokens, low, i, low, at);
            lemma_joined(step->front, front, tokens, low, at);
            lemma_joined(back, step->back, tokens, low, at);
            lemma_led_origin(tokens, at, power, step->front + front, back + step->back, low, held);
        }
    }
}

} // verus!
