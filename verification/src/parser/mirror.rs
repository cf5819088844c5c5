//! Parentheses add one wrapping block node and change nothing else: tokens
//! set in parentheses parse as they parse on their own.

use vstd::prelude::*;

use super::grammar::{
    has_tokens_left, is_binary_operator, lemma_skip_trivia, next_index, node_of, peek_at,
    skip_trivia, spec_expr, spec_expr_stmt, spec_full, spec_led, spec_nud, spec_parse, spec_step,
    spec_stmt, Parsed, ParsedStatement,
};
use super::precedence::{spec_led_power, Precedence};
use super::shape::lemma_stmt_shape;
use crate::ast::expressions::{ExpressionKind, ExpressionNode, MAX_EXPRESSION_SIZE};
use crate::ast::statements::StatementView;
use crate::lexer::tokens::{Token, TokenNode};

verus! {

/// The nodes of `a` and of `b` are the same in number, kinds and tokens;
/// their offsets may differ.
pub open spec fn alike(a: Seq<ExpressionNode>, b: Seq<ExpressionNode>) -> bool {
    &&& a.len() == b.len()
    &&& forall|k: int|
        0 <= k < a.len() ==> (#[trigger] a[k]).kind == b[k].kind && a[k].token == b[k].token
}

/// The tokens `inner` are `n` tokens and one `Eof` behind them, and the same
/// `n` kinds of token stand in `outer` from place `d` on, with a token behind
/// them that ends an expression as `Eof` does.
pub open spec fn mirrors(inner: Seq<TokenNode>, outer: Seq<TokenNode>, d: int, n: int) -> bool {
    &&& 0 <= d
    &&& 0 <= n
    &&& inner.len() == n + 1
    &&& inner[n].token == Token::Eof
    &&& n + d < outer.len()
    &&& forall|k: int| 0 <= k < n ==> (#[trigger] inner[k]).token == outer[k + d].token
    &&& !outer[n + d].token.spec_is_trivia()
    &&& spec_led_power(outer[n + d].token).spec_rank() == 0
}

/// The outcome `second` is that of `first`, but for the offsets.
pub open spec fn same_outcome(first: Parsed, second: Parsed) -> bool {
    first matches Parsed::Done { front, back, used } ==> {
        &&& second matches Parsed::Done { front: front2, back: back2, used: used2 }
        &&& used2 == used
        &&& alike(front, front2)
        &&& alike(back, back2)
    }
}

/// Alike nodes side by side are alike.
proof fn lemma_alike_concat(
    a: Seq<ExpressionNode>,
    b: Seq<ExpressionNode>,
    a2: Seq<ExpressionNode>,
    b2: Seq<ExpressionNode>,
)
    requires
        alike(a, a2),
        alike(b, b2),
    ensures
        alike(a + b, a2 + b2),
{
    assert forall|k: int| 0 <= k < (a + b).len() implies (#[trigger] (a + b)[k]).kind == (a2
        + b2)[k].kind && (a + b)[k].token == (a2 + b2)[k].token by {
        if k < a.len() {
            assert(a[k].kind == a2[k].kind);
        } else {
            assert(b[k - a.len()].kind == b2[k - a.len()].kind);
        }
    }
}

/// Alike nodes with nodes for alike tokens behind them are alike.
proof fn lemma_alike_push(
    a: Seq<ExpressionNode>,
    a2: Seq<ExpressionNode>,
    token: TokenNode,
    token2: TokenNode,
    kind: ExpressionKind,
)
    requires
        alike(a, a2),
        token.token == token2.token,
    ensures
        alike(a.push(node_of(token, kind)), a2.push(node_of(token2, kind))),
        alike(seq![node_of(token, kind)], seq![node_of(token2, kind)]),
{
    assert forall|k: int| 0 <= k < a.len() + 1 implies (#[trigger] a.push(
        node_of(token, kind),
    )[k]).kind == a2.push(node_of(token2, kind))[k].kind && a.push(node_of(token, kind))[k].token
        == a2.push(node_of(token2, kind))[k].token by {
        if k < a.len() {
            assert(a[k].kind == a2[k].kind);
        }
    }
}

/// The parser sees the same kind of token at mirrored places, or a token
/// that ends an expression in place of `Eof`.
proof fn lemma_skip_mirror(
    inner: Seq<TokenNode>,
    outer: Seq<TokenNode>,
    d: int,
    n: int,
    i: int,
)
    requires
        mirrors(inner, outer, d, n),
        0 <= i <= n,
    ensures
        skip_trivia(outer, i + d) == skip_trivia(inner, i) + d,
        i <= skip_trivia(inner, i) <= n,
        skip_trivia(inner, i) < n ==> peek_at(inner, i).token == peek_at(outer, i + d).token,
        skip_trivia(inner, i) == n ==> peek_at(inner, i).token == Token::Eof && peek_at(
            outer,
            i + d,
        ) == outer[n + d],
        peek_at(inner, i).token != Token::Eof ==> skip_trivia(inner, i) < n,
    decreases n - i,
{
    if i < n {
        assert(inner[i].token == outer[i + d].token);
        if inner[i].token.spec_is_trivia() {
            lemma_skip_mirror(inner, outer, d, n, i + 1);
        }
    }
}

/// The start of an expression in mirrored tokens.
proof fn lemma_nud_mirror(
    inner: Seq<TokenNode>,
    outer: Seq<TokenNode>,
    d: int,
    n: int,
    i: int,
    held: nat,
)
    requires
        mirrors(inner, outer, d, n),
        0 <= i <= n,
    ensures
        same_outcome(spec_nud(inner, i, held), spec_nud(outer, i + d, held)),
        spec_nud(inner, i, held) matches Parsed::Done { front, back, used } ==> i + used <= n,
    decreases n - i, 2nat,
{
    let node = peek_at(inner, i);
    let node2 = peek_at(outer, i + d);
    let after = next_index(inner, i);
    lemma_skip_mirror(inner, outer, d, n, i);
    let none = Seq::<ExpressionNode>::empty();
    match node.token {
        Token::Number | Token::Identifier => {
            lemma_alike_push(none, none, node, node2, ExpressionKind::Literal);
        },
        Token::Plus | Token::Minus => {
            lemma_expr_mirror(inner, outer, d, n, after, Precedence::Unary, held);
            if let Parsed::Done { front, back, used } = spec_expr(
                inner,
                after,
                Precedence::Unary,
                held,
            ) {
                let other = spec_expr(outer, after + d, Precedence::Unary, held);
                lemma_alike_push(back, other->back, node, node2, ExpressionKind::Prefix);
            }
        },
        Token::OpenParen => {
            lemma_expr_mirror(inner, outer, d, n, after, Precedence::Default, 0);
            if let Parsed::Done { front, back, used } = spec_expr(
                inner,
                after,
                Precedence::Default,
                0,
            ) {
                let other = spec_expr(outer, after + d, Precedence::Default, 0);
                lemma_skip_mirror(inner, outer, d, n, after + used);
                lemma_alike_concat(front, back, other->front, other->back);
                lemma_alike_push(
                    front + back,
                    other->front + other->back,
                    node,
                    node2,
                    ExpressionKind::Block,
                );
            }
        },
        _ => {},
    }
}

/// An expression in mirrored tokens is the same expression, but for the
/// offsets of its nodes.
proof fn lemma_expr_mirror(
    inner: Seq<TokenNode>,
    outer: Seq<TokenNode>,
    d: int,
    n: int,
    i: int,
    power: Precedence,
    held: nat,
)
    requires
        mirrors(inner, outer, d, n),
        0 <= i <= n,
    ensures
        same_outcome(spec_expr(inner, i, power, held), spec_expr(outer, i + d, power, held)),
        spec_expr(inner, i, power, held) matches Parsed::Done { front, back, used } ==> i + used
            <= n,
    decreases n - i, 3nat,
{
    lemma_nud_mirror(inner, outer, d, n, i, held);
    if let Parsed::Done { front, back, used } = spec_nud(inner, i, held) {
        let other = spec_nud(outer, i + d, held);
        lemma_led_mirror(
            inner,
            outer,
            d,
            n,
            i + used,
            power,
            front,
            back,
            other->front,
            other->back,
            held,
        );
    }
}

/// An operator with its operands in mirrored tokens.
proof fn lemma_step_mirror(
    inner: Seq<TokenNode>,
    outer: Seq<TokenNode>,
    d: int,
    n: int,
    after: int,
    operator: TokenNode,
    operator2: TokenNode,
    power: Precedence,
    held: nat,
)
    requires
        mirrors(inner, outer, d, n),
        0 <= after <= n,
        operator.token == operator2.token,
    ensures
        same_outcome(
            spec_step(inner, after, operator, power, held),
            spec_step(outer, after + d, operator2, power, held),
        ),
        spec_step(inner, after, operator, power, held) matches Parsed::Done {
            front,
            back,
            used,
        } ==> after + used <= n,
    decreases n - after, 4nat,
{
    if is_binary_operator(operator.token) {
        lemma_expr_mirror(inner, outer, d, n, after, power, held);
        if let Parsed::Done { front, back, used } = spec_expr(inner, after, power, held) {
            let other = spec_expr(outer, after + d, power, held);
            lemma_alike_push(back, other->back, operator, operator2, ExpressionKind::Binary);
        }
    } else if operator.token == Token::Question {
        lemma_expr_mirror(inner, outer, d, n, after, power, 0);
        if let Parsed::Done { front: middle_front, back: middle_back, used } = spec_expr(
            inner,
            after,
            power,
            0,
        ) {
            let middle2 = spec_expr(outer, after + d, power, 0);
            let branch = next_index(inner, after + used);
            lemma_skip_mirror(inner, outer, d, n, after + used);
            if peek_at(inner, after + used).token == Token::Colon {
                lemma_expr_mirror(inner, outer, d, n, branch, power, 0);
                if let Parsed::Done { front: right_front, back: right_back, used: right_used } =
                    spec_expr(inner, branch, power, 0) {
                    let right2 = spec_expr(outer, branch + d, power, 0);
                    lemma_alike_concat(right_front, right_back, right2->front, right2->back);
                    lemma_alike_concat(middle_front, middle_back, middle2->front, middle2->back);
                    lemma_alike_concat(
                        right_front + right_back,
                        middle_front + middle_back,
                        right2->front + right2->back,
                        middle2->front + middle2->back,
                    );
                    lemma_alike_push(
                        Seq::empty(),
                        Seq::empty(),
                        operator,
                        operator2,
                        ExpressionKind::Ternary,
                    );
                }
            }
        }
    }
}

/// Going on with an expression in mirrored tokens.
proof fn lemma_led_mirror(
    inner: Seq<TokenNode>,
    outer: Seq<TokenNode>,
    d: int,
    n: int,
    i: int,
    power: Precedence,
    front: Seq<ExpressionNode>,
    back: Seq<ExpressionNode>,
    front2: Seq<ExpressionNode>,
    back2: Seq<ExpressionNode>,
    held: nat,
)
    requires
        mirrors(inner, outer, d, n),
        0 <= i <= n,
        alike(front, front2),
        alike(back, back2),
    ensures
        same_outcome(
            spec_led(inner, i, power, front, back, held),
            spec_led(outer, i + d, power, front2, back2, held),
        ),
        spec_led(inner, i, power, front, back, held) matches Parsed::Done {
            front: whole_front,
            back: whole_back,
            used,
        } ==> i + used <= n,
    decreases n - i, 1nat,
{
    let node = peek_at(inner, i);
    let node2 = peek_at(outer, i + d);
    let next_power = spec_led_power(node.token);
    let after = next_index(inner, i);
    lemma_skip_mirror(inner, outer, d, n, i);
    if next_power.spec_rank() > power.spec_rank() {
        let room = (held + front.len() + back.len()) as nat;
        lemma_step_mirror(inner, outer, d, n, after, node, node2, next_power, room);
        let step = spec_step(inner, after, node, next_power, room);
        if step is Done {
            let step2 = spec_step(outer, after + d, node2, next_power, room);
            lemma_alike_concat(step->front, front, step2->front, front2);
            lemma_alike_concat(back, step->back, back2, step2->back);
            lemma_led_mirror(
                inner,
                outer,
                d,
                n,
                after + step->used,
                power,
                step->front + front,
                back + step->back,
                step2->front + front2,
                back2 + step2->back,
                held,
            );
        }
    }
}

/// Parentheses add one wrapping block node and change nothing else. Where
/// tokens without `Eof` and without a semicolon, with one `Eof` behind them,
/// parse as one expression statement with nodes `N`, the same kinds of token
/// between an opening and a closing parenthesis, with `Eof` behind them,
/// parse as one expression statement too: its nodes are those of `N` in
/// number, kinds and tokens, and one block node for the opening parenthesis
/// behind them. The offsets are free. `N` has to leave room for one node.
pub proof fn lemma_parenthesized(inner: Seq<TokenNode>, outer: Seq<TokenNode>)
    requires
        inner.len() >= 1,
        outer.len() == inner.len() + 2,
        inner.last().token == Token::Eof,
        forall|k: int|
            0 <= k < inner.len() - 1 ==> (#[trigger] inner[k]).token != Token::Eof && inner[k].token
                != Token::Semi,
        outer[0].token == Token::OpenParen,
        forall|k: int| 0 <= k < inner.len() - 1 ==> (#[trigger] inner[k]).token == outer[k + 1].token,
        outer[inner.len() as int].token == Token::CloseParen,
        outer.last().token == Token::Eof,
        spec_parse(inner, 0) matches Ok(statements) && statements.len() == 1
            && statements[0] is Expression,
        spec_parse(inner, 0)->Ok_0[0].nodes().len() < MAX_EXPRESSION_SIZE,
    ensures
        ({
            let nodes = spec_parse(inner, 0)->Ok_0[0].nodes();
            &&& spec_parse(outer, 0) matches Ok(statements)
            &&& statements.len() == 1
            &&& statements[0] matches StatementView::Expression { expr }
            &&& expr.len() == nodes.len() + 1
            &&& alike(expr.drop_last(), nodes)
            &&& expr.last() == node_of(outer[0], ExpressionKind::Block)
        }),
{
    let n = inner.len() - 1;
    assert(mirrors(inner, outer, 1, n));
    // the tokens on their own
    reveal_with_fuel(spec_parse, 2);
    lemma_skip_mirror(inner, outer, 1, n, 0);
    lemma_stmt_shape(inner, 0);
    let first = spec_expr(inner, 0, Precedence::Default, 0);
    let used = first->used as int;
    assert(spec_stmt(inner, 0) is Done);
    assert(spec_expr_stmt(inner, 0) is Done);
    lemma_expr_mirror(inner, outer, 1, n, 0, Precedence::Default, 0);
    lemma_skip_mirror(inner, outer, 1, n, used);
    assert(peek_at(inner, used).token != Token::Semi);
    assert(spec_stmt(inner, 0)->used == used);
    let rest = spec_parse(inner, used);
    assert(rest is Ok && rest->Ok_0.len() == 0) by {
        assert((seq![spec_stmt(inner, 0)->statement] + rest->Ok_0).len() == 1);
    }
    assert(!has_tokens_left(inner, used));
    assert(skip_trivia(inner, used) == n);
    // the tokens in parentheses
    let second = spec_expr(outer, 1, Precedence::Default, 0);
    lemma_skip_trivia(outer, 0);
    assert(skip_trivia(outer, 0) == 0);
    assert(peek_at(outer, 0) == outer[0]);
    assert(peek_at(outer, 1 + used) == outer[n + 1]);
    lemma_alike_concat(first->front, first->back, second->front, second->back);
    let block = node_of(outer[0], ExpressionKind::Block);
    let wrapped = (second->front + second->back).push(block);
    assert(!spec_full(second->front.len() + second->back.len()));
    assert(spec_nud(outer, 0, 0) == Parsed::Done {
        front: Seq::empty(),
        back: wrapped,
        used: (n + 2) as nat,
    });
    assert(skip_trivia(outer, n + 2) == n + 2);
    assert(peek_at(outer, n + 2) == outer[n + 2]);
    assert(spec_led(outer, n + 2, Precedence::Default, Seq::empty(), wrapped, 0)
        == Parsed::Done { front: Seq::empty(), back: wrapped, used: 0 });
    assert(spec_expr(outer, 0, Precedence::Default, 0) == Parsed::Done {
        front: Seq::empty(),
        back: wrapped,
        used: (n + 2) as nat,
    });
    assert(spec_stmt(outer, 0) == ParsedStatement::Done {
        statement: StatementView::Expression { expr: Seq::<ExpressionNode>::empty() + wrapped },
        used: (n + 2) as nat,
    });
    assert(!has_tokens_left(outer, n + 2));
    let whole = Seq::<ExpressionNode>::empty() + wrapped;
    assert(whole =~= wrapped);
    assert(wrapped.drop_last() =~= second->front + second->back);
    assert(spec_parse(outer, 0) == Ok::<Seq<StatementView>, super::grammar::ParseError>(
        seq![StatementView::Expression { expr: whole }] + Seq::empty(),
    ));
    assert(alike(wrapped.drop_last(), first->front + first->back)) by {
        let a = first->front + first->back;
        let b = second->front + second->back;
        assert forall|k: int| 0 <= k < b.len() implies (#[trigger] b[k]).kind == a[k].kind
            && b[k].token == a[k].token by {
            assert(a[k].kind == b[k].kind);
        }
    }
}

} // verus!
