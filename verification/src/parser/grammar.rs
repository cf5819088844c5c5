//! What the parser makes of a token sequence, stated without buffers or
//! cursors: the nodes that an expression adds, and the tokens that it uses up.
//!
//! An expression is parsed into a buffer that may hold nodes already. Most of
//! its nodes go to the back of the buffer; the branches of a conditional go to
//! the front. An expression in parentheses, and each branch of a conditional,
//! is parsed on its own, so that below the loosest binding power nothing goes
//! to the front of what the buffer held.

use vstd::prelude::*;

use super::precedence::{spec_led_power, Precedence};
use crate::ast::expressions::{ExpressionKind, ExpressionNode, MAX_EXPRESSION_SIZE};
use crate::ast::statements::StatementView;
use crate::lexer::tokens::{Token, TokenNode};

verus! {

/// Why a parse stopped.
#[derive(Debug, Clone, Copy, PartialEq, Eq, Structural)]
pub struct ParseError {
    /// The token that the parser could not use.
    pub token: TokenNode,
    /// The kind of token that had to stand there, where only one kind could.
    pub expected: Option<Token>,
    /// The token is an operator that fits, but its expression would have
    /// more than `MAX_EXPRESSION_SIZE` nodes.
    pub too_large: bool,
}

/// The outcome of parsing one expression.
pub enum Parsed {
    Done {
        /// The nodes added before what the buffer held.
        front: Seq<ExpressionNode>,
        /// The nodes added after what the buffer held.
        back: Seq<ExpressionNode>,
        /// The number of tokens used up.
        used: nat,
    },
    Failed { error: ParseError },
}

impl Parsed {
    /// The same outcome, seen from `more` tokens earlier.
    pub open spec fn after(self, more: nat) -> Parsed {
        match self {
            Parsed::Done { front, back, used } => Parsed::Done { front, back, used: used + more },
            Parsed::Failed { error } => Parsed::Failed { error },
        }
    }
}

/// The outcome of parsing one statement.
pub enum ParsedStatement {
    Done {
        statement: StatementView,
        /// The number of tokens used up.
        used: nat,
    },
    Failed { error: ParseError },
}

/// The token that stands for the end of the input where the tokens run out.
pub open spec fn eof() -> TokenNode {
    TokenNode { index: 0, token: Token::Eof }
}

/// The first place from `i` on that holds neither a comment nor a line end.
pub open spec fn skip_trivia(tokens: Seq<TokenNode>, i: int) -> int
    decreases tokens.len() - i,
{
    if 0 <= i < tokens.len() && tokens[i].token.spec_is_trivia() {
        skip_trivia(tokens, i + 1)
    } else {
        i
    }
}

/// The token that the parser sees at place `i`.
pub open spec fn peek_at(tokens: Seq<TokenNode>, i: int) -> TokenNode {
    let j = skip_trivia(tokens, i);
    if 0 <= j < tokens.len() {
        tokens[j]
    } else {
        eof()
    }
}

/// The place after the token that the parser sees at place `i`; where the
/// tokens have run out, the place after the one that the parser looked at.
pub open spec fn next_index(tokens: Seq<TokenNode>, i: int) -> int {
    skip_trivia(tokens, i) + 1
}

/// The number of tokens from place `i` on.
pub open spec fn remaining(tokens: Seq<TokenNode>, i: int) -> nat {
    if i < tokens.len() {
        (tokens.len() - i) as nat
    } else {
        0
    }
}

/// Skipping moves forward only, and stays within the tokens.
pub proof fn lemma_skip_trivia(tokens: Seq<TokenNode>, i: int)
    ensures
        i <= skip_trivia(tokens, i),
        i <= tokens.len() ==> skip_trivia(tokens, i) <= tokens.len(),
        forall|k: int| i <= k < skip_trivia(tokens, i) ==> 0 <= k < tokens.len() && (
        #[trigger] tokens[k]).token.spec_is_trivia(),
        0 <= skip_trivia(tokens, i) < tokens.len() ==> !tokens[skip_trivia(
            tokens,
            i,
        )].token.spec_is_trivia(),
    decreases tokens.len() - i,
{
    if 0 <= i < tokens.len() && tokens[i].token.spec_is_trivia() {
        lemma_skip_trivia(tokens, i + 1);
    }
}

/// The node of kind `kind` for the token `token`.
pub open spec fn node_of(token: TokenNode, kind: ExpressionKind) -> ExpressionNode {
    ExpressionNode { index: token.index, token: token.token, kind }
}

/// Whether a buffer of `len` nodes is full: an operator node closes an
/// expression of all the nodes of its buffer and itself, and an expression
/// has `MAX_EXPRESSION_SIZE` nodes at most.
pub open spec fn spec_full(len: nat) -> bool {
    len + 1 > MAX_EXPRESSION_SIZE
}

/// The error for the operator `operator` that finds its buffer full.
pub open spec fn oversize(operator: TokenNode) -> ParseError {
    ParseError { token: operator, expected: None, too_large: true }
}

/// The error for the token `token` that stands where it cannot be used, or
/// in place of a token of the kind `expected`.
pub open spec fn unexpected(token: TokenNode, expected: Option<Token>) -> ParseError {
    ParseError { token, expected, too_large: false }
}

/// The expression that starts at place `i` and goes on as long as the next
/// operator binds tighter than `power`, parsed into a buffer of `held`
/// nodes.
pub open spec fn spec_expr(tokens: Seq<TokenNode>, i: int, power: Precedence, held: nat) -> Parsed
    decreases remaining(tokens, i), 3nat,
{
    match spec_nud(tokens, i, held) {
        Parsed::Failed { error } => Parsed::Failed { error },
        Parsed::Done { front, back, used } => match spec_led(
            tokens,
            i + used,
            power,
            front,
            back,
            held,
        ) {
            Parsed::Failed { error } => Parsed::Failed { error },
            Parsed::Done { front, back, used: more } => Parsed::Done {
                front,
                back,
                used: used + more,
            },
        },
    }
}

/// The start of an expression at place `i`: a literal, a sign with its
/// operand, or an expression in parentheses. An expression in parentheses is
/// parsed on its own, and all its nodes go to the back, in their order, with
/// one block node behind them.
pub open spec fn spec_nud(tokens: Seq<TokenNode>, i: int, held: nat) -> Parsed
    decreases remaining(tokens, i), 2nat,
{
    let node = peek_at(tokens, i);
    let after = next_index(tokens, i);
    let step = (after - i) as nat;
    match node.token {
        Token::Number | Token::Identifier => Parsed::Done {
            front: Seq::empty(),
            back: seq![node_of(node, ExpressionKind::Literal)],
            used: step,
        },
        Token::Plus | Token::Minus => {
            proof {
                lemma_skip_trivia(tokens, i);
            }
            match spec_expr(tokens, after, Precedence::Unary, held) {
                Parsed::Failed { error } => Parsed::Failed { error },
                Parsed::Done { front, back, used } => if spec_full(
                    held + front.len() + back.len(),
                ) {
                    Parsed::Failed { error: oversize(node) }
                } else {
                    Parsed::Done {
                        front,
                        back: back.push(node_of(node, ExpressionKind::Prefix)),
                        used: step + used,
                    }
                },
            }
        },
        Token::OpenParen => {
            proof {
                lemma_skip_trivia(tokens, i);
            }
            match spec_expr(tokens, after, Precedence::Default, 0) {
                Parsed::Failed { error } => Parsed::Failed { error },
                Parsed::Done { front, back, used } => {
                    let close = peek_at(tokens, after + used);
                    if close.token != Token::CloseParen {
                        Parsed::Failed { error: unexpected(close, Some(Token::CloseParen)) }
                    } else if spec_full(held + front.len() + back.len()) {
                        Parsed::Failed { error: oversize(node) }
                    } else {
                        Parsed::Done {
                            front: Seq::empty(),
                            back: (front + back).push(node_of(node, ExpressionKind::Block)),
                            used: (next_index(tokens, after + used) - i) as nat,
                        }
                    }
                },
            }
        },
        _ => Parsed::Failed { error: unexpected(node, None) },
    }
}

/// Whether `token` is an operator between two operands.
pub open spec fn is_binary_operator(token: Token) -> bool {
    token == Token::Plus || token == Token::Minus || token == Token::Star || token == Token::Slash
        || token == Token::Percent
}

/// What a binary operator adds to a buffer of `held` nodes: its right
/// operand, which starts at place `after`, directly behind the operator, and
/// then the operator itself. The tokens used are counted from place `after`.
pub open spec fn spec_binary(
    tokens: Seq<TokenNode>,
    after: int,
    operator: TokenNode,
    power: Precedence,
    held: nat,
) -> Parsed
    decreases remaining(tokens, after), 4nat,
{
    match spec_expr(tokens, after, power, held) {
        Parsed::Failed { error } => Parsed::Failed { error },
        Parsed::Done { front, back, used } => if spec_full(held + front.len() + back.len()) {
            Parsed::Failed { error: oversize(operator) }
        } else {
            Parsed::Done {
                front,
                back: back.push(node_of(operator, ExpressionKind::Binary)),
                used,
            }
        },
    }
}

/// What a question mark adds to a buffer of `held` nodes: the two branches
/// that follow it from place `after` on, with a colon between them, are
/// parsed each on its own and go to the front, the branch behind the colon
/// first; the operator goes to the back. The tokens used are counted from
/// place `after`.
pub open spec fn spec_ternary(
    tokens: Seq<TokenNode>,
    after: int,
    operator: TokenNode,
    power: Precedence,
    held: nat,
) -> Parsed
    decreases remaining(tokens, after), 4nat,
{
    match spec_expr(tokens, after, power, 0) {
        Parsed::Failed { error } => Parsed::Failed { error },
        Parsed::Done { front: middle_front, back: middle_back, used: middle_used } => {
            let colon = peek_at(tokens, after + middle_used);
            let branch = next_index(tokens, after + middle_used);
            if colon.token != Token::Colon {
                Parsed::Failed { error: unexpected(colon, Some(Token::Colon)) }
            } else {
                proof {
                    lemma_skip_trivia(tokens, after + middle_used);
                }
                match spec_expr(tokens, branch, power, 0) {
                    Parsed::Failed { error } => Parsed::Failed { error },
                    Parsed::Done { front: right_front, back: right_back, used: right_used } => {
                        let right = right_front + right_back;
                        let middle = middle_front + middle_back;
                        if spec_full(held + middle.len() + right.len()) {
                            Parsed::Failed { error: oversize(operator) }
                        } else {
                            Parsed::Done {
                                front: right + middle,
                                back: seq![node_of(operator, ExpressionKind::Ternary)],
                                used: ((branch + right_used) - after) as nat,
                            }
                        }
                    },
                }
            }
        },
    }
}

/// What the operator `operator` adds to a buffer of `held` nodes, with the
/// operands that follow it from place `after` on; a token that binds but is
/// no operator cannot go on with an expression.
pub open spec fn spec_step(
    tokens: Seq<TokenNode>,
    after: int,
    operator: TokenNode,
    power: Precedence,
    held: nat,
) -> Parsed
    decreases remaining(tokens, after), 5nat,
{
    if is_binary_operator(operator.token) {
        spec_binary(tokens, after, operator, power, held)
    } else if operator.token == Token::Question {
        spec_ternary(tokens, after, operator, power, held)
    } else {
        Parsed::Failed { error: unexpected(operator, None) }
    }
}

/// The rest of an expression from place `i` on, after `front` and `back`
/// have been added to a buffer of `held` nodes: as long as the operator at
/// hand binds tighter than `power`, it takes what has been parsed as its left
/// operand, adds its other operands and itself, and the expression goes on
/// behind them.
pub open spec fn spec_led(
    tokens: Seq<TokenNode>,
    i: int,
    power: Precedence,
    front: Seq<ExpressionNode>,
    back: Seq<ExpressionNode>,
    held: nat,
) -> Parsed
    decreases remaining(tokens, i), 1nat,
{
    let node = peek_at(tokens, i);
    let next_power = spec_led_power(node.token);
    let after = next_index(tokens, i);
    if next_power.spec_rank() <= power.spec_rank() {
        Parsed::Done { front, back, used: 0 }
    } else {
        proof {
            lemma_skip_trivia(tokens, i);
        }
        match spec_step(tokens, after, node, next_power, held + front.len() + back.len()) {
            Parsed::Failed { error } => Parsed::Failed { error },
            Parsed::Done { front: step_front, back: step_back, used } => spec_led(
                tokens,
                after + used,
                power,
                step_front + front,
                back + step_back,
                held,
            ).after((after - i) as nat + used),
        }
    }
}

/// The token before place `i`, also where it is a comment or a line end.
pub open spec fn prev_at(tokens: Seq<TokenNode>, i: int) -> TokenNode {
    if 0 < i <= tokens.len() {
        tokens[i - 1]
    } else {
        eof()
    }
}

/// Whether a statement starts at place `i`: the input does not end there.
pub open spec fn has_tokens_left(tokens: Seq<TokenNode>, i: int) -> bool {
    peek_at(tokens, i).token != Token::Eof
}

/// The flags of a declaration that starts with `keyword`.
pub open spec fn flags_of(keyword: Token) -> u8 {
    if keyword == Token::Const {
        crate::utils::bit_array::BIT_1
    } else {
        0
    }
}

/// The declaration at place `i`: the keyword, the name, an equals sign, and
/// the value. The nodes of the value come first.
pub open spec fn spec_variable_stmt(tokens: Seq<TokenNode>, i: int) -> ParsedStatement {
    let keyword = peek_at(tokens, i);
    let after = next_index(tokens, i);
    match spec_expr(tokens, after, Precedence::Default, 0) {
        Parsed::Failed { error } => ParsedStatement::Failed { error },
        Parsed::Done { front: symbol_front, back: symbol_back, used: symbol_used } => {
            let equal = peek_at(tokens, after + symbol_used);
            let start = next_index(tokens, after + symbol_used);
            if equal.token != Token::Equal {
                ParsedStatement::Failed { error: unexpected(equal, Some(Token::Equal)) }
            } else {
                match spec_expr(tokens, start, Precedence::Default, 0) {
                    Parsed::Failed { error } => ParsedStatement::Failed { error },
                    Parsed::Done { front: value_front, back: value_back, used: value_used } => {
                        ParsedStatement::Done {
                            statement: StatementView::Variable {
                                expr: (value_front + value_back) + (symbol_front + symbol_back),
                                flags: flags_of(keyword.token),
                            },
                            used: (start + value_used - i) as nat,
                        }
                    },
                }
            }
        },
    }
}

/// The expression statement at place `i`.
pub open spec fn spec_expr_stmt(tokens: Seq<TokenNode>, i: int) -> ParsedStatement {
    match spec_expr(tokens, i, Precedence::Default, 0) {
        Parsed::Failed { error } => ParsedStatement::Failed { error },
        Parsed::Done { front, back, used } => ParsedStatement::Done {
            statement: StatementView::Expression { expr: front + back },
            used,
        },
    }
}

/// The statement at place `i`, with the semicolon after it if there is one.
pub open spec fn spec_stmt(tokens: Seq<TokenNode>, i: int) -> ParsedStatement {
    let first = peek_at(tokens, i).token;
    let body = if first == Token::Let || first == Token::Const {
        spec_variable_stmt(tokens, i)
    } else {
        spec_expr_stmt(tokens, i)
    };
    match body {
        ParsedStatement::Failed { error } => ParsedStatement::Failed { error },
        ParsedStatement::Done { statement, used } => {
            if peek_at(tokens, i + used).token == Token::Semi {
                ParsedStatement::Done {
                    statement,
                    used: (next_index(tokens, i + used) - i) as nat,
                }
            } else {
                ParsedStatement::Done { statement, used }
            }
        },
    }
}

/// The statements from place `i` on, up to the end of the input.
pub open spec fn spec_parse(tokens: Seq<TokenNode>, i: int) -> Result<
    Seq<StatementView>,
    ParseError,
>
    decreases remaining(tokens, i),
{
    if !has_tokens_left(tokens, i) {
        Ok(Seq::empty())
    } else {
        match spec_stmt(tokens, i) {
            ParsedStatement::Failed { error } => Err(error),
            ParsedStatement::Done { statement, used } => {
                proof {
                    super::shape::lemma_stmt_shape(tokens, i);
                }
                match spec_parse(tokens, i + used) {
                    Err(error) => Err(error),
                    Ok(rest) => Ok(seq![statement] + rest),
                }
            },
        }
    }
}

} // verus!
