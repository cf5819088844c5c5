//! Binding powers: how tightly a token holds what stands next to it.

use vstd::prelude::*;

use crate::lexer::tokens::{Token, TokenNode};

verus! {

/// The binding powers, from the loosest to the tightest.
#[derive(Debug, Clone, Copy, PartialEq, Eq, PartialOrd, Ord, Structural)]
pub enum Precedence {
    Default,
    Ternary,
    Additive,
    Multiplicative,
    Unary,
    Primary,
}

impl Precedence {
    /// The place of the power in the order: a tighter power has a higher rank.
    pub open spec fn spec_rank(self) -> nat {
        match self {
            Precedence::Default => 0,
            Precedence::Ternary => 1,
            Precedence::Additive => 2,
            Precedence::Multiplicative => 3,
            Precedence::Unary => 4,
            Precedence::Primary => 5,
        }
    }

    /// The place of the power in the order.
    pub fn rank(self) -> (r: u8)
        ensures
            r == self.spec_rank(),
    {
        match self {
            Precedence::Default => 0,
            Precedence::Ternary => 1,
            Precedence::Additive => 2,
            Precedence::Multiplicative => 3,
            Precedence::Unary => 4,
            Precedence::Primary => 5,
        }
    }
}

/// The power with which `token` starts an expression: a literal binds
/// tightest, a sign binds as a unary operator, and any other token does not
/// bind at all.
pub open spec fn spec_nud_power(token: Token) -> Precedence {
    match token {
        Token::Number | Token::Identifier => Precedence::Primary,
        Token::Plus | Token::Minus => Precedence::Unary,
        _ => Precedence::Default,
    }
}

/// The power with which the token of `node` starts an expression.
pub fn nud_power(node: &TokenNode) -> (power: Precedence)
    ensures
        power == spec_nud_power(node.token),
{
    match node.token {
        // literals
        Token::Number | Token::Identifier => Precedence::Primary,
        // prefix operators
        Token::Plus | Token::Minus => Precedence::Unary,
        // blocks, and what cannot start an expression
        _ => Precedence::Default,
    }
}

/// The power with which `token` continues an expression; `Default` for a
/// token that ends it.
pub open spec fn spec_led_power(token: Token) -> Precedence {
    match token {
        Token::Plus | Token::Minus => Precedence::Additive,
        Token::Star | Token::Slash | Token::Percent => Precedence::Multiplicative,
        Token::Question | Token::Colon => Precedence::Ternary,
        _ => Precedence::Default,
    }
}

/// The power with which the token of `node` continues an expression.
pub fn led_power(node: &TokenNode) -> (power: Precedence)
    ensures
        power == spec_led_power(node.token),
{
    match node.token {
        // infix operators
        Token::Plus | Token::Minus => Precedence::Additive,
        Token::Star | Token::Slash | Token::Percent => Precedence::Multiplicative,
        Token::Question | Token::Colon => Precedence::Ternary,
        // blocks, and the end of an expression
        _ => Precedence::Default,
    }
}

} // verus!
