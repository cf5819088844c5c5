//! Expression nodes. An expression is a sequence of nodes in which every
//! operator follows its operands; the kind of a node tells how many operands
//! it takes.

use vstd::prelude::*;

use crate::lexer::tokens::Token;
use crate::utils::array_page_buffer::ArrayPageBuffer;

verus! {

/// The kind of a node. `[E]` stands for an expression and `[T]` for the token
/// of the node: a source `[L][T][R]` is stored as `[L][R][T]`.
#[derive(Debug, Clone, Copy, PartialEq, Eq, Structural)]
pub enum ExpressionKind {
    /// `[T]`
    Literal,
    /// `[T][E]`, stored as `[E][T]`
    Prefix,
    /// `[T][E][T]`, stored as `[E][T]`
    Block,
    /// `[L][T][R]`, stored as `[L][R][T]`
    Binary,
    /// `[L][T][M][T][R]`, stored as `[R][M][L][T]`
    Ternary,
}

impl ExpressionKind {
    /// The number of operands that a node of this kind takes. They are the
    /// expressions that stand directly before it.
    pub open spec fn spec_arity(self) -> nat {
        match self {
            ExpressionKind::Literal => 0,
            ExpressionKind::Prefix => 1,
            ExpressionKind::Block => 1,
            ExpressionKind::Binary => 2,
            ExpressionKind::Ternary => 3,
        }
    }

    /// The number of operands that a node of this kind takes.
    pub fn arity(self) -> (n: usize)
        ensures
            n == self.spec_arity(),
    {
        match self {
            ExpressionKind::Literal => 0,
            ExpressionKind::Prefix => 1,
            ExpressionKind::Block => 1,
            ExpressionKind::Binary => 2,
            ExpressionKind::Ternary => 3,
        }
    }
}

/// One node of an expression: its token, the offset of that token in the
/// source, and its kind.
#[derive(Debug, Clone, Copy, PartialEq, Eq, Structural)]
pub struct ExpressionNode {
    pub index: u32,
    pub token: Token,
    pub kind: ExpressionKind,
}

/// The most nodes that `ExpressionNode::new` accepts as the size of an
/// expression.
pub const MAX_EXPRESSION_SIZE: usize = 0xffff;

impl ExpressionNode {
    /// A node of kind `kind` for `token` at offset `index`. `size` is the
    /// number of nodes of the expression that the node closes; it is checked
    /// against `MAX_EXPRESSION_SIZE` and not kept.
    pub fn new(index: u32, size: usize, token: Token, kind: ExpressionKind) -> (node:
        ExpressionNode)
        requires
            size <= MAX_EXPRESSION_SIZE,
        ensures
            node == (ExpressionNode { index, token, kind }),
    {
        ExpressionNode { index, token, kind }
    }
}

/// An expression: its nodes, operands before operators.
pub type Expression = ArrayPageBuffer<ExpressionNode>;

} // verus!
