//! The flat expression encoding: nodes, their arities, and how a sequence of
//! nodes is read back as trees.

use vstd::prelude::*;

use crate::lexer::tokens::Token;

pub mod expressions;
pub mod forest;
pub mod statements;
pub mod subtree;
pub mod traversal;

verus! {

/// The kind of a sized node. `[E]` stands for an expression and `[T]` for the
/// token of the node.
#[derive(Debug, Clone, Copy, PartialEq, Eq, Structural)]
pub enum NodeKind {
    /// `[T]`
    Literal,
    /// `[T][E]`, stored as `[E][T]`
    Prefix,
    /// `[E][T]`
    Sufix,
    /// `[T][E][T]`, stored as `[E][T]`
    Block,
    /// `[L][T][R]`, stored as `[L][R][T]`
    Binary,
    /// `[L][T][M][T][R]`, stored as `[R][M][L][T]`
    Ternary,
}

/// A node that carries the size of its tree: the number of nodes that the
/// tree takes in the sequence, the node itself counted.
#[derive(Debug, Clone, Copy, PartialEq, Eq, Structural)]
pub struct Node {
    pub index: u32,
    pub size: u16,
    pub token: Token,
    pub kind: NodeKind,
}

impl Node {
    pub fn new(index: u32, size: u16, token: Token, kind: NodeKind) -> (node: Node)
        ensures
            node == (Node { index, size, token, kind }),
    {
        Node { index, size, token, kind }
    }

    pub fn new_literal(index: u32, size: u16, token: Token) -> (node: Node)
        ensures
            node == (Node { index, size, token, kind: NodeKind::Literal }),
    {
        Node::new(index, size, token, NodeKind::Literal)
    }

    pub fn new_prefix(index: u32, size: u16, token: Token) -> (node: Node)
        ensures
            node == (Node { index, size, token, kind: NodeKind::Prefix }),
    {
        Node::new(index, size, token, NodeKind::Prefix)
    }

    pub fn new_sufix(index: u32, size: u16, token: Token) -> (node: Node)
        ensures
            node == (Node { index, size, token, kind: NodeKind::Sufix }),
    {
        Node::new(index, size, token, NodeKind::Sufix)
    }

    pub fn new_block(index: u32, size: u16, token: Token) -> (node: Node)
        ensures
            node == (Node { index, size, token, kind: NodeKind::Block }),
    {
        Node::new(index, size, token, NodeKind::Block)
    }

    pub fn new_binary(index: u32, size: u16, token: Token) -> (node: Node)
        ensures
            node == (Node { index, size, token, kind: NodeKind::Binary }),
    {
        Node::new(index, size, token, NodeKind::Binary)
    }

    pub fn new_ternary(index: u32, size: u16, token: Token) -> (node: Node)
        ensures
            node == (Node { index, size, token, kind: NodeKind::Ternary }),
    {
        Node::new(index, size, token, NodeKind::Ternary)
    }
}

} // verus!
