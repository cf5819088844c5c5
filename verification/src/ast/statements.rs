//! Statements: an expression on its own, or the declaration of a variable.

use vstd::prelude::*;

use super::expressions::{Expression, ExpressionNode};
use super::forest::{is_forest, weight};
use crate::utils::bit_array::{Bit, BitArray, Byte, BIT_1};

verus! {

/// The flags of a declaration.
pub enum StatementFlag {
    /// The variable is declared with `const`.
    IsConst,
}

impl BitArray for StatementFlag {
    open spec fn spec_bit(&self) -> Bit {
        BIT_1
    }

    fn bit(&self) -> Bit {
        match self {
            StatementFlag::IsConst => BIT_1,
        }
    }
}

/// A statement. `[E]` stands for an expression.
pub enum Statement {
    /// `[E]`
    Expression { expr: Expression },
    /// `[E value][E symbol]`: the value of the variable, then its name.
    Variable { expr: Expression, flags: Byte },
}

/// What a statement holds, without the buffer.
pub enum StatementView {
    Expression { expr: Seq<ExpressionNode> },
    Variable { expr: Seq<ExpressionNode>, flags: Byte },
}

impl View for Statement {
    type V = StatementView;

    open spec fn view(&self) -> StatementView {
        match self {
            Statement::Expression { expr } => StatementView::Expression { expr: expr@ },
            Statement::Variable { expr, flags } => StatementView::Variable {
                expr: expr@,
                flags: *flags,
            },
        }
    }
}

impl StatementView {
    /// The nodes of the statement.
    pub open spec fn nodes(self) -> Seq<ExpressionNode> {
        match self {
            StatementView::Expression { expr } => expr,
            StatementView::Variable { expr, .. } => expr,
        }
    }

    /// The number of expressions that the statement holds: one, or the value
    /// and the name of a variable.
    pub open spec fn roots(self) -> nat {
        match self {
            StatementView::Expression { .. } => 1,
            StatementView::Variable { .. } => 2,
        }
    }

    /// The nodes encode as many trees as the statement holds expressions.
    pub open spec fn well_shaped(self) -> bool {
        is_forest(self.nodes()) && weight(self.nodes()) == self.roots()
    }
}

impl Statement {
    /// The buffer of the statement is in order.
    pub open spec fn wf(&self) -> bool {
        match self {
            Statement::Expression { expr } => expr.wf(),
            Statement::Variable { expr, .. } => expr.wf(),
        }
    }

    /// The nodes of the statement.
    pub fn expr(&self) -> (expr: &Expression)
        ensures
            expr@ == self@.nodes(),
            expr.wf() == self.wf(),
    {
        match self {
            Statement::Expression { expr } => expr,
            Statement::Variable { expr, .. } => expr,
        }
    }

    /// The number of expressions that the statement holds.
    pub fn roots(&self) -> (roots: usize)
        ensures
            roots == self@.roots(),
    {
        match self {
            Statement::Expression { .. } => 1,
            Statement::Variable { .. } => 2,
        }
    }

    /// Whether the statement declares a constant.
    pub fn is_const(&self) -> (r: bool)
        ensures
            r == (self@ matches StatementView::Variable { flags, .. } && BIT_1 & flags != 0),
    {
        match self {
            Statement::Expression { .. } => false,
            Statement::Variable { flags, .. } => StatementFlag::IsConst.has(*flags),
        }
    }
}

} // verus!
