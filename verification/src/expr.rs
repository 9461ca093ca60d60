//! The expression tree.
//!
//! Expressions are a closed tagged-variant type exposing exactly the
//! capabilities the equivalence machinery needs: structural equality, child
//! enumeration, rebuild-with-new-children, a kind tag distinguishing node
//! kinds, and a column variant carrying a name and an ordinal index.
//! Expressions are never mutated; operations build new trees.

use vstd::prelude::*;
use crate::scalar::{ScalarVal, SpecScalar};

verus! {

/// Binary operators.  The operator is a payload of a binary node, not part of
/// its kind tag: two binary nodes have the same kind whatever their
/// operators.
#[derive(Debug, Clone, Copy, PartialEq, Eq, Hash, Structural)]
pub enum Operator {
    Plus,
    Minus,
    Multiply,
    Divide,
    Eq,
    NotEq,
    Lt,
    Gt,
    And,
    Or,
}

/// Mathematical model of an expression tree.
pub enum SpecExpr {
    Column { name: Seq<char>, index: int },
    Literal { value: SpecScalar },
    Binary { op: Operator, left: Box<SpecExpr>, right: Box<SpecExpr> },
}

/// An expression tree node.
#[derive(Debug, PartialEq, Eq, Hash)]
pub enum Expr {
    /// A reference to a column of the relation, by name and ordinal index.
    Column { name: String, index: usize },
    /// A constant.
    Literal { value: ScalarVal },
    /// A binary operation over two child expressions.
    Binary { op: Operator, left: Box<Expr>, right: Box<Expr> },
}

/// The model of an expression: the same tree over mathematical values.
pub open spec fn spec_expr_of(e: Expr) -> SpecExpr
    decreases e,
{
    match e {
        Expr::Column { name, index } => SpecExpr::Column { name: name@, index: index as int },
        Expr::Literal { value } => SpecExpr::Literal { value: value@ },
        Expr::Binary { op, left, right } => SpecExpr::Binary {
            op,
            left: Box::new(spec_expr_of(*left)),
            right: Box::new(spec_expr_of(*right)),
        },
    }
}

impl View for Expr {
    type V = SpecExpr;

    open spec fn view(&self) -> SpecExpr {
        spec_expr_of(*self)
    }
}

impl DeepView for Expr {
    type V = SpecExpr;

    open spec fn deep_view(&self) -> SpecExpr {
        spec_expr_of(*self)
    }
}

impl SpecExpr {
    /// A leaf has no children.
    pub open spec fn is_leaf(&self) -> bool {
        !(self is Binary)
    }

    /// Kind tags agree exactly when the two nodes are the same variant; for
    /// binary nodes the operator is not part of the kind.
    pub open spec fn same_kind(&self, other: &SpecExpr) -> bool {
        match (self, other) {
            (SpecExpr::Column { .. }, SpecExpr::Column { .. }) => true,
            (SpecExpr::Literal { .. }, SpecExpr::Literal { .. }) => true,
            (SpecExpr::Binary { .. }, SpecExpr::Binary { .. }) => true,
            _ => false,
        }
    }
}

/// The tree with every column index shifted up by `d`.
pub open spec fn spec_offset_expr(e: SpecExpr, d: int) -> SpecExpr
    decreases e,
{
    match e {
        SpecExpr::Column { name, index } => SpecExpr::Column { name, index: index + d },
        SpecExpr::Literal { value } => SpecExpr::Literal { value },
        SpecExpr::Binary { op, left, right } => SpecExpr::Binary {
            op,
            left: Box::new(spec_offset_expr(*left, d)),
            right: Box::new(spec_offset_expr(*right, d)),
        },
    }
}

/// Every column index of `e`, shifted up by `d`, still fits in a machine
/// word.
pub open spec fn spec_can_offset(e: SpecExpr, d: int) -> bool
    decreases e,
{
    match e {
        SpecExpr::Column { name, index } => index + d <= usize::MAX,
        SpecExpr::Literal { .. } => true,
        SpecExpr::Binary { op, left, right } => spec_can_offset(*left, d) && spec_can_offset(
            *right,
            d,
        ),
    }
}

impl Expr {
    /// Structural equality of expression trees.
    pub fn eq_expr(&self, other: &Expr) -> (r: bool)
        ensures
            r == (self@ == other@),
        decreases self,
    {
        match self {
            Expr::Column { name: n1, index: i1 } => match other {
                Expr::Column { name: n2, index: i2 } => *i1 == *i2 && n1.eq(n2),
                _ => false,
            },
            Expr::Literal { value: v1 } => match other {
                Expr::Literal { value: v2 } => v1.eq_scalar(v2),
                _ => false,
            },
            Expr::Binary { op: o1, left: l1, right: r1 } => match other {
                Expr::Binary { op: o2, left: l2, right: r2 } => *o1 == *o2 && l1.eq_expr(l2)
                    && r1.eq_expr(r2),
                _ => false,
            },
        }
    }

    /// Returns true when the node has no children.
    pub fn is_leaf(&self) -> (r: bool)
        ensures
            r == self@.is_leaf(),
    {
        match self {
            Expr::Binary { .. } => false,
            _ => true,
        }
    }

    /// A new tree with every column index shifted up by `offset`; used when a
    /// right-hand relation's schema is appended after a left-hand relation of
    /// that width.
    pub fn with_offset(&self, offset: usize) -> (r: Expr)
        requires
            spec_can_offset(self@, offset as int),
        ensures
            r@ == spec_offset_expr(self@, offset as int),
        decreases self,
    {
        match self {
            Expr::Column { name, index } => Expr::Column {
                name: name.clone(),
                index: *index + offset,
            },
            Expr::Literal { value } => Expr::Literal { value: value.clone() },
            Expr::Binary { op, left, right } => Expr::Binary {
                op: *op,
                left: Box::new(left.with_offset(offset)),
                right: Box::new(right.with_offset(offset)),
            },
        }
    }
}

impl Clone for Expr {
    /// Deep copy with the same mathematical value.
    fn clone(&self) -> (r: Self)
        ensures
            r@ == self@,
        decreases self,
    {
        match self {
            Expr::Column { name, index } => Expr::Column { name: name.clone(), index: *index },
            Expr::Literal { value } => Expr::Literal { value: value.clone() },
            Expr::Binary { op, left, right } => Expr::Binary {
                op: *op,
                left: Box::new((&**left).clone()),
                right: Box::new((&**right).clone()),
            },
        }
    }
}

} // verus!
