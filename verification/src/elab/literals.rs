//! Literals whose type comes from where they stand.

use crate::ast::{Expr, ExprKind, UnaryOp};
use vstd::prelude::*;

verus! {

/// Whether an expression is a literal that takes its type from what stands
/// beside it: an integer literal without a suffix, possibly negated or in
/// parentheses, or a hole.
pub open spec fn takes_type_from_context(expr: Expr) -> bool
    decreases expr,
{
    match expr.kind {
        ExprKind::Integer(literal) => literal.suffix is None,
        ExprKind::Hole => true,
        ExprKind::Group(inner) => takes_type_from_context(*inner),
        ExprKind::Unary { operator: UnaryOp::Neg, expr: inner, .. } => match inner.kind {
            ExprKind::Integer(literal) => literal.suffix is None,
            _ => false,
        },
        _ => false,
    }
}

/// Whether an expression is a literal that takes its type from what stands
/// beside it.
pub fn untyped_literal(expr: &Expr) -> (result: bool)
    ensures
        result == takes_type_from_context(*expr),
    decreases expr,
{
    match &expr.kind {
        ExprKind::Integer(literal) => literal.suffix.is_none(),
        ExprKind::Hole => true,
        ExprKind::Group(inner) => untyped_literal(inner),
        ExprKind::Unary { operator: UnaryOp::Neg, expr: inner, .. } => match &inner.kind {
            ExprKind::Integer(literal) => literal.suffix.is_none(),
            _ => false,
        },
        _ => false,
    }
}

} // verus!
