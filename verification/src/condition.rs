//! The canonical negation of a condition.

use vstd::prelude::*;
use crate::expression::{Expression, ExpressionView, UnOpType};

verus! {

/// The canonical negation of a condition: a boolean negation loses its
/// negation, anything else gains one.
pub open spec fn negated(e: ExpressionView) -> ExpressionView {
    match e {
        ExpressionView::UnOp { op: UnOpType::BoolNegate, arg } => *arg,
        _ => ExpressionView::UnOp { op: UnOpType::BoolNegate, arg: Box::new(e) },
    }
}

/// Whether `e` is the boolean negation of a boolean negation.
pub open spec fn is_double_negation(e: ExpressionView) -> bool {
    match e {
        ExpressionView::UnOp { op: UnOpType::BoolNegate, arg } => (*arg).is_negation(),
        _ => false,
    }
}

/// The views of a sequence of expressions, in order.
pub open spec fn conditions_view(conditions: Seq<Expression>) -> Seq<ExpressionView> {
    Seq::new(conditions.len(), |i: int| conditions[i]@)
}

/// The view of an expression that may be absent.
pub open spec fn condition_option_view(condition: Option<Expression>) -> Option<ExpressionView> {
    match condition {
        Some(c) => Some(c@),
        None => None,
    }
}

/// Negates the given boolean condition, removing a negation that is already
/// there instead of adding a second one.
pub fn negate_condition(expr: Expression) -> (r: Expression)
    ensures
        r@ == negated(expr@),
{
    match expr {
        Expression::UnOp { op: UnOpType::BoolNegate, arg } => *arg,
        other => Expression::UnOp { op: UnOpType::BoolNegate, arg: Box::new(other) },
    }
}

/// The boolean negation of `e`, whatever `e` is.
pub open spec fn negation_of(e: ExpressionView) -> ExpressionView {
    ExpressionView::UnOp { op: UnOpType::BoolNegate, arg: Box::new(e) }
}

/// Negating twice gives the expression back, for every expression but the
/// negation of a negation, which loses both negations instead.
pub proof fn lemma_negated_twice(e: ExpressionView)
    ensures
        !is_double_negation(e) ==> negated(negated(e)) == e,
        is_double_negation(e) ==> negated(negated(e)) != e,
        is_double_negation(e) ==> negation_of(negation_of(negated(negated(e)))) == e,
{
}

} // verus!
