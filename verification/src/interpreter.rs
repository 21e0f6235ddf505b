//! The interpreter: the value of an expression in 64-bit signed arithmetic.
use vstd::prelude::*;

use crate::lexer::{Span, Spanned};
use crate::parser::{well_spanned, BinaryOperator, Expression, ExpressionKind};

verus! {

#[derive(Debug, PartialEq, Eq)]
pub enum EvalErrorKind {
    Overflow,
    DivisionByZero,
}

pub type EvalError = Spanned<EvalErrorKind>;

/// Rust's integer division: the exact quotient rounded toward zero.
pub open spec fn quotient(a: int, d: int) -> int {
    let q = (if a < 0 { -a } else { a }) / (if d < 0 { -d } else { d });
    if (a < 0) != (d < 0) && a != 0 {
        -q
    } else {
        q
    }
}

/// The exact result of an operator on two integers (the divisor of a
/// division not zero).
pub open spec fn apply(operator: BinaryOperator, l: int, r: int) -> int {
    match operator {
        BinaryOperator::Add => l + r,
        BinaryOperator::Sub => l - r,
        BinaryOperator::Mul => l * r,
        BinaryOperator::Div => quotient(l, r),
    }
}

/// The value of an expression: its operands are evaluated left before right
/// and the first error stops the evaluation; a division by zero is reported
/// at the divisor, and a result outside the range of `i64` at the operation.
pub open spec fn eval(e: Expression) -> Result<i64, EvalError>
    decreases e,
{
    match e.kind {
        ExpressionKind::Integer(n) => Ok(n),
        ExpressionKind::Binary { left, operator, right } => match eval(*left) {
            Err(err) => Err(err),
            Ok(l) => match eval(*right) {
                Err(err) => Err(err),
                Ok(r) => if operator == BinaryOperator::Div && r == 0 {
                    Err(Spanned { kind: EvalErrorKind::DivisionByZero, span: right.span })
                } else {
                    let v = apply(operator, l as int, r as int);
                    if i64::MIN <= v <= i64::MAX {
                        Ok(v as i64)
                    } else {
                        Err(Spanned { kind: EvalErrorKind::Overflow, span: e.span })
                    }
                },
            },
        },
    }
}

pub fn evaluate(expr: &Expression) -> (r: Result<i64, EvalError>)
    ensures
        r == eval(*expr),
    decreases expr,
{
    match &expr.kind {
        ExpressionKind::Integer(value) => Ok(*value),
        ExpressionKind::Binary { left, operator, right } => {
            let lhs = match evaluate(left) {
                Ok(v) => v,
                Err(e) => return Err(e),
            };
            let rhs = match evaluate(right) {
                Ok(v) => v,
                Err(e) => return Err(e),
            };

            let result = match operator {
                BinaryOperator::Add => lhs.checked_add(rhs),
                BinaryOperator::Sub => lhs.checked_sub(rhs),
                BinaryOperator::Mul => lhs.checked_mul(rhs),
                BinaryOperator::Div => {
                    if rhs == 0 {
                        return Err(Spanned::new(EvalErrorKind::DivisionByZero, right.span));
                    }
                    lhs.checked_div(rhs)
                },
            };

            match result {
                Some(v) => Ok(v),
                None => Err(Spanned::new(EvalErrorKind::Overflow, expr.span)),
            }
        },
    }
}

// ---------------------------------------------------------------------------
// Laws of evaluation
// ---------------------------------------------------------------------------

/// `sp` is the span of `e` or of one of its subexpressions.
pub open spec fn has_node_span(e: Expression, sp: Span) -> bool
    decreases e,
{
    e.span == sp || match e.kind {
        ExpressionKind::Integer(_) => false,
        ExpressionKind::Binary { left, right, .. } => has_node_span(*left, sp) || has_node_span(
            *right,
            sp,
        ),
    }
}

/// Somewhere in `e` a division has a divisor with the span `sp` whose value is zero.
pub open spec fn divides_by_zero_at(e: Expression, sp: Span) -> bool
    decreases e,
{
    match e.kind {
        ExpressionKind::Integer(_) => false,
        ExpressionKind::Binary { left, operator, right } => {
            ||| (operator == BinaryOperator::Div && right.span == sp && eval(*right) == Ok::<
                i64,
                EvalError,
            >(0))
            ||| divides_by_zero_at(*left, sp)
            ||| divides_by_zero_at(*right, sp)
        },
    }
}

/// An evaluation error points at a part of the expression.
pub proof fn law_error_points_into_expression(e: Expression)
    ensures
        eval(e) matches Err(err) ==> has_node_span(e, err.span),
    decreases e,
{
    if let ExpressionKind::Binary { left, right, .. } = e.kind {
        law_error_points_into_expression(*left);
        law_error_points_into_expression(*right);
        assert(has_node_span(*right, right.span));
    }
}

/// A division by zero is reported only at the divisor of a division whose
/// value is zero.
pub proof fn law_division_by_zero_at_zero_divisor(e: Expression)
    ensures
        eval(e) matches Err(err) ==> (err.kind == EvalErrorKind::DivisionByZero
            ==> divides_by_zero_at(e, err.span)),
    decreases e,
{
    if let ExpressionKind::Binary { left, right, .. } = e.kind {
        law_division_by_zero_at_zero_divisor(*left);
        law_division_by_zero_at_zero_divisor(*right);
    }
}

/// In a well-spanned expression the span of every part lies within the
/// span of the whole.
pub proof fn law_node_spans_inside(e: Expression, sp: Span)
    requires
        well_spanned(e),
        has_node_span(e, sp),
    ensures
        e.span@.0 <= sp@.0 && sp@.1 <= e.span@.1,
    decreases e,
{
    if e.span != sp {
        if let ExpressionKind::Binary { left, right, .. } = e.kind {
            assert(well_spanned(*left) && well_spanned(*right));
            assert(left.span@.0 < left.span@.1 && right.span@.0 < right.span@.1);
            if has_node_span(*left, sp) {
                law_node_spans_inside(*left, sp);
            } else {
                law_node_spans_inside(*right, sp);
            }
        }
    }
}

/// The value of an expression in unbounded integers, with Rust's rounding
/// of quotients toward zero; `None` if it divides by zero somewhere.
pub open spec fn exact_value(e: Expression) -> Option<int>
    decreases e,
{
    match e.kind {
        ExpressionKind::Integer(n) => Some(n as int),
        ExpressionKind::Binary { left, operator, right } => match (
            exact_value(*left),
            exact_value(*right),
        ) {
            (Some(l), Some(r)) => match operator {
                BinaryOperator::Add => Some(l + r),
                BinaryOperator::Sub => Some(l - r),
                BinaryOperator::Mul => Some(l * r),
                BinaryOperator::Div => if r == 0 {
                    None
                } else {
                    Some(quotient(l, r))
                },
            },
            _ => None,
        },
    }
}

/// A value that evaluation gives is the exact value of the expression: no
/// result wraps around.
pub proof fn law_value_is_exact(e: Expression)
    ensures
        eval(e) matches Ok(v) ==> exact_value(e) == Some(v as int),
    decreases e,
{
    if let ExpressionKind::Binary { left, right, .. } = e.kind {
        law_value_is_exact(*left);
        law_value_is_exact(*right);
    }
}

/// The exact value of every part of the expression exists (no division by
/// zero) and lies in the range of `i64`.
pub open spec fn fits_everywhere(e: Expression) -> bool
    decreases e,
{
    &&& exact_value(e) matches Some(v) && i64::MIN <= v <= i64::MAX
    &&& match e.kind {
        ExpressionKind::Integer(_) => true,
        ExpressionKind::Binary { left, right, .. } => fits_everywhere(*left) && fits_everywhere(
            *right,
        ),
    }
}

/// Where every intermediate exact value fits in `i64`, evaluation succeeds
/// with the exact value: no operation fails that `i64` can hold.
pub proof fn law_fitting_expressions_evaluate(e: Expression)
    requires
        fits_everywhere(e),
    ensures
        eval(e) == Ok::<i64, EvalError>(exact_value(e)->Some_0 as i64),
        exact_value(e)->Some_0 == eval(e)->Ok_0 as int,
    decreases e,
{
    if let ExpressionKind::Binary { left, right, .. } = e.kind {
        law_fitting_expressions_evaluate(*left);
        law_fitting_expressions_evaluate(*right);
    }
}

/// Somewhere in `e` an operation with the span `sp` has operands whose exact
/// values fit in `i64` and an exact result that does not.
pub open spec fn overflows_at(e: Expression, sp: Span) -> bool
    decreases e,
{
    match e.kind {
        ExpressionKind::Integer(_) => false,
        ExpressionKind::Binary { left, operator, right } => {
            ||| {
                &&& e.span == sp
                &&& exact_value(*left) matches Some(l) && i64::MIN <= l <= i64::MAX
                &&& exact_value(*right) matches Some(r) && i64::MIN <= r <= i64::MAX
                &&& exact_value(e) matches Some(v) && !(i64::MIN <= v <= i64::MAX)
            }
            ||| overflows_at(*left, sp)
            ||| overflows_at(*right, sp)
        },
    }
}

/// An overflow is reported only at an operation whose exact result lies
/// outside the range of `i64` while its operands lie inside it.
pub proof fn law_overflow_only_out_of_range(e: Expression)
    ensures
        eval(e) matches Err(err) ==> (err.kind == EvalErrorKind::Overflow ==> overflows_at(
            e,
            err.span,
        )),
    decreases e,
{
    if let ExpressionKind::Binary { left, right, .. } = e.kind {
        law_overflow_only_out_of_range(*left);
        law_overflow_only_out_of_range(*right);
        law_value_is_exact(*left);
        law_value_is_exact(*right);
    }
}

/// `quotient` is Rust's division: the remainder it leaves is smaller than
/// the divisor in size and is zero or has the sign of the dividend.
pub proof fn law_quotient_truncates(a: int, d: int)
    requires
        d != 0,
    ensures
        ({
            let q = quotient(a, d);
            let rem = a - q * d;
            &&& (if rem < 0 { -rem } else { rem }) < (if d < 0 { -d } else { d })
            &&& rem == 0 || (rem < 0) == (a < 0)
        }),
{
    let aa = if a < 0 { -a } else { a };
    let dd = if d < 0 { -d } else { d };
    let q0 = aa / dd;
    let r0 = aa % dd;
    assert(aa == q0 * dd + r0 && 0 <= r0 < dd) by (nonlinear_arith)
        requires
            dd > 0,
            q0 == aa / dd,
            r0 == aa % dd,
    ;
    let q = quotient(a, d);
    let rem = a - q * d;
    if a == 0 {
        assert(q0 == 0 && r0 == 0) by (nonlinear_arith)
            requires
                aa == 0,
                dd > 0,
                aa == q0 * dd + r0,
                0 <= r0 < dd,
        ;
        assert(q == 0);
        assert(q * d == 0) by (nonlinear_arith)
            requires
                q == 0,
        ;
    } else if (a < 0) != (d < 0) {
        assert(q == -q0);
        if d < 0 {
            assert(q * d == q0 * dd) by (nonlinear_arith)
                requires
                    q == -q0,
                    d == -dd,
            ;
        } else {
            assert(q * d == -(q0 * dd)) by (nonlinear_arith)
                requires
                    q == -q0,
                    d == dd,
            ;
        }
    } else {
        assert(q == q0);
        if d < 0 {
            assert(q * d == -(q0 * dd)) by (nonlinear_arith)
                requires
                    q == q0,
                    d == -dd,
            ;
        } else {
            assert(q * d == q0 * dd);
        }
    }
}

} // verus!
