use cic::interpreter::{evaluate, EvalErrorKind};
use cic::lexer::{Span, Spanned};
use cic::parser::{parse, BinaryOperator, Expression, ExpressionKind};

fn eval_src(src: &str) -> Result<i64, cic::interpreter::EvalError> {
    evaluate(&parse(src).unwrap())
}

fn leaf(value: i64, start: usize) -> Expression {
    Spanned::new(ExpressionKind::Integer(value), Span::new(start, start + 1))
}

fn binary(left: Expression, operator: BinaryOperator, right: Expression, start: usize, end: usize) -> Expression {
    Spanned::new(
        ExpressionKind::Binary { left: Box::new(left), operator, right: Box::new(right) },
        Span::new(start, end),
    )
}

#[test]
fn worked_example_value() {
    assert_eq!(eval_src("(33 + (912 * 11))").unwrap(), 10065);
}

#[test]
fn each_operator() {
    assert_eq!(eval_src("(7 + 2)").unwrap(), 9);
    assert_eq!(eval_src("(7 - 12)").unwrap(), -5);
    assert_eq!(eval_src("(7 * 6)").unwrap(), 42);
    assert_eq!(eval_src("(7 / 2)").unwrap(), 3);
    assert_eq!(eval_src("((0 - 7) / 2)").unwrap(), -3);
    assert_eq!(eval_src("(7 / (0 - 2))").unwrap(), -3);
    assert_eq!(eval_src("((0 - 7) / (0 - 2))").unwrap(), 3);
}

#[test]
fn division_by_zero_points_at_the_divisor() {
    let err = eval_src("(1 / (2 - 2))").unwrap_err();
    assert_eq!(err.kind, EvalErrorKind::DivisionByZero);
    assert_eq!(err.span, Span::new(5, 12));
}

#[test]
fn overflow_points_at_the_operation() {
    let err = eval_src("(1 + (9223372036854775807 + 1))").unwrap_err();
    assert_eq!(err.kind, EvalErrorKind::Overflow);
    assert_eq!(err.span, Span::new(5, 30));
    let err = eval_src("(3037000500 * 3037000500)").unwrap_err();
    assert_eq!(err.kind, EvalErrorKind::Overflow);
    let err = eval_src("((0 - 9223372036854775807) - 2)").unwrap_err();
    assert_eq!(err.kind, EvalErrorKind::Overflow);
}

#[test]
fn minimum_divided_by_minus_one_overflows() {
    let e = binary(leaf(i64::MIN, 1), BinaryOperator::Div, leaf(-1, 5), 0, 7);
    let err = evaluate(&e).unwrap_err();
    assert_eq!(err.kind, EvalErrorKind::Overflow);
    assert_eq!(err.span, Span::new(0, 7));
}

#[test]
fn left_error_comes_first() {
    let e = binary(
        binary(leaf(1, 2), BinaryOperator::Div, leaf(0, 4), 1, 6),
        BinaryOperator::Add,
        binary(leaf(i64::MAX, 9), BinaryOperator::Add, leaf(1, 11), 8, 13),
        0,
        14,
    );
    let err = evaluate(&e).unwrap_err();
    assert_eq!(err.kind, EvalErrorKind::DivisionByZero);
    assert_eq!(err.span, Span::new(4, 5));
}

#[test]
fn a_lone_integer_is_its_value() {
    assert_eq!(evaluate(&leaf(-12, 0)).unwrap(), -12);
    assert_eq!(eval_src("0").unwrap(), 0);
}
