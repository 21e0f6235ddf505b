use cic::lexer::{LexErrorKind, Punct, Span, TokenKind};
use cic::parser::{parse, BinaryOperator, ExpressionKind, ParseErrorKind, Parser};
use cic::parser::Expression;

#[test]
fn specification_example_structure() {
    let expr = parse("(33 + (912 * 11))").unwrap();
    assert_eq!(expr.span, Span::new(0, 17));

    let ExpressionKind::Binary { right, left, operator } = &expr.kind else {
        panic!("expected a binary expression");
    };
    assert_eq!(*operator, BinaryOperator::Add);
    assert_eq!(left.kind, ExpressionKind::Integer(33));
    assert_eq!(right.span, Span::new(6, 16));

    let ExpressionKind::Binary { operator, left, right } = &right.kind else {
        panic!("expected a binary expression");
    };
    assert_eq!(*operator, BinaryOperator::Mul);
    assert_eq!(left.kind, ExpressionKind::Integer(912));
    assert_eq!(right.kind, ExpressionKind::Integer(11));
}

#[test]
fn parse_node_reads_one_node_at_a_time() {
    let mut parser = Parser::new("(1 - 2) /").unwrap();
    let expr = parser.parse_node::<Expression>().unwrap();
    assert_eq!(expr.span, Span::new(0, 7));
    let operator = parser.parse_node::<BinaryOperator>().unwrap();
    assert_eq!(operator, BinaryOperator::Div);
    let err = parser.parse_node::<Expression>().unwrap_err();
    assert_eq!(err.kind, ParseErrorKind::ExpectedExpression { found: TokenKind::Eof });
    assert_eq!(err.span, Span::new(9, 9));
}

#[test]
fn nested_spans_lie_inside_each_other() {
    let expr = parse(" ((1 * 22) - 3) ").unwrap();
    assert_eq!(expr.span, Span::new(1, 15));
    let ExpressionKind::Binary { left, right, .. } = &expr.kind else { panic!("binary") };
    assert_eq!(left.span, Span::new(2, 10));
    assert_eq!(right.span, Span::new(13, 14));
    let ExpressionKind::Binary { left, right, .. } = &left.kind else { panic!("binary") };
    assert_eq!(left.span, Span::new(3, 4));
    assert_eq!(right.span, Span::new(7, 9));
}

#[test]
fn a_lone_integer_is_an_expression() {
    let expr = parse("\n 42\t").unwrap();
    assert_eq!(expr.kind, ExpressionKind::Integer(42));
    assert_eq!(expr.span, Span::new(2, 4));
}

#[test]
fn missing_close_paren_is_expected() {
    let err = parse("(1 + 2").unwrap_err();
    assert_eq!(
        err.kind,
        ParseErrorKind::Expected { found: TokenKind::Eof, expected: TokenKind::Punct(Punct::CloseParen) }
    );
    assert_eq!(err.span, Span::new(6, 6));
}

#[test]
fn trailing_token_is_rejected() {
    let err = parse("1 2").unwrap_err();
    assert_eq!(err.kind, ParseErrorKind::Expected { found: TokenKind::Integer(2), expected: TokenKind::Eof });
    assert_eq!(err.span, Span::new(2, 3));
}

#[test]
fn expression_expected() {
    let err = parse("+").unwrap_err();
    assert_eq!(err.kind, ParseErrorKind::ExpectedExpression { found: TokenKind::Punct(Punct::Plus) });
    assert_eq!(err.span, Span::new(0, 1));
    let err = parse("").unwrap_err();
    assert_eq!(err.kind, ParseErrorKind::ExpectedExpression { found: TokenKind::Eof });
}

#[test]
fn operator_expected() {
    let err = parse("(1 2)").unwrap_err();
    assert_eq!(err.kind, ParseErrorKind::ExpectedOperator { found: TokenKind::Integer(2) });
    assert_eq!(err.span, Span::new(3, 4));
}

#[test]
fn lexical_errors_pass_through() {
    let err = parse("(1 + x)").unwrap_err();
    assert_eq!(err.kind, ParseErrorKind::Lex(LexErrorKind::UnexpectedChar('x')));
    assert_eq!(err.span, Span::new(5, 6));
    let err = Parser::new("  ?").err().unwrap();
    assert_eq!(err.kind, ParseErrorKind::Lex(LexErrorKind::UnexpectedChar('?')));
    assert_eq!(err.span, Span::new(2, 3));
    let err = parse("(1 * 123456789012345678901)").unwrap_err();
    assert_eq!(err.kind, ParseErrorKind::Lex(LexErrorKind::InvalidInteger("123456789012345678901")));
    assert_eq!(err.span, Span::new(5, 26));
}

#[test]
fn parse_error_texts() {
    assert_eq!(parse("(1 2)").unwrap_err().kind.to_string(), "expected an operator, but found <Integer, '2'>");
    assert_eq!(parse(")").unwrap_err().kind.to_string(), "expected a number or '(', but found <CloseParen, ')'>");
    assert_eq!(parse("(1 + 2").unwrap_err().kind.to_string(), "expected <CloseParen, ')'> but found <Eof>");
    assert_eq!(parse("(1 + y)").unwrap_err().kind.to_string(), "unexpected character 'y'");
}

#[test]
fn operators_are_written_as_their_chars() {
    assert_eq!(char::from(BinaryOperator::Add), '+');
    assert_eq!(char::from(BinaryOperator::Sub), '-');
    assert_eq!(char::from(BinaryOperator::Mul), '*');
    assert_eq!(char::from(BinaryOperator::Div), '/');
}

#[test]
fn a_mismatch_consumes_nothing() {
    let mut parser = Parser::new("+ 1").unwrap();
    let err = parser.parse_node::<Expression>().unwrap_err();
    assert_eq!(err.kind, ParseErrorKind::ExpectedExpression { found: TokenKind::Punct(Punct::Plus) });
    assert_eq!(err.span, Span::new(0, 1));
    assert_eq!(parser.parse_node::<BinaryOperator>().unwrap(), BinaryOperator::Add);

    let mut parser = Parser::new("7 *").unwrap();
    let err = parser.parse_node::<BinaryOperator>().unwrap_err();
    assert_eq!(err.kind, ParseErrorKind::ExpectedOperator { found: TokenKind::Integer(7) });
    let expr = parser.parse_node::<Expression>().unwrap();
    assert_eq!(expr.kind, ExpressionKind::Integer(7));
    assert_eq!(parser.parse_node::<BinaryOperator>().unwrap(), BinaryOperator::Mul);
}

#[test]
fn a_written_out_expression_parses_back() {
    let src = "((12 - 3) / (4 * 0))";
    let expr = parse(src).unwrap();
    assert_eq!(expr.span, Span::new(0, src.len()));
    let ExpressionKind::Binary { left, operator, right } = &expr.kind else { panic!("binary") };
    assert_eq!(*operator, BinaryOperator::Div);
    let ExpressionKind::Binary { left: a, operator: minus, right: b } = &left.kind else {
        panic!("binary")
    };
    assert_eq!(*minus, BinaryOperator::Sub);
    assert_eq!(a.kind, ExpressionKind::Integer(12));
    assert_eq!(b.kind, ExpressionKind::Integer(3));
    let ExpressionKind::Binary { left: c, operator: times, right: d } = &right.kind else {
        panic!("binary")
    };
    assert_eq!(*times, BinaryOperator::Mul);
    assert_eq!(c.kind, ExpressionKind::Integer(4));
    assert_eq!(d.kind, ExpressionKind::Integer(0));
    assert_eq!(parse("9223372036854775807").unwrap().kind, ExpressionKind::Integer(i64::MAX));
}
