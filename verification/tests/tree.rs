use cic::lexer::{Span, Spanned};
use cic::parser::{parse, ExpressionKind};

#[test]
fn worked_example_tree() {
    let expr = parse("(33 + (912 * 11))").unwrap();
    let text = expr.tree().to_string();
    assert_eq!(text, "  _+_\n /   \\\n33    *\n     / \\\n   912  11\n");
}

#[test]
fn a_leaf_is_its_integer() {
    let expr = parse("42").unwrap();
    assert_eq!(expr.tree().to_string(), "42\n");
    let negative = Spanned::new(ExpressionKind::Integer(-7), Span::new(0, 1));
    assert_eq!(negative.tree().to_string(), "-7\n");
}

#[test]
fn small_operands_are_spread_to_even_distance() {
    let expr = parse("(1 - 2)").unwrap();
    assert_eq!(expr.tree().to_string(), "  -\n / \\\n1   2\n");
}

#[test]
fn drawing_height_follows_depth() {
    let expr = parse("(((1 + 2) * 3) / (4 - 5))").unwrap();
    let text = expr.tree().to_string();
    assert_eq!(text.lines().count(), 2 * 3 + 1);
    assert!(text.lines().all(|line| !line.ends_with(' ')));
}
