use cic::compiler::{compile, parse_integer_const, resources};

#[test]
fn a_valid_constant() {
    let output = compile("42");
    assert!(output.contains("mov $42, %rax"));
    assert!(!output.contains(resources::MARKER));
}

#[test]
fn removes_whitespaces() {
    let output = compile("     7\n");
    assert!(output.contains("mov $7, %rax"));
    assert!(!output.contains(resources::MARKER));
}

#[test]
fn compiled_program_is_the_template_with_the_instruction() {
    let output = compile("+18446744073709551615");
    assert_eq!(output, resources::TEMPLATE.replace(resources::MARKER, "  mov $18446744073709551615, %rax"));
}

#[test]
fn constants_are_read_like_u64_from_str() {
    assert_eq!(parse_integer_const("abc"), None);
    assert_eq!(parse_integer_const(""), None);
    assert_eq!(parse_integer_const("  \t "), None);
    assert_eq!(parse_integer_const("+"), None);
    assert_eq!(parse_integer_const("-1"), None);
    assert_eq!(parse_integer_const("1 2"), None);
    assert_eq!(parse_integer_const("18446744073709551616"), None);
    assert_eq!(parse_integer_const("18446744073709551615"), Some(u64::MAX));
    assert_eq!(parse_integer_const("\u{a0}\u{3000} +0042\u{2028}"), Some(42));
    assert_eq!(parse_integer_const("0"), Some(0));
}

#[test]
fn a_constant_reads_back_from_its_spelling() {
    for n in [0u64, 9, 10, 12345, u64::MAX] {
        assert_eq!(parse_integer_const(&n.to_string()), Some(n));
    }
}
