use arith_expr::binary_expr;
use arith_expr::factor_expr;
use arith_expr::parens_expr;
use arith_expr::scalar_expr;
use arith_expr::Expr::Scalar;
use arith_expr::ParseError;

#[test]
fn test_empty_input_fails() {
    assert_eq!(binary_expr(""), Err(ParseError::UnexpectedEndOfInput));
}

#[test]
fn test_dangling_operator_fails() {
    assert_eq!(binary_expr("1+"), Err(ParseError::UnexpectedEndOfInput));
    assert_eq!(binary_expr("2*"), Err(ParseError::UnexpectedEndOfInput));
}

#[test]
fn test_stray_character_fails() {
    assert_eq!(binary_expr("a"), Err(ParseError::UnexpectedCharacter('a')));
    assert_eq!(binary_expr(" 1"), Err(ParseError::UnexpectedCharacter(' ')));
}

#[test]
fn test_literal_overflow_fails() {
    // one more than i64::MAX, and a much longer run
    assert_eq!(
        scalar_expr("9223372036854775808"),
        Err(ParseError::InvalidNumberLiteral)
    );
    assert_eq!(
        binary_expr("1+99999999999999999999999"),
        Err(ParseError::InvalidNumberLiteral)
    );
}

#[test]
fn test_largest_literal_accepted() {
    assert_eq!(
        scalar_expr("9223372036854775807"),
        Ok(("", Scalar(9223372036854775807)))
    );
}

#[test]
fn test_leading_zeros_accepted() {
    assert_eq!(scalar_expr("007"), Ok(("", Scalar(7))));
}

#[test]
fn test_missing_closing_parenthesis_fails() {
    assert_eq!(parens_expr("(1+2"), Err(ParseError::UnexpectedEndOfInput));
    assert_eq!(binary_expr("(1+2"), Err(ParseError::UnexpectedEndOfInput));
    assert_eq!(
        binary_expr("(1+2*(3-4)"),
        Err(ParseError::UnexpectedEndOfInput)
    );
}

#[test]
fn test_parenthesized_failure_propagates() {
    // after `(` is seen, an inner failure must not fall through to the
    // literal alternative
    assert_eq!(factor_expr("()"), Err(ParseError::UnexpectedCharacter(')')));
    assert_eq!(factor_expr("("), Err(ParseError::UnexpectedEndOfInput));
}

#[test]
fn test_longest_prefix_and_remainder() {
    assert_eq!(scalar_expr("19a"), Ok(("a", Scalar(19))));
    let (rest, e) = binary_expr("1+2)*3").unwrap();
    assert_eq!(rest, ")*3");
    assert_eq!(e.eval(), Ok(3));
}

#[test]
fn test_parse_idempotent() {
    for input in ["19*12/2", "(1+2)*(3-4)", "1*2/3+4/5*6", "1+", ""] {
        assert_eq!(binary_expr(input), binary_expr(input), "input: {}", input);
    }
}
