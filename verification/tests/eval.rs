use arith_expr::binary_expr;
use arith_expr::ArithmeticError;
use arith_expr::BinaryOp::{Add, Divide, Minus, Multiple};
use arith_expr::Expr;
use arith_expr::Expr::Scalar;

#[test]
fn test_scalar_eval() {
    assert_eq!(Scalar(19).eval(), Ok(19));
    assert_eq!(Scalar(0).eval(), Ok(0));
}

#[test]
fn test_eval_each_operator() {
    let sum: Expr = (Scalar(19), Add, Scalar(2)).into();
    assert_eq!(sum.eval(), Ok(21));
    let difference: Expr = (Scalar(1), Minus, Scalar(24)).into();
    assert_eq!(difference.eval(), Ok(-23));
    let product: Expr = (Scalar(19), Multiple, Scalar(12)).into();
    assert_eq!(product.eval(), Ok(228));
    let quotient: Expr = (Scalar(16), Divide, Scalar(2)).into();
    assert_eq!(quotient.eval(), Ok(8));
}

#[test]
fn test_left_associative_division() {
    let (rest, e) = binary_expr("19*12/2").unwrap();
    assert_eq!(rest, "");
    assert_eq!(e.eval(), Ok(114));
}

#[test]
fn test_precedence() {
    let (rest, e) = binary_expr("1*2+3*4").unwrap();
    assert_eq!(rest, "");
    assert_eq!(e.eval(), Ok(14));
}

#[test]
fn test_parentheses_override_precedence() {
    let (rest, e) = binary_expr("(1+2)*(3-4)").unwrap();
    assert_eq!(rest, "");
    assert_eq!(e.eval(), Ok(-3));
}

#[test]
fn test_integer_truncation() {
    let (rest, e) = binary_expr("1*2/3+4/5*6").unwrap();
    assert_eq!(rest, "");
    assert_eq!(e.eval(), Ok(0));
}

#[test]
fn test_division_truncates_toward_zero() {
    // (1-8)/2 divides -7 by 2: truncation gives -3, where flooring
    // would give -4
    let (rest, e) = binary_expr("(1-8)/2").unwrap();
    assert_eq!(rest, "");
    assert_eq!(e.eval(), Ok(-3));
}

#[test]
fn test_division_by_zero_reported() {
    let (rest, e) = binary_expr("1/0").unwrap();
    assert_eq!(rest, "");
    assert_eq!(e.eval(), Err(ArithmeticError::DivisionByZero));
}

#[test]
fn test_addition_overflow_reported() {
    let (rest, e) = binary_expr("9223372036854775807+1").unwrap();
    assert_eq!(rest, "");
    assert_eq!(e.eval(), Err(ArithmeticError::IntegerOverflow));
}

#[test]
fn test_multiplication_overflow_reported() {
    let (rest, e) = binary_expr("9223372036854775807*2").unwrap();
    assert_eq!(rest, "");
    assert_eq!(e.eval(), Err(ArithmeticError::IntegerOverflow));
}

#[test]
fn test_division_overflow_reported() {
    // the most negative value divided by -1 does not fit in an i64
    let (rest, e) = binary_expr("(0-9223372036854775807-1)/(0-1)").unwrap();
    assert_eq!(rest, "");
    assert_eq!(e.eval(), Err(ArithmeticError::IntegerOverflow));
}

#[test]
fn test_left_operand_error_wins() {
    // both operands fail; the left one is reported
    let (rest, e) = binary_expr("1/0+9223372036854775807*2").unwrap();
    assert_eq!(rest, "");
    assert_eq!(e.eval(), Err(ArithmeticError::DivisionByZero));
}
