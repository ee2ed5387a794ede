use arith_expr::scalar_expr;
use arith_expr::term_expr;
use arith_expr::binary_expr;
use arith_expr::BinaryOp::{Add, Divide, Minus, Multiple};
use arith_expr::Expr::Scalar;

#[test]
fn test_scalar_expr() {
    for (input, expected) in [("19", Scalar(19)), ("1", Scalar(1))] {
        assert_eq!(scalar_expr(input), Ok(("", expected)), "input: {}", input);
    }
}

#[test]
fn test_term_expr() {
    for (input, expected) in [
        ("19", Scalar(19)),
        ("1", Scalar(1)),
        ("19*12", (Scalar(19), Multiple, Scalar(12)).into()),
        ("19/12", (Scalar(19), Divide, Scalar(12)).into()),
        (
            "19*12/2",
            ((Scalar(19), Multiple, Scalar(12)).into(), Divide, Scalar(2)).into(),
        ),
    ] {
        assert_eq!(term_expr(input), Ok(("", expected)), "input: {}", input);
    }
}

#[test]
fn test_binary_expr() {
    for (input, expected) in [
        ("19", Scalar(19)),
        ("1", Scalar(1)),
        ("19*12", (Scalar(19), Multiple, Scalar(12)).into()),
        ("19+2", (Scalar(19), Add, Scalar(2)).into()),
        ("1-24", (Scalar(1), Minus, Scalar(24)).into()),
        ("1*28", (Scalar(1), Multiple, Scalar(28)).into()),
        ("16/2", (Scalar(16), Divide, Scalar(2)).into()),
        (
            "1*2+3*4",
            (
                (Scalar(1), Multiple, Scalar(2)).into(),
                Add,
                (Scalar(3), Multiple, Scalar(4)).into(),
            )
                .into(),
        ),
        (
            "(1+2)*(3-4)",
            (
                (Scalar(1), Add, Scalar(2)).into(),
                Multiple,
                (Scalar(3), Minus, Scalar(4)).into(),
            )
                .into(),
        ),
        (
            "1*2/3+4/5*6",
            (
                ((Scalar(1), Multiple, Scalar(2)).into(), Divide, Scalar(3)).into(),
                Add,
                ((Scalar(4), Divide, Scalar(5)).into(), Multiple, Scalar(6)).into(),
            )
                .into(),
        ),
    ] {
        assert_eq!(binary_expr(input), Ok(("", expected)), "input: {}", input);
    }
}
