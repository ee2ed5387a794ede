//! The expression tree and its evaluator.

use vstd::prelude::*;

verus! {

/// The four binary operators of the grammar.
#[derive(Debug, Clone, Copy, PartialEq, Eq, Structural)]
pub enum BinaryOp {
    Add,
    Minus,
    Multiple,
    Divide,
}

/// An arithmetic expression: a literal leaf, or an operator node that
/// exclusively owns its two fully formed children.
#[derive(Debug)]
pub enum Expr {
    Scalar(i64),
    Binary(Box<Expr>, BinaryOp, Box<Expr>),
}

/// Why evaluation of a tree failed.
#[derive(Debug, Clone, Copy, PartialEq, Eq, Structural)]
pub enum ArithmeticError {
    DivisionByZero,
    IntegerOverflow,
}

impl PartialEq for Expr {
    /// Structural equality: same shape, same operators, same leaf values.
    fn eq(&self, other: &Expr) -> (r: bool)
        decreases *self,
    {
        match (self, other) {
            (Expr::Scalar(a), Expr::Scalar(b)) => *a == *b,
            (Expr::Binary(l1, o1, r1), Expr::Binary(l2, o2, r2)) => {
                *o1 == *o2 && (**l1).eq(&**l2) && (**r1).eq(&**r2)
            },
            _ => false,
        }
    }
}

impl vstd::std_specs::cmp::PartialEqSpecImpl for Expr {
    open spec fn obeys_eq_spec() -> bool {
        true
    }

    open spec fn eq_spec(&self, other: &Expr) -> bool {
        *self == *other
    }
}

/// A well-formed tree: every node's children are complete trees (the
/// type already forces this) and every leaf holds a non-negative value,
/// the only kind of leaf a run of digits can denote.
pub open spec fn wf_expr(e: Expr) -> bool
    decreases e,
{
    match e {
        Expr::Scalar(v) => v >= 0,
        Expr::Binary(l, op, r) => wf_expr(*l) && wf_expr(*r),
    }
}

impl From<(Expr, BinaryOp, Expr)> for Expr {
    /// Combines two operands and an operator into one node; the left
    /// operand becomes the left child.
    fn from(parts: (Expr, BinaryOp, Expr)) -> (r: Expr) {
        let (lhs, op, rhs) = parts;
        Expr::Binary(Box::new(lhs), op, Box::new(rhs))
    }
}

impl vstd::std_specs::convert::FromSpecImpl<(Expr, BinaryOp, Expr)> for Expr {
    open spec fn obeys_from_spec() -> bool {
        true
    }

    open spec fn from_spec(parts: (Expr, BinaryOp, Expr)) -> Expr {
        Expr::Binary(Box::new(parts.0), parts.1, Box::new(parts.2))
    }
}

pub open spec fn in_i64_range(v: int) -> bool {
    i64::MIN <= v <= i64::MAX
}

/// `Ok(v)` when `v` fits in an `i64`, else an overflow report.
pub open spec fn ok_or_overflow(v: int) -> Result<int, ArithmeticError> {
    if in_i64_range(v) {
        Ok(v)
    } else {
        Err(ArithmeticError::IntegerOverflow)
    }
}

/// Integer division truncating toward zero (the machine behaviour of
/// `/` on `i64`), stated over mathematical integers.
pub open spec fn div_trunc(a: int, b: int) -> int
    recommends
        b != 0,
{
    if a == 0 {
        0
    } else if a > 0 && b > 0 {
        a / b
    } else if a < 0 && b < 0 {
        (a * -1) / (b * -1)
    } else if a < 0 {
        ((a * -1) / b) * -1
    } else {
        (a / (b * -1)) * -1
    }
}

/// The value of a tree: each node combines the values of its children,
/// left operand first; the first error (in that order) is the result.
pub open spec fn spec_eval(e: Expr) -> Result<int, ArithmeticError>
    decreases e,
{
    match e {
        Expr::Scalar(v) => Ok(v as int),
        Expr::Binary(l, op, r) => match spec_eval(*l) {
            Err(er) => Err(er),
            Ok(lv) => match spec_eval(*r) {
                Err(er) => Err(er),
                Ok(rv) => match op {
                    BinaryOp::Add => ok_or_overflow(lv + rv),
                    BinaryOp::Minus => ok_or_overflow(lv - rv),
                    BinaryOp::Multiple => ok_or_overflow(lv * rv),
                    BinaryOp::Divide => {
                        if rv == 0 {
                            Err(ArithmeticError::DivisionByZero)
                        } else {
                            ok_or_overflow(div_trunc(lv, rv))
                        }
                    },
                },
            },
        },
    }
}

impl Expr {
    /// Reduces the tree to a single integer; division by zero and
    /// arithmetic overflow come back as errors, never as a panic.
    pub fn eval(&self) -> (r: Result<i64, ArithmeticError>)
        ensures
            match r {
                Ok(v) => spec_eval(*self) == Result::<int, ArithmeticError>::Ok(v as int),
                Err(e) => spec_eval(*self) == Result::<int, ArithmeticError>::Err(e),
            },
        decreases *self,
    {
        match self {
            Expr::Scalar(v) => Ok(*v),
            Expr::Binary(l, op, r) => {
                let lv = match l.eval() {
                    Ok(v) => v,
                    Err(e) => {
                        return Err(e);
                    },
                };
                let rv = match r.eval() {
                    Ok(v) => v,
                    Err(e) => {
                        return Err(e);
                    },
                };
                let combined = match op {
                    BinaryOp::Add => lv.checked_add(rv),
                    BinaryOp::Minus => lv.checked_sub(rv),
                    BinaryOp::Multiple => lv.checked_mul(rv),
                    BinaryOp::Divide => {
                        if rv == 0 {
                            return Err(ArithmeticError::DivisionByZero);
                        }
                        lv.checked_div(rv)
                    },
                };
                match combined {
                    Some(v) => Ok(v),
                    None => Err(ArithmeticError::IntegerOverflow),
                }
            },
        }
    }
}

} // verus!
