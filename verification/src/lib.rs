//! A verified parser and evaluator for arithmetic expressions over
//! non-negative integer literals, with the operators `+ - * /` and
//! parentheses for grouping.
//!
//! Parsing is recursive descent over three precedence levels (factor,
//! term, expression); chains of equal-precedence operators fold to the
//! left. Evaluation reduces the resulting tree to a single `i64`,
//! reporting division by zero and overflow instead of panicking.

mod ast;
mod parse;
mod render;

pub use ast::{ArithmeticError, BinaryOp, Expr};
pub use ast::{div_trunc, spec_eval, wf_expr};
pub use parse::{binary_expr, factor_expr, parens_expr, scalar_expr, term_expr};
pub use parse::{spec_expression, spec_factor, spec_scalar, spec_term, ParseError};
pub use parse::{lemma_parse_deterministic, lemma_parse_well_formed};
pub use render::{digits_of, lemma_parse_then_eval, lemma_render_round_trip};
pub use render::{render_expr, render_factor, render_term};
