//! Recursive-descent parsing of the expression grammar.
//!
//! The grammar, from tightest to loosest binding:
//!
//! ```text
//! factor     := scalar | '(' expression ')'
//! term       := factor ( ('*' | '/') factor )*
//! expression := term ( ('+' | '-') term )*
//! ```
//!
//! The meaning of each rule is fixed by a spec-level parser over
//! `Seq<char>` (`spec_scalar`, `spec_factor`, `spec_term`,
//! `spec_expression`); every executable rule returns exactly what its
//! spec counterpart returns on the view of its input. Chains of
//! equal-precedence operators fold to the left, so `a*b/c` builds
//! `(a*b)/c`. A rule consumes the longest prefix it can and hands back
//! the unconsumed suffix; it never consumes input on failure paths that
//! matter to callers, because failures are total (no partial trees
//! escape).

use vstd::prelude::*;

use crate::ast::{wf_expr, BinaryOp, Expr};

verus! {

/// Why parsing failed: a character that fits no rule, input that ended
/// inside a construct, or a digit run too large for an `i64`.
#[derive(Debug, Clone, Copy, PartialEq, Eq, Structural)]
pub enum ParseError {
    UnexpectedCharacter(char),
    UnexpectedEndOfInput,
    InvalidNumberLiteral,
}

/// What every parsing rule returns: the unconsumed suffix and the tree
/// built from the consumed prefix, or the reason nothing could be built.
pub type SpecParsed = Result<(Seq<char>, Expr), ParseError>;

/// An executable rule returns exactly what its spec counterpart
/// returns on the view of its input: same suffix, same tree, same
/// error.
pub open spec fn parse_result_matches(r: Result<(&str, Expr), ParseError>, sr: SpecParsed) -> bool {
    match r {
        Ok((rest, e)) => sr == Ok::<(Seq<char>, Expr), ParseError>((rest@, e)),
        Err(pe) => sr == Err::<(Seq<char>, Expr), ParseError>(pe),
    }
}

pub open spec fn is_digit(c: char) -> bool {
    48 <= c as u32 && c as u32 <= 57
}

/// The numeric value of a decimal digit character.
pub open spec fn digit_val(c: char) -> int {
    c as u32 - 48
}

pub open spec fn is_mul_op(c: char) -> bool {
    c == '*' || c == '/'
}

pub open spec fn is_add_op(c: char) -> bool {
    c == '+' || c == '-'
}

pub open spec fn mul_op_of(c: char) -> BinaryOp {
    if c == '*' {
        BinaryOp::Multiple
    } else {
        BinaryOp::Divide
    }
}

pub open spec fn add_op_of(c: char) -> BinaryOp {
    if c == '+' {
        BinaryOp::Add
    } else {
        BinaryOp::Minus
    }
}

/// Length of the maximal run of digits at the front of `s`.
pub open spec fn digit_run_len(s: Seq<char>) -> int
    decreases s.len(),
{
    if s.len() > 0 && is_digit(s[0]) {
        1 + digit_run_len(s.subrange(1, s.len() as int))
    } else {
        0
    }
}

/// The number written by a sequence of digit characters, most
/// significant first; the empty sequence writes 0.
pub open spec fn digits_value(s: Seq<char>) -> int
    recommends
        forall|k: int| 0 <= k < s.len() ==> is_digit(s[k]),
    decreases s.len(),
{
    if s.len() == 0 {
        0
    } else {
        digits_value(s.drop_last()) * 10 + digit_val(s.last())
    }
}

/// The literal scanner: consumes the maximal digit run (at least one
/// digit) and yields its value as a leaf, or reports why it could not.
pub open spec fn spec_scalar(s: Seq<char>) -> SpecParsed {
    if s.len() == 0 {
        Err(ParseError::UnexpectedEndOfInput)
    } else if !is_digit(s[0]) {
        Err(ParseError::UnexpectedCharacter(s[0]))
    } else {
        let n = digit_run_len(s);
        let v = digits_value(s.subrange(0, n));
        if v > i64::MAX {
            Err(ParseError::InvalidNumberLiteral)
        } else {
            Ok((s.subrange(n, s.len() as int), Expr::Scalar(v as i64)))
        }
    }
}

/// `'(' expression ')'`: the parentheses leave no trace in the tree.
/// Once the opening parenthesis is seen, any inner failure propagates.
pub open spec fn spec_parens(s: Seq<char>) -> SpecParsed
    decreases s.len(), 0int,
{
    if s.len() == 0 {
        Err(ParseError::UnexpectedEndOfInput)
    } else if s[0] != '(' {
        Err(ParseError::UnexpectedCharacter(s[0]))
    } else {
        match spec_expression(s.subrange(1, s.len() as int)) {
            Err(e) => Err(e),
            Ok((rest, e)) => {
                if rest.len() == 0 {
                    Err(ParseError::UnexpectedEndOfInput)
                } else if rest[0] == ')' {
                    Ok((rest.subrange(1, rest.len() as int), e))
                } else {
                    Err(ParseError::UnexpectedCharacter(rest[0]))
                }
            },
        }
    }
}

/// `factor := '(' expression ')' | scalar`. The parenthesized form is
/// chosen exactly when the next character is `(`.
pub open spec fn spec_factor(s: Seq<char>) -> SpecParsed
    decreases s.len(), 1int,
{
    if s.len() > 0 && s[0] == '(' {
        spec_parens(s)
    } else {
        spec_scalar(s)
    }
}

/// The left fold of `term`: given the tree built so far, consume
/// `('*' | '/') factor` pairs while the next character is one of the
/// two operators, making the accumulator the left child each time.
pub open spec fn spec_term_rest(s: Seq<char>, acc: Expr) -> SpecParsed
    decreases s.len(), 2int,
{
    if s.len() > 0 && is_mul_op(s[0]) {
        match spec_factor(s.subrange(1, s.len() as int)) {
            Err(e) => Err(e),
            Ok((rest, f)) => {
                if rest.len() < s.len() {
                    spec_term_rest(rest, Expr::Binary(Box::new(acc), mul_op_of(s[0]), Box::new(f)))
                } else {
                    // a factor always consumes input (lemma_factor_progress),
                    // so this branch is unreachable
                    arbitrary()
                }
            },
        }
    } else {
        Ok((s, acc))
    }
}

/// `term := factor ( ('*' | '/') factor )*`.
pub open spec fn spec_term(s: Seq<char>) -> SpecParsed
    decreases s.len(), 3int,
{
    match spec_factor(s) {
        Err(e) => Err(e),
        Ok((rest, f)) => {
            if rest.len() <= s.len() {
                spec_term_rest(rest, f)
            } else {
                // a rule never hands back more than it was given
                // (lemma_factor_progress), so this branch is unreachable
                arbitrary()
            }
        },
    }
}

/// The left fold of `expression`, one precedence level above
/// `spec_term_rest`: consume `('+' | '-') term` pairs.
pub open spec fn spec_expr_rest(s: Seq<char>, acc: Expr) -> SpecParsed
    decreases s.len(), 4int,
{
    if s.len() > 0 && is_add_op(s[0]) {
        match spec_term(s.subrange(1, s.len() as int)) {
            Err(e) => Err(e),
            Ok((rest, t)) => {
                if rest.len() < s.len() {
                    spec_expr_rest(rest, Expr::Binary(Box::new(acc), add_op_of(s[0]), Box::new(t)))
                } else {
                    // a term always consumes input (lemma_term_progress),
                    // so this branch is unreachable
                    arbitrary()
                }
            },
        }
    } else {
        Ok((s, acc))
    }
}

/// `expression := term ( ('+' | '-') term )*`: the grammar's entry
/// point. Parses the longest valid prefix of `s`.
pub open spec fn spec_expression(s: Seq<char>) -> SpecParsed
    decreases s.len(), 5int,
{
    match spec_term(s) {
        Err(e) => Err(e),
        Ok((rest, t)) => {
            if rest.len() <= s.len() {
                spec_expr_rest(rest, t)
            } else {
                // a rule never hands back more than it was given
                // (lemma_term_progress), so this branch is unreachable
                arbitrary()
            }
        },
    }
}

/// The maximal digit run is never longer than the input, and is
/// non-empty exactly when the input starts with a digit.
proof fn lemma_digit_run_len_bounds(s: Seq<char>)
    ensures
        0 <= digit_run_len(s) <= s.len(),
        s.len() > 0 && is_digit(s[0]) ==> digit_run_len(s) >= 1,
    decreases s.len(),
{
    if s.len() > 0 && is_digit(s[0]) {
        lemma_digit_run_len_bounds(s.subrange(1, s.len() as int));
    }
}

/// A scan that saw `n` digits and then the end or a non-digit found
/// exactly the maximal run.
pub(crate) proof fn lemma_digit_run_len_from_scan(s: Seq<char>, n: int)
    requires
        0 <= n <= s.len(),
        forall|k: int| 0 <= k < n ==> is_digit(s[k]),
        n == s.len() || !is_digit(s[n]),
    ensures
        digit_run_len(s) == n,
    decreases n,
{
    if n == 0 {
    } else {
        lemma_digit_run_len_from_scan(s.subrange(1, s.len() as int), n - 1);
    }
}

proof fn lemma_digits_value_nonneg(s: Seq<char>)
    requires
        forall|k: int| 0 <= k < s.len() ==> is_digit(s[k]),
    ensures
        digits_value(s) >= 0,
    decreases s.len(),
{
    if s.len() > 0 {
        lemma_digits_value_nonneg(s.drop_last());
    }
}

/// Reading one more digit multiplies the value so far by ten and adds
/// the digit.
proof fn lemma_digits_value_take_succ(s: Seq<char>, i: int)
    requires
        0 <= i < s.len(),
    ensures
        digits_value(s.subrange(0, i + 1)) == digits_value(s.subrange(0, i)) * 10 + digit_val(
            s[i],
        ),
{
    assert(s.subrange(0, i + 1).drop_last() =~= s.subrange(0, i));
    assert(s.subrange(0, i + 1).last() == s[i]);
}

/// Extending a digit run never shrinks its value.
proof fn lemma_digits_value_take_mono(s: Seq<char>, i: int, j: int)
    requires
        0 <= i <= j <= s.len(),
        forall|k: int| 0 <= k < j ==> is_digit(s[k]),
    ensures
        digits_value(s.subrange(0, i)) <= digits_value(s.subrange(0, j)),
    decreases j - i,
{
    if i < j {
        lemma_digits_value_take_mono(s, i, j - 1);
        lemma_digits_value_take_succ(s, j - 1);
        assert(forall|k: int| 0 <= k < j - 1 ==> is_digit(#[trigger] s.subrange(0, j - 1)[k]));
        lemma_digits_value_nonneg(s.subrange(0, j - 1));
    }
}

fn exec_is_digit(c: char) -> (r: bool)
    ensures
        r == is_digit(c),
{
    let u = c as u32;
    48 <= u && u <= 57
}

/// The literal scanner (its meaning: `spec_scalar`): the longest run of decimal
/// digits becomes a `Scalar` leaf; a run whose value does not fit an
/// `i64` is rejected as `InvalidNumberLiteral`.
pub fn scalar_expr(input: &str) -> (r: Result<(&str, Expr), ParseError>)
    ensures
        parse_result_matches(r, spec_scalar(input@)),
{
    let len = input.unicode_len();
    if len == 0 {
        return Err(ParseError::UnexpectedEndOfInput);
    }
    let c0 = input.get_char(0);
    if !exec_is_digit(c0) {
        return Err(ParseError::UnexpectedCharacter(c0));
    }
    let mut n: usize = 0;
    loop
        invariant
            0 <= n <= len,
            len == input@.len(),
            forall|k: int| 0 <= k < n ==> is_digit(input@[k]),
        ensures
            0 <= n <= len,
            forall|k: int| 0 <= k < n ==> is_digit(input@[k]),
            n == len || !is_digit(input@[n as int]),
        decreases len - n,
    {
        if n == len {
            break;
        }
        if !exec_is_digit(input.get_char(n)) {
            break;
        }
        n = n + 1;
    }
    proof {
        lemma_digit_run_len_from_scan(input@, n as int);
    }
    let mut val: i64 = 0;
    let mut i: usize = 0;
    while i < n
        invariant
            0 <= i <= n <= len,
            1 <= n,
            len == input@.len(),
            digit_run_len(input@) == n as int,
            forall|k: int| 0 <= k < n ==> is_digit(input@[k]),
            0 <= val,
            val as int == digits_value(input@.subrange(0, i as int)),
        decreases n - i,
    {
        let c = input.get_char(i);
        let d = (c as u32 - 48) as i64;
        let scaled = match val.checked_mul(10) {
            Some(v) => v.checked_add(d),
            None => None,
        };
        proof {
            lemma_digits_value_take_succ(input@, i as int);
        }
        match scaled {
            Some(v) => {
                val = v;
                i = i + 1;
            },
            None => {
                proof {
                    lemma_digits_value_take_mono(input@, i as int + 1, n as int);
                }
                return Err(ParseError::InvalidNumberLiteral);
            },
        }
    }
    let rest = input.substring_char(n, len);
    proof {
        assert(rest@ =~= input@.subrange(n as int, input@.len() as int));
    }
    Ok((rest, Expr::Scalar(val)))
}

/// A successful scalar consumes at least its one-digit run.
proof fn lemma_scalar_progress(s: Seq<char>)
    ensures
        spec_scalar(s) matches Ok((rest, e)) ==> rest.len() < s.len(),
{
    if s.len() > 0 && is_digit(s[0]) {
        lemma_digit_run_len_bounds(s);
    }
}

/// A successful parenthesized expression consumes at least its two
/// parentheses.
proof fn lemma_parens_progress(s: Seq<char>)
    ensures
        spec_parens(s) matches Ok((rest, e)) ==> rest.len() < s.len(),
    decreases s.len(), 0int,
{
    if s.len() > 0 && s[0] == '(' {
        lemma_expression_progress(s.subrange(1, s.len() as int));
    }
}

/// A successful factor consumes at least one character.
pub(crate) proof fn lemma_factor_progress(s: Seq<char>)
    ensures
        spec_factor(s) matches Ok((rest, e)) ==> rest.len() < s.len(),
    decreases s.len(), 1int,
{
    if s.len() > 0 && s[0] == '(' {
        lemma_parens_progress(s);
    } else {
        lemma_scalar_progress(s);
    }
}

/// The multiplicative fold never hands back more than it was given.
proof fn lemma_term_rest_progress(s: Seq<char>, acc: Expr)
    ensures
        spec_term_rest(s, acc) matches Ok((rest, e)) ==> rest.len() <= s.len(),
    decreases s.len(), 2int,
{
    if s.len() > 0 && is_mul_op(s[0]) {
        let sub = s.subrange(1, s.len() as int);
        lemma_factor_progress(sub);
        match spec_factor(sub) {
            Ok((rest, f)) => {
                lemma_term_rest_progress(
                    rest,
                    Expr::Binary(Box::new(acc), mul_op_of(s[0]), Box::new(f)),
                );
            },
            Err(e) => {},
        }
    }
}

/// A successful term consumes at least one character.
pub(crate) proof fn lemma_term_progress(s: Seq<char>)
    ensures
        spec_term(s) matches Ok((rest, e)) ==> rest.len() < s.len(),
    decreases s.len(), 3int,
{
    lemma_factor_progress(s);
    match spec_factor(s) {
        Ok((rest, f)) => {
            lemma_term_rest_progress(rest, f);
        },
        Err(e) => {},
    }
}

/// The additive fold never hands back more than it was given.
proof fn lemma_expr_rest_progress(s: Seq<char>, acc: Expr)
    ensures
        spec_expr_rest(s, acc) matches Ok((rest, e)) ==> rest.len() <= s.len(),
    decreases s.len(), 4int,
{
    if s.len() > 0 && is_add_op(s[0]) {
        let sub = s.subrange(1, s.len() as int);
        lemma_term_progress(sub);
        match spec_term(sub) {
            Ok((rest, t)) => {
                lemma_expr_rest_progress(
                    rest,
                    Expr::Binary(Box::new(acc), add_op_of(s[0]), Box::new(t)),
                );
            },
            Err(e) => {},
        }
    }
}

/// A successful expression consumes at least one character.
proof fn lemma_expression_progress(s: Seq<char>)
    ensures
        spec_expression(s) matches Ok((rest, e)) ==> rest.len() < s.len(),
    decreases s.len(), 5int,
{
    lemma_term_progress(s);
    match spec_term(s) {
        Ok((rest, t)) => {
            lemma_expr_rest_progress(rest, t);
        },
        Err(e) => {},
    }
}

/// Every character of the maximal digit run is a digit.
proof fn lemma_digit_run_len_digits(s: Seq<char>)
    ensures
        forall|k: int| 0 <= k < digit_run_len(s) ==> is_digit(s[k]),
    decreases s.len(),
{
    if s.len() > 0 && is_digit(s[0]) {
        lemma_digit_run_len_bounds(s);
        lemma_digit_run_len_bounds(s.subrange(1, s.len() as int));
        lemma_digit_run_len_digits(s.subrange(1, s.len() as int));
        assert forall|k: int| 0 <= k < digit_run_len(s) implies is_digit(s[k]) by {
            if k > 0 {
                assert(is_digit(s.subrange(1, s.len() as int)[k - 1]));
            }
        }
    }
}

/// A scalar leaf carries the value of a digit run, which is never
/// negative.
proof fn lemma_scalar_wf(s: Seq<char>)
    ensures
        spec_scalar(s) matches Ok((rest, e)) ==> wf_expr(e),
{
    if s.len() > 0 && is_digit(s[0]) {
        lemma_digit_run_len_bounds(s);
        lemma_digit_run_len_digits(s);
        let n = digit_run_len(s);
        assert(forall|k: int| 0 <= k < n ==> is_digit(#[trigger] s.subrange(0, n)[k]));
        lemma_digits_value_nonneg(s.subrange(0, n));
    }
}

proof fn lemma_parens_wf(s: Seq<char>)
    ensures
        spec_parens(s) matches Ok((rest, e)) ==> wf_expr(e),
    decreases s.len(), 0int,
{
    if s.len() > 0 && s[0] == '(' {
        lemma_parse_well_formed(s.subrange(1, s.len() as int));
    }
}

proof fn lemma_factor_wf(s: Seq<char>)
    ensures
        spec_factor(s) matches Ok((rest, e)) ==> wf_expr(e),
    decreases s.len(), 1int,
{
    if s.len() > 0 && s[0] == '(' {
        lemma_parens_wf(s);
    } else {
        lemma_scalar_wf(s);
    }
}

proof fn lemma_term_rest_wf(s: Seq<char>, acc: Expr)
    requires
        wf_expr(acc),
    ensures
        spec_term_rest(s, acc) matches Ok((rest, e)) ==> wf_expr(e),
    decreases s.len(), 2int,
{
    if s.len() > 0 && is_mul_op(s[0]) {
        let sub = s.subrange(1, s.len() as int);
        lemma_factor_wf(sub);
        lemma_factor_progress(sub);
        match spec_factor(sub) {
            Ok((rest, f)) => {
                lemma_term_rest_wf(
                    rest,
                    Expr::Binary(Box::new(acc), mul_op_of(s[0]), Box::new(f)),
                );
            },
            Err(e) => {},
        }
    }
}

proof fn lemma_term_wf(s: Seq<char>)
    ensures
        spec_term(s) matches Ok((rest, e)) ==> wf_expr(e),
    decreases s.len(), 3int,
{
    lemma_factor_wf(s);
    lemma_factor_progress(s);
    match spec_factor(s) {
        Ok((rest, f)) => {
            lemma_term_rest_wf(rest, f);
        },
        Err(e) => {},
    }
}

proof fn lemma_expr_rest_wf(s: Seq<char>, acc: Expr)
    requires
        wf_expr(acc),
    ensures
        spec_expr_rest(s, acc) matches Ok((rest, e)) ==> wf_expr(e),
    decreases s.len(), 4int,
{
    if s.len() > 0 && is_add_op(s[0]) {
        let sub = s.subrange(1, s.len() as int);
        lemma_term_wf(sub);
        lemma_term_progress(sub);
        match spec_term(sub) {
            Ok((rest, t)) => {
                lemma_expr_rest_wf(
                    rest,
                    Expr::Binary(Box::new(acc), add_op_of(s[0]), Box::new(t)),
                );
            },
            Err(e) => {},
        }
    }
}

/// Well-formedness of everything the grammar builds: a tree that
/// parsing returns has only complete nodes, and every leaf holds a
/// non-negative value. (On failure nothing is returned at all, so no
/// partially constructed node can escape a failed parse.)
pub proof fn lemma_parse_well_formed(s: Seq<char>)
    ensures
        spec_expression(s) matches Ok((rest, e)) ==> wf_expr(e),
    decreases s.len(), 5int,
{
    lemma_term_wf(s);
    lemma_term_progress(s);
    match spec_term(s) {
        Ok((rest, t)) => {
            lemma_expr_rest_wf(rest, t);
        },
        Err(e) => {},
    }
}

/// Determinism of the grammar: the parse is a function of the
/// characters alone, with no hidden state, so parsing the same input
/// twice yields structurally equal trees (or the same error). Through
/// `binary_expr`'s contract this carries to the executable parser.
pub proof fn lemma_parse_deterministic(s1: Seq<char>, s2: Seq<char>)
    requires
        s1 == s2,
    ensures
        spec_expression(s1) == spec_expression(s2),
{
}

/// `'(' expression ')'` (its meaning: `spec_parens`): returns the inner tree
/// unchanged; a failure after the opening parenthesis propagates.
pub fn parens_expr(input: &str) -> (r: Result<(&str, Expr), ParseError>)
    ensures
        parse_result_matches(r, spec_parens(input@)),
    decreases input@.len(), 0int,
{
    let len = input.unicode_len();
    if len == 0 {
        return Err(ParseError::UnexpectedEndOfInput);
    }
    let c0 = input.get_char(0);
    if c0 != '(' {
        return Err(ParseError::UnexpectedCharacter(c0));
    }
    let inner = input.substring_char(1, len);
    proof {
        assert(inner@ =~= input@.subrange(1, input@.len() as int));
    }
    let (rest, e) = match binary_expr(inner) {
        Ok(p) => p,
        Err(er) => {
            return Err(er);
        },
    };
    let rlen = rest.unicode_len();
    if rlen == 0 {
        return Err(ParseError::UnexpectedEndOfInput);
    }
    let c1 = rest.get_char(0);
    if c1 != ')' {
        return Err(ParseError::UnexpectedCharacter(c1));
    }
    let after = rest.substring_char(1, rlen);
    proof {
        assert(after@ =~= rest@.subrange(1, rest@.len() as int));
    }
    Ok((after, e))
}

/// `factor := '(' expression ')' | scalar` (its meaning: `spec_factor`): the
/// parenthesized alternative is committed to as soon as `(` is seen.
pub fn factor_expr(input: &str) -> (r: Result<(&str, Expr), ParseError>)
    ensures
        parse_result_matches(r, spec_factor(input@)),
    decreases input@.len(), 1int,
{
    let len = input.unicode_len();
    if len > 0 && input.get_char(0) == '(' {
        parens_expr(input)
    } else {
        scalar_expr(input)
    }
}

/// `term := factor ( ('*' | '/') factor )*` (its meaning: `spec_term`): folds to
/// the left, so `19*12/2` builds `(19*12)/2`.
pub fn term_expr(input: &str) -> (r: Result<(&str, Expr), ParseError>)
    ensures
        parse_result_matches(r, spec_term(input@)),
    decreases input@.len(), 2int,
{
    let (first_rest, first) = match factor_expr(input) {
        Ok(p) => p,
        Err(e) => {
            return Err(e);
        },
    };
    proof {
        lemma_factor_progress(input@);
    }
    let mut rest = first_rest;
    let mut acc = first;
    loop
        invariant
            rest@.len() < input@.len(),
            spec_term(input@) == spec_term_rest(rest@, acc),
        decreases rest@.len(),
    {
        let rlen = rest.unicode_len();
        if rlen == 0 {
            return Ok((rest, acc));
        }
        let c = rest.get_char(0);
        if !(c == '*' || c == '/') {
            return Ok((rest, acc));
        }
        let op = if c == '*' {
            BinaryOp::Multiple
        } else {
            BinaryOp::Divide
        };
        let sub = rest.substring_char(1, rlen);
        proof {
            assert(sub@ =~= rest@.subrange(1, rest@.len() as int));
        }
        match factor_expr(sub) {
            Err(e) => {
                return Err(e);
            },
            Ok((rest2, f)) => {
                proof {
                    lemma_factor_progress(sub@);
                }
                acc = Expr::Binary(Box::new(acc), op, Box::new(f));
                rest = rest2;
            },
        }
    }
}

/// `expression := term ( ('+' | '-') term )*` (its meaning: `spec_expression`):
/// the grammar's entry point. Parses the longest valid prefix and
/// returns it with the unconsumed suffix; callers that require full
/// consumption check that the suffix is empty.
pub fn binary_expr(input: &str) -> (r: Result<(&str, Expr), ParseError>)
    ensures
        parse_result_matches(r, spec_expression(input@)),
    decreases input@.len(), 3int,
{
    let (first_rest, first) = match term_expr(input) {
        Ok(p) => p,
        Err(e) => {
            return Err(e);
        },
    };
    proof {
        lemma_term_progress(input@);
    }
    let mut rest = first_rest;
    let mut acc = first;
    loop
        invariant
            rest@.len() < input@.len(),
            spec_expression(input@) == spec_expr_rest(rest@, acc),
        decreases rest@.len(),
    {
        let rlen = rest.unicode_len();
        if rlen == 0 {
            return Ok((rest, acc));
        }
        let c = rest.get_char(0);
        if !(c == '+' || c == '-') {
            return Ok((rest, acc));
        }
        let op = if c == '+' {
            BinaryOp::Add
        } else {
            BinaryOp::Minus
        };
        let sub = rest.substring_char(1, rlen);
        proof {
            assert(sub@ =~= rest@.subrange(1, rest@.len() as int));
        }
        match term_expr(sub) {
            Err(e) => {
                return Err(e);
            },
            Ok((rest2, t)) => {
                proof {
                    lemma_term_progress(sub@);
                }
                acc = Expr::Binary(Box::new(acc), op, Box::new(t));
                rest = rest2;
            },
        }
    }
}

} // verus!
