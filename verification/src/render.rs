//! The canonical text of a tree, and the round-trip law: parsing the
//! rendering of any well-formed tree returns exactly that tree.
//!
//! The renderer writes a chain of equal-precedence operators without
//! parentheses (relying on left-associativity) and parenthesizes a
//! child exactly where it binds looser than its context. Every string
//! written under the usual precedence conventions therefore carries its
//! tree with it, and `lemma_render_round_trip` shows that the grammar
//! recovers it: parsing followed by evaluation yields the value of the
//! tree that was written.

use vstd::prelude::*;

use crate::ast::{spec_eval, wf_expr, BinaryOp, Expr};
use crate::parse::{
    add_op_of, digit_val, digits_value, is_add_op, is_digit, is_mul_op,
    lemma_digit_run_len_from_scan, lemma_factor_progress, lemma_term_progress, mul_op_of,
    spec_expr_rest, spec_expression, spec_factor, spec_parens, spec_scalar, spec_term,
    spec_term_rest, ParseError,
};

verus! {

/// The character that writes a decimal digit.
pub open spec fn digit_char(d: int) -> char {
    if d == 0 {
        '0'
    } else if d == 1 {
        '1'
    } else if d == 2 {
        '2'
    } else if d == 3 {
        '3'
    } else if d == 4 {
        '4'
    } else if d == 5 {
        '5'
    } else if d == 6 {
        '6'
    } else if d == 7 {
        '7'
    } else if d == 8 {
        '8'
    } else {
        '9'
    }
}

/// The decimal digits of a non-negative number, most significant first.
pub open spec fn digits_of(n: int) -> Seq<char>
    recommends
        n >= 0,
    decreases n,
{
    if n < 10 {
        seq![digit_char(n)]
    } else {
        digits_of(n / 10).push(digit_char(n % 10))
    }
}

/// The digits of `n` are digits, there is at least one, and reading
/// them back gives `n`.
proof fn lemma_digits_of_props(n: int)
    requires
        n >= 0,
    ensures
        digits_of(n).len() >= 1,
        forall|k: int| 0 <= k < digits_of(n).len() ==> is_digit(#[trigger] digits_of(n)[k]),
        digits_value(digits_of(n)) == n,
    decreases n,
{
    if n < 10 {
        assert(is_digit(digit_char(n)));
        assert(digit_val(digit_char(n)) == n);
        assert(digits_of(n).drop_last() =~= Seq::<char>::empty());
        assert(digits_value(Seq::<char>::empty()) == 0);
        assert(digits_of(n).last() == digit_char(n));
    } else {
        vstd::arithmetic::div_mod::lemma_fundamental_div_mod(n, 10);
        assert(0 <= n % 10 < 10);
        assert(0 <= n / 10 < n);
        lemma_digits_of_props(n / 10);
        assert(digits_of(n).drop_last() =~= digits_of(n / 10));
        assert(digits_of(n).last() == digit_char(n % 10));
        assert(digit_val(digit_char(n % 10)) == n % 10);
    }
}

/// No rule past the digits: `rest` must not begin with another digit,
/// or the scanner would read into it.
pub open spec fn no_digit_start(s: Seq<char>) -> bool {
    s.len() == 0 || !is_digit(s[0])
}

pub open spec fn no_mul_start(s: Seq<char>) -> bool {
    s.len() == 0 || !is_mul_op(s[0])
}

pub open spec fn no_add_start(s: Seq<char>) -> bool {
    s.len() == 0 || !is_add_op(s[0])
}

/// Scanning the written digits of `v` in front of anything that does
/// not begin with a digit gives back exactly `v`.
proof fn lemma_scalar_round_trip(v: i64, rest: Seq<char>)
    requires
        0 <= v,
        no_digit_start(rest),
    ensures
        spec_scalar(digits_of(v as int) + rest) == Ok::<(Seq<char>, Expr), ParseError>(
            (rest, Expr::Scalar(v)),
        ),
{
    let d = digits_of(v as int);
    lemma_digits_of_props(v as int);
    let s = d + rest;
    assert(forall|k: int| 0 <= k < d.len() ==> s[k] == d[k]);
    assert(d.len() < s.len() ==> s[d.len() as int] == rest[0]);
    lemma_digit_run_len_from_scan(s, d.len() as int);
    assert(s.subrange(0, d.len() as int) =~= d);
    assert(s.subrange(d.len() as int, s.len() as int) =~= rest);
}

/// The character that writes an operator.
pub open spec fn op_char(op: BinaryOp) -> char {
    match op {
        BinaryOp::Add => '+',
        BinaryOp::Minus => '-',
        BinaryOp::Multiple => '*',
        BinaryOp::Divide => '/',
    }
}

/// The canonical text of a tree read as an expression: an additive
/// chain is written flat (left-associativity restores its shape), and
/// each operand is written at the level the grammar will parse it.
pub open spec fn render_expr(e: Expr) -> Seq<char>
    decreases e,
{
    match e {
        Expr::Scalar(v) => digits_of(v as int),
        Expr::Binary(l, op, r) => {
            if is_add_op(op_char(op)) {
                render_expr(*l) + seq![op_char(op)] + render_term(*r)
            } else {
                render_term(*l) + seq![op_char(op)] + render_factor(*r)
            }
        },
    }
}

/// The canonical text of a tree read as a term: an additive node binds
/// looser than its context here, so it is parenthesized.
pub open spec fn render_term(e: Expr) -> Seq<char>
    decreases e,
{
    match e {
        Expr::Scalar(v) => digits_of(v as int),
        Expr::Binary(l, op, r) => {
            if is_add_op(op_char(op)) {
                seq!['('] + render_expr(*l) + seq![op_char(op)] + render_term(*r) + seq![')']
            } else {
                render_term(*l) + seq![op_char(op)] + render_factor(*r)
            }
        },
    }
}

/// The canonical text of a tree read as a factor: any operator node is
/// parenthesized.
pub open spec fn render_factor(e: Expr) -> Seq<char>
    decreases e,
{
    match e {
        Expr::Scalar(v) => digits_of(v as int),
        Expr::Binary(l, op, r) => {
            if is_add_op(op_char(op)) {
                seq!['('] + render_expr(*l) + seq![op_char(op)] + render_term(*r) + seq![')']
            } else {
                seq!['('] + render_term(*l) + seq![op_char(op)] + render_factor(*r) + seq![')']
            }
        },
    }
}

/// Parsing a rendered term in front of `rest` reaches exactly the fold
/// state `(rest, e)`: the term rule consumes the rendering and nothing
/// more, and rebuilds `e`.
#[verifier::rlimit(60)]
proof fn lemma_term_round_trip_gen(e: Expr, rest: Seq<char>)
    requires
        wf_expr(e),
        no_digit_start(rest),
    ensures
        spec_term(render_term(e) + rest) == spec_term_rest(rest, e),
    decreases e, 0int,
{
    match e {
        Expr::Scalar(v) => {
            let s = render_term(e) + rest;
            lemma_digits_of_props(v as int);
            lemma_scalar_round_trip(v, rest);
            assert(s[0] == digits_of(v as int)[0]);
            assert(is_digit(s[0]) && s[0] != '(');
            assert(spec_factor(s) == Ok::<(Seq<char>, Expr), ParseError>((rest, e)));
            lemma_factor_progress(s);
        },
        Expr::Binary(l, op, r) => {
            let c = op_char(op);
            let s = render_term(e) + rest;
            if is_add_op(c) {
                let crest = seq![')'] + rest;
                let rest1 = seq![c] + render_term(*r) + crest;
                assert(s[0] == '(');
                let t = s.subrange(1, s.len() as int);
                assert(t =~= render_expr(*l) + rest1);
                assert(rest1[0] == c && !is_digit(c) && !is_mul_op(c));
                lemma_expr_round_trip_gen(*l, rest1);
                assert(spec_expression(t) == spec_expr_rest(rest1, *l));
                let sub = rest1.subrange(1, rest1.len() as int);
                assert(sub =~= render_term(*r) + crest);
                assert(crest[0] == ')' && !is_digit(')') && !is_mul_op(')'));
                lemma_term_round_trip(*r, crest);
                assert(spec_term(sub) == Ok::<(Seq<char>, Expr), ParseError>((crest, *r)));
                assert(crest.len() < rest1.len());
                assert(add_op_of(c) == op);
                assert(Expr::Binary(Box::new(*l), op, Box::new(*r)) == e);
                assert(spec_expr_rest(rest1, *l) == spec_expr_rest(crest, e));
                assert(!is_add_op(crest[0]));
                assert(spec_expr_rest(crest, e) == Ok::<(Seq<char>, Expr), ParseError>((crest, e)));
                assert(spec_expression(t) == Ok::<(Seq<char>, Expr), ParseError>((crest, e)));
                assert(crest.subrange(1, crest.len() as int) =~= rest);
                assert(spec_parens(s) == Ok::<(Seq<char>, Expr), ParseError>((rest, e)));
                assert(spec_factor(s) == Ok::<(Seq<char>, Expr), ParseError>((rest, e)));
                lemma_factor_progress(s);
            } else {
                let rest1 = seq![c] + render_factor(*r) + rest;
                assert(render_term(e) + rest =~= render_term(*l) + rest1);
                assert(rest1[0] == c && !is_digit(c));
                lemma_term_round_trip_gen(*l, rest1);
                assert(spec_term(s) == spec_term_rest(rest1, *l));
                assert(is_mul_op(rest1[0]));
                let sub = rest1.subrange(1, rest1.len() as int);
                assert(sub =~= render_factor(*r) + rest);
                lemma_factor_round_trip(*r, rest);
                assert(spec_factor(sub) == Ok::<(Seq<char>, Expr), ParseError>((rest, *r)));
                assert(rest.len() < rest1.len());
                assert(mul_op_of(c) == op);
                assert(Expr::Binary(Box::new(*l), op, Box::new(*r)) == e);
                assert(spec_term_rest(rest1, *l) == spec_term_rest(rest, e));
            }
        },
    }
}

/// A rendered term followed by anything that continues no term parses
/// to exactly `(rest, e)`.
proof fn lemma_term_round_trip(e: Expr, rest: Seq<char>)
    requires
        wf_expr(e),
        no_digit_start(rest),
        no_mul_start(rest),
    ensures
        spec_term(render_term(e) + rest) == Ok::<(Seq<char>, Expr), ParseError>((rest, e)),
    decreases e, 1int,
{
    lemma_term_round_trip_gen(e, rest);
}

/// Parsing a rendered expression in front of `rest` reaches exactly the
/// fold state `(rest, e)`.
proof fn lemma_expr_round_trip_gen(e: Expr, rest: Seq<char>)
    requires
        wf_expr(e),
        no_digit_start(rest),
        no_mul_start(rest),
    ensures
        spec_expression(render_expr(e) + rest) == spec_expr_rest(rest, e),
    decreases e, 2int,
{
    let s = render_expr(e) + rest;
    match e {
        Expr::Scalar(v) => {
            assert(render_expr(e) == render_term(e));
            lemma_term_round_trip(e, rest);
            lemma_term_progress(s);
        },
        Expr::Binary(l, op, r) => {
            let c = op_char(op);
            if is_add_op(c) {
                let rest1 = seq![c] + render_term(*r) + rest;
                assert(s =~= render_expr(*l) + rest1);
                assert(rest1[0] == c && !is_digit(c) && !is_mul_op(c));
                lemma_expr_round_trip_gen(*l, rest1);
                assert(spec_expression(s) == spec_expr_rest(rest1, *l));
                assert(is_add_op(rest1[0]));
                let sub = rest1.subrange(1, rest1.len() as int);
                assert(sub =~= render_term(*r) + rest);
                lemma_term_round_trip(*r, rest);
                assert(spec_term(sub) == Ok::<(Seq<char>, Expr), ParseError>((rest, *r)));
                assert(rest.len() < rest1.len());
                assert(add_op_of(c) == op);
                assert(Expr::Binary(Box::new(*l), op, Box::new(*r)) == e);
                assert(spec_expr_rest(rest1, *l) == spec_expr_rest(rest, e));
            } else {
                assert(render_expr(e) == render_term(e));
                lemma_term_round_trip(e, rest);
                lemma_term_progress(s);
            }
        },
    }
}

/// A rendered expression followed by anything that continues no
/// expression parses to exactly `(rest, e)`.
proof fn lemma_expr_round_trip(e: Expr, rest: Seq<char>)
    requires
        wf_expr(e),
        no_digit_start(rest),
        no_mul_start(rest),
        no_add_start(rest),
    ensures
        spec_expression(render_expr(e) + rest) == Ok::<(Seq<char>, Expr), ParseError>((rest, e)),
    decreases e, 3int,
{
    lemma_expr_round_trip_gen(e, rest);
}

/// A rendered factor in front of anything that does not begin with a
/// digit parses to exactly `(rest, e)`.
proof fn lemma_factor_round_trip(e: Expr, rest: Seq<char>)
    requires
        wf_expr(e),
        no_digit_start(rest),
    ensures
        spec_factor(render_factor(e) + rest) == Ok::<(Seq<char>, Expr), ParseError>((rest, e)),
    decreases e, 4int,
{
    let s = render_factor(e) + rest;
    match e {
        Expr::Scalar(v) => {
            lemma_digits_of_props(v as int);
            lemma_scalar_round_trip(v, rest);
            assert(s[0] == digits_of(v as int)[0]);
            assert(is_digit(s[0]) && s[0] != '(');
        },
        Expr::Binary(l, op, r) => {
            let crest = seq![')'] + rest;
            assert(render_factor(e) =~= seq!['('] + render_expr(e) + seq![')']);
            assert(s[0] == '(');
            let t = s.subrange(1, s.len() as int);
            assert(t =~= render_expr(e) + crest);
            assert(crest[0] == ')' && !is_digit(')') && !is_mul_op(')') && !is_add_op(')'));
            lemma_expr_round_trip(e, crest);
            assert(spec_expression(t) == Ok::<(Seq<char>, Expr), ParseError>((crest, e)));
            assert(crest.subrange(1, crest.len() as int) =~= rest);
            assert(spec_parens(s) == Ok::<(Seq<char>, Expr), ParseError>((rest, e)));
        },
    }
}

/// The round-trip law: writing any well-formed tree in the usual
/// notation — standard precedence, left-associativity, parentheses only
/// where a child binds looser than its context — and parsing it back
/// returns exactly that tree with nothing left over. Evaluating the
/// parse result of such a string therefore yields `spec_eval` of the
/// tree that was written: the value the notation promises.
pub proof fn lemma_render_round_trip(e: Expr)
    requires
        wf_expr(e),
    ensures
        spec_expression(render_expr(e)) == Ok::<(Seq<char>, Expr), ParseError>(
            (Seq::<char>::empty(), e),
        ),
{
    lemma_expr_round_trip(e, Seq::<char>::empty());
    assert(render_expr(e) + Seq::<char>::empty() =~= render_expr(e));
}

/// Parsing followed by evaluation, over every string the renderer can
/// write: the whole string is consumed, and the value computed is the
/// value of the tree the string denotes under standard precedence and
/// left-associativity, with parenthesization overriding precedence.
pub proof fn lemma_parse_then_eval(e: Expr)
    requires
        wf_expr(e),
    ensures
        spec_expression(render_expr(e)) matches Ok((rest, t)) && rest.len() == 0 && spec_eval(t)
            == spec_eval(e),
{
    lemma_render_round_trip(e);
}

} // verus!
