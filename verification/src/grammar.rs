//! The value of a text follows its grammar.
//!
//! ```text
//! expression = expression ("+" | "-") term | term ;
//! term       = term ("*" | "/") factor | factor ;
//! ```
//!
//! The value of `expression op term` is what `op` makes of the value of the
//! expression and the value of the term, and likewise for a term and a
//! factor. So `*` and `/` bind tighter than `+` and `-`, and operators of
//! one level are applied from left to right.

use vstd::prelude::*;
use crate::error::Failure;
use crate::laws::{
    all_spaces, is_literal, law_lex_end_of_input, law_lex_integer,
    law_term_stops_in_front_of_lookahead,
};
use crate::lexer::{
    decimal_value, digits_end, is_digit, lemma_digits_end, lemma_digits_run, lemma_lex_advances,
    lemma_spaces_end, lemma_spaces_run, lex, operator_of, spaces_end, Lexed,
};
use crate::parser::{
    combine, complete_model, expr_tail, factor_model, lemma_factor_advances,
    lemma_term_advances, term_model, term_tail, Parsed,
};
use crate::token::TokenValue;

verus! {

/// The text `s` is one factor with the value `v`, and nothing else.
pub open spec fn whole_factor(s: Seq<char>, v: int) -> bool {
    &&& factor_model(s, 0) matches Ok(p)
    &&& p.value == v
    &&& lex(s, p.next) matches Ok(t)
    &&& t.value == TokenValue::Eof
}

/// The text `s` is one term with the value `v`, and nothing else.
pub open spec fn whole_term(s: Seq<char>, v: int) -> bool {
    &&& term_model(s, 0) matches Ok(p)
    &&& p.value == v
    &&& lex(s, p.next) matches Ok(t)
    &&& t.value == TokenValue::Eof
}

/// The text `s` is one expression with the value `v`, and nothing else.
pub open spec fn whole_expr(s: Seq<char>, v: int) -> bool {
    complete_model(s) matches Ok(w) && w == v
}

/// A token with its end moved by `d`.
pub open spec fn token_moved_by(r: Result<Lexed, Failure>, d: int) -> Result<Lexed, Failure> {
    match r {
        Ok(t) => Ok(Lexed { value: t.value, next: t.next + d }),
        Err(f) => Err(Failure { kind: f.kind, at: f.at + d }),
    }
}

/// An outcome of the parser with its end moved by `d`.
pub open spec fn outcome_moved_by(r: Result<Parsed, Failure>, d: int) -> Result<Parsed, Failure> {
    match r {
        Ok(p) => Ok(Parsed { value: p.value, next: p.next + d }),
        Err(f) => Err(Failure { kind: f.kind, at: f.at + d }),
    }
}

/// What stands in front of an offset does not matter to the token read from
/// it: behind a text `x`, the text `t` gives the tokens that it gives
/// alone, moved by the length of `x`.
pub proof fn lemma_lex_behind(x: Seq<char>, t: Seq<char>, i: int)
    requires
        0 <= i,
    ensures
        lex(x + t, x.len() + i) == token_moved_by(lex(t, i), x.len() as int),
{
    let u = x + t;
    let d = x.len() as int;
    lemma_spaces_end(t, i);
    let j = spaces_end(t, i);
    if i <= t.len() {
        lemma_spaces_run(u, d + i, d + j);
        if j < t.len() && is_digit(t[j]) {
            lemma_digits_end(t, j);
            let k = digits_end(t, j);
            lemma_digits_run(u, d + j, d + k);
            assert(u.subrange(d + j, d + k) =~= t.subrange(j, k));
        }
    }
}

/// A factor behind a text `x` is the factor of `t` alone, moved by the
/// length of `x`.
pub proof fn lemma_factor_behind(x: Seq<char>, t: Seq<char>, i: int)
    requires
        0 <= i,
    ensures
        factor_model(x + t, x.len() + i) == outcome_moved_by(factor_model(t, i), x.len() as int),
{
    lemma_lex_behind(x, t, i);
}

/// The rest of a term behind a text `x` is that of `t` alone, moved by the
/// length of `x`.
pub proof fn lemma_term_tail_behind(x: Seq<char>, t: Seq<char>, acc: int, i: int)
    requires
        0 <= i,
    ensures
        term_tail(x + t, acc, x.len() + i) == outcome_moved_by(
            term_tail(t, acc, i),
            x.len() as int,
        ),
    decreases t.len() - i,
{
    lemma_lex_behind(x, t, i);
    lemma_lex_advances(t, i);
    if let Ok(op) = lex(t, i) {
        if op.value == TokenValue::Mult || op.value == TokenValue::Div {
            lemma_factor_behind(x, t, op.next);
            lemma_factor_advances(t, op.next);
            if let Ok(rhs) = factor_model(t, op.next) {
                if let Ok(v) = combine(op.value, acc, rhs.value, rhs.next) {
                    lemma_term_tail_behind(x, t, v, rhs.next);
                }
            }
        }
    }
}

/// A term behind a text `x` is the term of `t` alone, moved by the length of
/// `x`.
pub proof fn lemma_term_behind(x: Seq<char>, t: Seq<char>, i: int)
    requires
        0 <= i,
    ensures
        term_model(x + t, x.len() + i) == outcome_moved_by(term_model(t, i), x.len() as int),
{
    lemma_factor_behind(x, t, i);
    lemma_factor_advances(t, i);
    if let Ok(first) = factor_model(t, i) {
        lemma_term_tail_behind(x, t, first.value, first.next);
    }
}

/// What follows a text matters only at its end: with an operator `r[0]`
/// behind `s`, every token of `s` is read as in `s` alone, and where `s`
/// alone is at its end, that operator is read.
pub proof fn lemma_lex_in_front(s: Seq<char>, r: Seq<char>, i: int)
    requires
        0 <= i <= s.len(),
        r.len() > 0,
        operator_of(r[0]) is Some,
    ensures
        match lex(s, i) {
            Ok(t) => if t.value == TokenValue::Eof {
                &&& lex(s + r, i) matches Ok(u)
                &&& u.value == operator_of(r[0])->Some_0
                &&& u.next == s.len() + 1
            } else {
                lex(s + r, i) == lex(s, i)
            },
            Err(_) => lex(s + r, i) == lex(s, i),
        },
{
    let u = s + r;
    lemma_spaces_end(s, i);
    let j = spaces_end(s, i);
    lemma_spaces_run(u, i, j);
    if j < s.len() && is_digit(s[j]) {
        lemma_digits_end(s, j);
        let k = digits_end(s, j);
        lemma_digits_run(u, j, k);
        assert(u.subrange(j, k) =~= s.subrange(j, k));
    }
}

/// With an operator behind `s`, a factor of `s` is read as in `s` alone.
pub proof fn lemma_factor_in_front(s: Seq<char>, r: Seq<char>, i: int)
    requires
        0 <= i <= s.len(),
        r.len() > 0,
        operator_of(r[0]) is Some,
        factor_model(s, i) is Ok,
    ensures
        factor_model(s + r, i) == factor_model(s, i),
{
    lemma_lex_in_front(s, r, i);
}

/// With an operator behind `s`, the rest of a term of `s` is read as in `s`
/// alone up to its end in `s`; where that is the end of `s`, the term goes
/// on from there with what follows.
pub proof fn lemma_term_tail_in_front(s: Seq<char>, r: Seq<char>, acc: int, i: int)
    requires
        0 <= i <= s.len(),
        r.len() > 0,
        operator_of(r[0]) is Some,
        term_tail(s, acc, i) is Ok,
    ensures
        ({
            let p = term_tail(s, acc, i)->Ok_0;
            &&& 0 <= p.next <= s.len()
            &&& term_tail(s + r, acc, i) == term_tail(s + r, p.value, p.next)
            &&& (lex(s, p.next) matches Ok(t) && t.value != TokenValue::Eof) ==> term_tail(
                s + r,
                acc,
                i,
            ) == term_tail(s, acc, i)
        }),
    decreases s.len() - i,
{
    lemma_lex_in_front(s, r, i);
    lemma_lex_advances(s, i);
    if let Ok(op) = lex(s, i) {
        if op.value == TokenValue::Mult || op.value == TokenValue::Div {
            lemma_factor_advances(s, op.next);
            if let Ok(rhs) = factor_model(s, op.next) {
                lemma_factor_in_front(s, r, op.next);
                if let Ok(v) = combine(op.value, acc, rhs.value, rhs.next) {
                    lemma_term_tail_in_front(s, r, v, rhs.next);
                }
            }
        }
    }
}

/// With `+` or `-` behind `s`, a term of `s` is read as in `s` alone.
pub proof fn lemma_term_in_front(s: Seq<char>, r: Seq<char>, i: int)
    requires
        0 <= i <= s.len(),
        r.len() > 0,
        r[0] == '+' || r[0] == '-',
        term_model(s, i) is Ok,
    ensures
        term_model(s + r, i) == term_model(s, i),
{
    lemma_factor_advances(s, i);
    let first = factor_model(s, i)->Ok_0;
    lemma_factor_in_front(s, r, i);
    lemma_term_tail_in_front(s, r, first.value, first.next);
    let p = term_tail(s, first.value, first.next)->Ok_0;
    lemma_lex_in_front(s, r, p.next);
    law_term_stops_in_front_of_lookahead(s, i);
}

/// With `+` or `-` behind `s`, the rest of an expression of `s` that ends
/// at the end of `s` is read as in `s` alone, and goes on from there with
/// what follows.
pub proof fn lemma_expr_tail_in_front(s: Seq<char>, r: Seq<char>, acc: int, i: int)
    requires
        0 <= i <= s.len(),
        r.len() > 0,
        r[0] == '+' || r[0] == '-',
        expr_tail(s, acc, i) matches Ok(p) && lex(s, p.next) matches Ok(t) && t.value
            == TokenValue::Eof,
    ensures
        ({
            let p = expr_tail(s, acc, i)->Ok_0;
            &&& 0 <= p.next <= s.len()
            &&& expr_tail(s + r, acc, i) == expr_tail(s + r, p.value, p.next)
        }),
    decreases s.len() - i,
{
    lemma_lex_in_front(s, r, i);
    lemma_lex_advances(s, i);
    if let Ok(op) = lex(s, i) {
        if op.value == TokenValue::Plus || op.value == TokenValue::Minus {
            lemma_term_advances(s, op.next);
            if let Ok(rhs) = term_model(s, op.next) {
                lemma_term_in_front(s, r, op.next);
                if let Ok(v) = combine(op.value, acc, rhs.value, rhs.next) {
                    lemma_expr_tail_in_front(s, r, v, rhs.next);
                }
            }
        }
    }
}

/// A run of digits with spaces around it is a factor with the value of the
/// run, where that value is in `i64`.
pub proof fn law_literal_is_factor(lead: Seq<char>, digits: Seq<char>, trail: Seq<char>)
    requires
        all_spaces(lead),
        is_literal(digits),
        all_spaces(trail),
        decimal_value(digits) <= i64::MAX,
    ensures
        whole_factor(lead + digits + trail, decimal_value(digits) as int),
{
    let s = lead + digits + trail;
    let j = lead.len() as int;
    let k = j + digits.len();
    assert(s.subrange(j, k) =~= digits);
    law_lex_integer(s, 0, j, k);
    law_lex_end_of_input(s, k);
}

/// A factor alone is a term with the value of the factor.
pub proof fn law_factor_is_term(f: Seq<char>, v: int)
    requires
        whole_factor(f, v),
    ensures
        whole_term(f, v),
{
}

/// A term alone is an expression with the value of the term.
pub proof fn law_term_is_expr(t: Seq<char>, v: int)
    requires
        whole_term(t, v),
    ensures
        whole_expr(t, v),
{
}

/// The value of `term op factor`, for `op` one of `*` and `/`, is what `op`
/// makes of the value of the term and the value of the factor: the product,
/// or the quotient rounded toward zero. Where that has no value in `i64`, or
/// the factor is zero under `/`, the text fails with that kind of failure.
pub proof fn law_term_then_factor(s: Seq<char>, v: int, op: char, f: Seq<char>, w: int)
    requires
        whole_term(s, v),
        whole_factor(f, w),
        op == '*' || op == '/',
    ensures
        match combine(operator_of(op)->Some_0, v, w, 0) {
            Ok(u) => whole_term(s + seq![op] + f, u),
            Err(e) => term_model(s + seq![op] + f, 0) matches Err(g) && g.kind == e.kind,
        },
{
    let x = s + seq![op];
    let r = seq![op] + f;
    let u = s + seq![op] + f;
    assert(u =~= s + r);
    let d = x.len() as int;

    // The term in front is read as before, and `op` is read behind it.
    lemma_factor_advances(s, 0);
    let first = factor_model(s, 0)->Ok_0;
    lemma_factor_in_front(s, r, 0);
    lemma_term_tail_in_front(s, r, first.value, first.next);
    let p = term_tail(s, first.value, first.next)->Ok_0;
    lemma_lex_in_front(s, r, p.next);

    // The factor behind `op` is read as it is alone.
    lemma_factor_behind(x, f, 0);
    let q = factor_model(f, 0)->Ok_0;
    lemma_lex_behind(x, f, q.next);
    if let Ok(z) = combine(operator_of(op)->Some_0, v, w, 0) {
        assert(term_tail(u, z, q.next + d) matches Ok(e) && e.value == z && e.next == q.next + d);
    }
}

/// The value of `expression op term`, for `op` one of `+` and `-`, is what
/// `op` makes of the value of the expression and the value of the term: the
/// sum or the difference. Where that has no value in `i64`, the text fails
/// with that kind of failure.
pub proof fn law_expr_then_term(s: Seq<char>, v: int, op: char, t: Seq<char>, w: int)
    requires
        whole_expr(s, v),
        whole_term(t, w),
        op == '+' || op == '-',
    ensures
        match combine(operator_of(op)->Some_0, v, w, 0) {
            Ok(u) => whole_expr(s + seq![op] + t, u),
            Err(e) => complete_model(s + seq![op] + t) matches Err(g) && g.kind == e.kind,
        },
{
    let x = s + seq![op];
    let r = seq![op] + t;
    let u = s + seq![op] + t;
    assert(u =~= s + r);
    let d = x.len() as int;

    // The expression in front is read as before, and `op` is read behind it.
    lemma_term_advances(s, 0);
    let first = term_model(s, 0)->Ok_0;
    lemma_term_in_front(s, r, 0);
    lemma_expr_tail_in_front(s, r, first.value, first.next);
    let p = expr_tail(s, first.value, first.next)->Ok_0;
    lemma_lex_in_front(s, r, p.next);

    // The term behind `op` is read as it is alone.
    lemma_term_behind(x, t, 0);
    let q = term_model(t, 0)->Ok_0;
    lemma_lex_behind(x, t, q.next);
    if let Ok(z) = combine(operator_of(op)->Some_0, v, w, 0) {
        assert(expr_tail(u, z, q.next + d) matches Ok(e) && e.value == z && e.next == q.next + d);
    }
}

} // verus!
