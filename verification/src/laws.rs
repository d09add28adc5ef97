//! What holds of the lexer and the parser for every input.

use vstd::prelude::*;
use crate::error::ErrorKind;
use crate::lexer::{
    decimal_value, digits_between, is_digit, lemma_digits_run, lemma_lex_advances,
    lemma_spaces_run, lex, operator_of, spaces_between,
};
use crate::parser::{
    combine, expr_model, expr_tail, factor_model, lemma_factor_advances, lemma_term_advances,
    term_model, term_tail,
};
use crate::token::TokenValue;

verus! {

/// Where nothing but spaces is left, the token is `Eof`, and the cursor ends
/// at the end of the text. Where the cursor stands at or behind the end, it
/// does not move.
pub proof fn law_lex_end_of_input(s: Seq<char>, i: int)
    requires
        0 <= i,
        spaces_between(s, i, s.len() as int),
    ensures
        lex(s, i) matches Ok(t) && t.value == TokenValue::Eof && t.next == if i <= s.len() {
            s.len() as int
        } else {
            i
        },
{
    if i <= s.len() {
        lemma_spaces_run(s, i, s.len() as int);
    }
}

/// A run of digits is one token, however long it is: spaces from `i` to `j`,
/// then digits from `j` to `k`, then the end of the text or a character that
/// is no digit, give one integer with the value of the run, and the cursor
/// ends at `k`; a value above `i64::MAX` is a failure at `k`.
pub proof fn law_lex_integer(s: Seq<char>, i: int, j: int, k: int)
    requires
        0 <= i <= j < k <= s.len(),
        spaces_between(s, i, j),
        digits_between(s, j, k),
        k == s.len() || !is_digit(s[k]),
    ensures
        if decimal_value(s.subrange(j, k)) <= i64::MAX {
            &&& lex(s, i) matches Ok(t)
            &&& t.value == TokenValue::Integer(decimal_value(s.subrange(j, k)) as i64)
            &&& t.next == k
        } else {
            &&& lex(s, i) matches Err(f)
            &&& f.kind == ErrorKind::IntegerOverflow
            &&& f.at == k
        },
{
    lemma_spaces_run(s, i, j);
    lemma_digits_run(s, j, k);
}

/// An operator is a token of one character: spaces from `i` to `j` and an
/// operator character at `j` give that operator, and the cursor ends at
/// `j + 1`.
pub proof fn law_lex_operator(s: Seq<char>, i: int, j: int)
    requires
        0 <= i <= j < s.len(),
        spaces_between(s, i, j),
        operator_of(s[j]) is Some,
    ensures
        lex(s, i) matches Ok(t) && t.value == operator_of(s[j])->Some_0 && t.next == j + 1,
{
    lemma_spaces_run(s, i, j);
}

/// A character that is neither a space, a digit nor an operator is a lexical
/// failure that names the character and its offset.
pub proof fn law_lex_illegal_character(s: Seq<char>, i: int, j: int)
    requires
        0 <= i <= j < s.len(),
        spaces_between(s, i, j),
        s[j] != ' ',
        !is_digit(s[j]),
        operator_of(s[j]) is None,
    ensures
        lex(s, i) matches Err(f) && f.kind == ErrorKind::Lexical(s[j]) && f.at == j,
{
    lemma_spaces_run(s, i, j);
}

/// Going back is exact for a term: where a term ends, the token that ended
/// it is still there to be read, it is neither `*` nor `/`, and reading on
/// from that offset with the value of the term changes nothing.
pub proof fn law_term_stops_in_front_of_lookahead(s: Seq<char>, i: int)
    requires
        0 <= i,
    ensures
        term_model(s, i) matches Ok(p) ==> {
            &&& lex(s, p.next) matches Ok(t)
            &&& t.value != TokenValue::Mult
            &&& t.value != TokenValue::Div
            &&& term_tail(s, p.value, p.next) == term_model(s, i)
        },
{
    lemma_factor_advances(s, i);
    if let Ok(first) = factor_model(s, i) {
        lemma_term_tail_stops(s, first.value, first.next);
    }
}

proof fn lemma_term_tail_stops(s: Seq<char>, acc: int, i: int)
    requires
        0 <= i,
    ensures
        term_tail(s, acc, i) matches Ok(p) ==> {
            &&& 0 <= p.next
            &&& lex(s, p.next) matches Ok(t)
            &&& t.value != TokenValue::Mult
            &&& t.value != TokenValue::Div
            &&& term_tail(s, p.value, p.next) == term_tail(s, acc, i)
        },
    decreases s.len() - i,
{
    lemma_lex_advances(s, i);
    if let Ok(op) = lex(s, i) {
        if op.value == TokenValue::Mult || op.value == TokenValue::Div {
            lemma_factor_advances(s, op.next);
            if let Ok(rhs) = factor_model(s, op.next) {
                if let Ok(v) = combine(op.value, acc, rhs.value, rhs.next) {
                    lemma_term_tail_stops(s, v, rhs.next);
                }
            }
        }
    }
}

/// Going back is exact for an expression: where an expression ends, the
/// token that ended it is still there to be read, it is an integer or the
/// end of the input, and reading on from that offset with the value of the
/// expression changes nothing.
pub proof fn law_expr_stops_in_front_of_lookahead(s: Seq<char>, i: int)
    requires
        0 <= i,
    ensures
        expr_model(s, i) matches Ok(p) ==> {
            &&& lex(s, p.next) matches Ok(t)
            &&& (t.value is Integer || t.value is Eof)
            &&& expr_tail(s, p.value, p.next) == expr_model(s, i)
        },
{
    lemma_term_advances(s, i);
    law_term_stops_in_front_of_lookahead(s, i);
    if let Ok(first) = term_model(s, i) {
        lemma_expr_tail_stops(s, first.value, first.next);
    }
}

proof fn lemma_expr_tail_stops(s: Seq<char>, acc: int, i: int)
    requires
        0 <= i,
        lex(s, i) matches Ok(t) && t.value != TokenValue::Mult && t.value != TokenValue::Div,
    ensures
        expr_tail(s, acc, i) matches Ok(p) ==> {
            &&& lex(s, p.next) matches Ok(t)
            &&& (t.value is Integer || t.value is Eof)
            &&& expr_tail(s, p.value, p.next) == expr_tail(s, acc, i)
        },
    decreases s.len() - i,
{
    lemma_lex_advances(s, i);
    if let Ok(op) = lex(s, i) {
        if op.value == TokenValue::Plus || op.value == TokenValue::Minus {
            lemma_term_advances(s, op.next);
            law_term_stops_in_front_of_lookahead(s, op.next);
            if let Ok(rhs) = term_model(s, op.next) {
                if let Ok(v) = combine(op.value, acc, rhs.value, rhs.next) {
                    lemma_expr_tail_stops(s, v, rhs.next);
                }
            }
        }
    }
}

/// Every character of `s` is a space.
pub open spec fn all_spaces(s: Seq<char>) -> bool {
    spaces_between(s, 0, s.len() as int)
}

/// Every character of `s` is a digit, and there is at least one.
pub open spec fn is_literal(s: Seq<char>) -> bool {
    s.len() > 0 && digits_between(s, 0, s.len() as int)
}

/// Two integers with one operator between them evaluate to what the operator
/// makes of the two, wherever spaces stand around them.
///
/// The text is `lead a gap1 op gap2 b trail`, where `a` and `b` are runs of
/// digits, `op` is one of `+ - * /`, and the other four parts hold spaces
/// only (any of them may be empty). Its value is the sum, the difference, the
/// product or the quotient rounded toward zero of the values of `a` and `b`,
/// and the cursor ends behind `b`. The failures are stated too: a literal
/// above `i64::MAX` fails behind that literal, `a` first; division by zero
/// and a result outside `i64` fail behind `b`.
pub proof fn law_binary_operation(
    lead: Seq<char>,
    a: Seq<char>,
    gap1: Seq<char>,
    op: char,
    gap2: Seq<char>,
    b: Seq<char>,
    trail: Seq<char>,
)
    requires
        all_spaces(lead),
        all_spaces(gap1),
        all_spaces(gap2),
        all_spaces(trail),
        is_literal(a),
        is_literal(b),
        operator_of(op) is Some,
    ensures
        ({
            let s = lead + a + gap1 + seq![op] + gap2 + b + trail;
            let end_a = (lead.len() + a.len()) as int;
            let end_b = s.len() - trail.len();
            if decimal_value(a) > i64::MAX {
                &&& expr_model(s, 0) matches Err(f)
                &&& f.kind == ErrorKind::IntegerOverflow
                &&& f.at == end_a
            } else if decimal_value(b) > i64::MAX {
                &&& expr_model(s, 0) matches Err(f)
                &&& f.kind == ErrorKind::IntegerOverflow
                &&& f.at == end_b
            } else {
                match combine(
                    operator_of(op)->Some_0,
                    decimal_value(a) as int,
                    decimal_value(b) as int,
                    end_b,
                ) {
                    Ok(v) => expr_model(s, 0) matches Ok(p) && p.value == v && p.next == end_b,
                    Err(e) => expr_model(s, 0) matches Err(f) && f == e,
                }
            }
        }),
{
    let s = lead + a + gap1 + seq![op] + gap2 + b + trail;
    let a_start = lead.len() as int;
    let a_end = a_start + a.len();
    let op_at = a_end + gap1.len();
    let b_start = op_at + 1 + gap2.len();
    let b_end = b_start + b.len();
    let operator = operator_of(op)->Some_0;
    let va = decimal_value(a) as int;
    let vb = decimal_value(b) as int;
    assert(s.subrange(a_start, a_end) =~= a);
    assert(s.subrange(b_start, b_end) =~= b);

    // The three tokens, and the end of the input behind them.
    law_lex_integer(s, 0, a_start, a_end);
    law_lex_operator(s, a_end, op_at);
    law_lex_integer(s, op_at + 1, b_start, b_end);
    law_lex_end_of_input(s, b_end);

    // The level of `op` goes on once and then meets the end of the input.
    if va <= i64::MAX && vb <= i64::MAX {
        if let Ok(v) = combine(operator, va, vb, b_end) {
            if operator == TokenValue::Mult || operator == TokenValue::Div {
                assert(term_tail(s, v, b_end) matches Ok(p) && p.value == v && p.next == b_end);
            } else {
                assert(expr_tail(s, v, b_end) matches Ok(p) && p.value == v && p.next == b_end);
            }
        }
    }
}

} // verus!
