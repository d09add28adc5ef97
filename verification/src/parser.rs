//! The parser, which evaluates while it reads.
//!
//! ```text
//! expression = term { ("+" | "-") term } ;
//! term       = factor { ("*" | "/") factor } ;
//! factor     = integer ;
//! ```
//!
//! Each level reads its left operand and then goes on for as long as the next
//! token is one of its operators. The token that ends a level is not
//! consumed: the cursor is put back in front of it. All values are `i64`;
//! an operation whose result has no place in `i64` is a failure.

use vstd::prelude::*;
use crate::error::{ArithmeticFault, ErrorKind, EvalError, Failure};
use crate::lexer::{get_next_token, lemma_lex_advances, lex};
use crate::source::Source;
use crate::token::{validate_token_type, TokenType, TokenValue};

verus! {

/// The model of a value that was parsed: the value and the offset behind
/// its last token.
pub struct Parsed {
    pub value: int,
    pub next: int,
}

/// The range of `i64`.
pub open spec fn fits_i64(v: int) -> bool {
    i64::MIN <= v <= i64::MAX
}

/// The quotient of `a` by `b`, rounded toward zero.
pub open spec fn truncated_quotient(a: int, b: int) -> int
    recommends
        b != 0,
{
    if a >= 0 && b > 0 {
        a / b
    } else if a >= 0 {
        -(a / (-b))
    } else if b > 0 {
        -((-a) / b)
    } else {
        (-a) / (-b)
    }
}

/// What the operator `op` makes of `a` and `b`.
pub open spec fn apply(op: TokenValue, a: int, b: int) -> int {
    match op {
        TokenValue::Plus => a + b,
        TokenValue::Minus => a - b,
        TokenValue::Mult => a * b,
        TokenValue::Div => truncated_quotient(a, b),
        _ => a,
    }
}

/// The outcome of applying `op` to `a` and `b`, the cursor standing at `at`:
/// division by zero and a result outside `i64` are failures at `at`.
pub open spec fn combine(op: TokenValue, a: int, b: int, at: int) -> Result<int, Failure> {
    if op == TokenValue::Div && b == 0 {
        Err(Failure { kind: ErrorKind::Arithmetic(ArithmeticFault::DivisionByZero), at })
    } else if !fits_i64(apply(op, a, b)) {
        Err(Failure { kind: ErrorKind::Arithmetic(ArithmeticFault::Overflow), at })
    } else {
        Ok(apply(op, a, b))
    }
}

/// A factor read from offset `i`: the next token must be an integer. Any other
/// token is a grammar failure behind that token.
pub open spec fn factor_model(s: Seq<char>, i: int) -> Result<Parsed, Failure> {
    match lex(s, i) {
        Ok(t) => match t.value {
            TokenValue::Integer(v) => Ok(Parsed { value: v as int, next: t.next }),
            _ => Err(Failure { kind: ErrorKind::Grammar(t.value), at: t.next }),
        },
        Err(f) => Err(f),
    }
}

/// The rest of a term whose factors so far have the value `acc`, read from
/// offset `i`. While the next token is `*` or `/`, the factor behind it is
/// combined with `acc`, from left to right. Any other token ends the term
/// at `i`, in front of that token.
pub open spec fn term_tail(s: Seq<char>, acc: int, i: int) -> Result<Parsed, Failure>
    decreases s.len() - i,
    when 0 <= i
    via term_tail_decreases
{
    match lex(s, i) {
        Ok(op) => if op.value == TokenValue::Mult || op.value == TokenValue::Div {
            match factor_model(s, op.next) {
                Ok(rhs) => match combine(op.value, acc, rhs.value, rhs.next) {
                    Ok(v) => term_tail(s, v, rhs.next),
                    Err(f) => Err(f),
                },
                Err(f) => Err(f),
            }
        } else {
            Ok(Parsed { value: acc, next: i })
        },
        Err(f) => Err(f),
    }
}

#[via_fn]
proof fn term_tail_decreases(s: Seq<char>, acc: int, i: int) {
    lemma_lex_advances(s, i);
    if let Ok(op) = lex(s, i) {
        lemma_factor_advances(s, op.next);
    }
}

/// A term read from offset `i`: a factor and the rest of the term.
pub open spec fn term_model(s: Seq<char>, i: int) -> Result<Parsed, Failure> {
    match factor_model(s, i) {
        Ok(first) => term_tail(s, first.value, first.next),
        Err(f) => Err(f),
    }
}

/// The rest of an expression whose terms so far have the value `acc`, read
/// from offset `i`. While the next token is `+` or `-`, the term behind it is
/// combined with `acc`, from left to right. Any other token ends the
/// expression at `i`, in front of that token.
pub open spec fn expr_tail(s: Seq<char>, acc: int, i: int) -> Result<Parsed, Failure>
    decreases s.len() - i,
    when 0 <= i
    via expr_tail_decreases
{
    match lex(s, i) {
        Ok(op) => if op.value == TokenValue::Plus || op.value == TokenValue::Minus {
            match term_model(s, op.next) {
                Ok(rhs) => match combine(op.value, acc, rhs.value, rhs.next) {
                    Ok(v) => expr_tail(s, v, rhs.next),
                    Err(f) => Err(f),
                },
                Err(f) => Err(f),
            }
        } else {
            Ok(Parsed { value: acc, next: i })
        },
        Err(f) => Err(f),
    }
}

#[via_fn]
proof fn expr_tail_decreases(s: Seq<char>, acc: int, i: int) {
    lemma_lex_advances(s, i);
    if let Ok(op) = lex(s, i) {
        lemma_term_advances(s, op.next);
    }
}

/// An expression read from offset `i`: a term and the rest of the expression.
pub open spec fn expr_model(s: Seq<char>, i: int) -> Result<Parsed, Failure> {
    match term_model(s, i) {
        Ok(first) => expr_tail(s, first.value, first.next),
        Err(f) => Err(f),
    }
}

/// A factor is not negative and ends behind its start, inside the text.
pub proof fn lemma_factor_advances(s: Seq<char>, i: int)
    requires
        0 <= i,
    ensures
        match factor_model(s, i) {
            Ok(p) => i < p.next <= s.len() && 0 <= p.value <= i64::MAX,
            Err(f) => i <= f.at && (i <= s.len() ==> f.at <= s.len()),
        },
{
    lemma_lex_advances(s, i);
}

/// The rest of a term that starts from a value that is not negative ends at
/// or behind its start, with a value in `i64` that is not negative.
pub proof fn lemma_term_tail_advances(s: Seq<char>, acc: int, i: int)
    requires
        0 <= i,
        0 <= acc <= i64::MAX,
    ensures
        match term_tail(s, acc, i) {
            Ok(p) => i <= p.next && (i <= s.len() ==> p.next <= s.len()) && 0 <= p.value
                <= i64::MAX,
            Err(f) => i <= f.at && (i <= s.len() ==> f.at <= s.len()),
        },
    decreases s.len() - i,
{
    lemma_lex_advances(s, i);
    if let Ok(op) = lex(s, i) {
        if op.value == TokenValue::Mult || op.value == TokenValue::Div {
            lemma_factor_advances(s, op.next);
            if let Ok(rhs) = factor_model(s, op.next) {
                if let Ok(v) = combine(op.value, acc, rhs.value, rhs.next) {
                    lemma_apply_keeps_sign(op.value, acc, rhs.value);
                    lemma_term_tail_advances(s, v, rhs.next);
                }
            }
        }
    }
}

/// Products and quotients of values that are not negative are not negative.
pub proof fn lemma_apply_keeps_sign(op: TokenValue, a: int, b: int)
    requires
        0 <= a,
        0 <= b,
        op == TokenValue::Mult || (op == TokenValue::Div && b != 0),
    ensures
        0 <= apply(op, a, b),
        op == TokenValue::Div ==> apply(op, a, b) == a / b && apply(op, a, b) <= a,
{
    if op == TokenValue::Mult {
        assert(0 <= a * b) by (nonlinear_arith)
            requires
                0 <= a,
                0 <= b,
        ;
    } else {
        assert(0 <= a / b <= a) by (nonlinear_arith)
            requires
                0 <= a,
                0 < b,
        ;
    }
}

/// A term ends behind its start, inside the text, with a value in `i64` that
/// is not negative.
pub proof fn lemma_term_advances(s: Seq<char>, i: int)
    requires
        0 <= i,
    ensures
        match term_model(s, i) {
            Ok(p) => i < p.next <= s.len() && 0 <= p.value <= i64::MAX,
            Err(f) => i <= f.at && (i <= s.len() ==> f.at <= s.len()),
        },
{
    lemma_factor_advances(s, i);
    if let Ok(first) = factor_model(s, i) {
        lemma_term_tail_advances(s, first.value, first.next);
    }
}

/// The rest of an expression ends at or behind its start, with a value in
/// `i64`.
pub proof fn lemma_expr_tail_advances(s: Seq<char>, acc: int, i: int)
    requires
        0 <= i,
        fits_i64(acc),
    ensures
        match expr_tail(s, acc, i) {
            Ok(p) => i <= p.next && (i <= s.len() ==> p.next <= s.len()) && fits_i64(p.value),
            Err(f) => i <= f.at && (i <= s.len() ==> f.at <= s.len()),
        },
    decreases s.len() - i,
{
    lemma_lex_advances(s, i);
    if let Ok(op) = lex(s, i) {
        if op.value == TokenValue::Plus || op.value == TokenValue::Minus {
            lemma_term_advances(s, op.next);
            if let Ok(rhs) = term_model(s, op.next) {
                if let Ok(v) = combine(op.value, acc, rhs.value, rhs.next) {
                    lemma_expr_tail_advances(s, v, rhs.next);
                }
            }
        }
    }
}

/// An expression ends behind its start, inside the text, with a value in
/// `i64`.
pub proof fn lemma_expr_advances(s: Seq<char>, i: int)
    requires
        0 <= i,
    ensures
        match expr_model(s, i) {
            Ok(p) => i < p.next <= s.len() && fits_i64(p.value),
            Err(f) => i <= f.at && (i <= s.len() ==> f.at <= s.len()),
        },
{
    lemma_term_advances(s, i);
    if let Ok(first) = term_model(s, i) {
        lemma_expr_tail_advances(s, first.value, first.next);
    }
}

/// Reads a factor: one integer token, whose value is the result.
///
/// Any other token is a `Grammar` failure that names what was found. The
/// cursor ends behind the token that was read.
pub fn factor(source: &mut Source) -> (result: Result<i64, EvalError>)
    ensures
        final(source).text == old(source).text,
        old(source).index <= final(source).index,
        match result {
            Ok(v) => {
                &&& factor_model(old(source).text@, old(source).index as int) matches Ok(p)
                &&& p.value == v
                &&& p.next == final(source).index
            },
            Err(e) => {
                &&& factor_model(old(source).text@, old(source).index as int) matches Err(f)
                &&& f == e@
                &&& final(source).index == e.offset
            },
        },
{
    let left_token = match get_next_token(source) {
        Ok(token) => token,
        Err(e) => { return Err(e); },
    };
    if validate_token_type(&left_token, TokenType::INTEGER) {
        match left_token.value {
            TokenValue::Integer(x) => Ok(x),
            _ => vstd::pervasive::unreached(),
        }
    } else {
        Err(EvalError { kind: ErrorKind::Grammar(left_token.value), offset: source.index })
    }
}

/// Reads a term: factors joined by `*` and `/`, taken from left to right.
///
/// Division rounds toward zero. The cursor ends in front of the first token
/// that is neither `*` nor `/`. Failures are those of the factors, division
/// by zero, and a product above `i64::MAX`; they leave the cursor at the
/// offset they report.
pub fn term(source: &mut Source) -> (result: Result<i64, EvalError>)
    ensures
        final(source).text == old(source).text,
        old(source).index <= final(source).index,
        match result {
            Ok(v) => {
                &&& term_model(old(source).text@, old(source).index as int) matches Ok(p)
                &&& p.value == v
                &&& p.next == final(source).index
            },
            Err(e) => {
                &&& term_model(old(source).text@, old(source).index as int) matches Err(f)
                &&& f == e@
                &&& final(source).index == e.offset
            },
        },
{
    let ghost s = source.text@;
    let ghost start = source.index as int;
    let mut result: i64 = match factor(source) {
        Ok(v) => v,
        Err(e) => { return Err(e); },
    };
    loop
        invariant_except_break
            term_model(s, start) == term_tail(s, result as int, source.index as int),
        invariant
            source.text == old(source).text,
            s == source.text@,
            start == old(source).index,
            start <= source.index,
            0 <= result,
        ensures
            term_model(s, start) matches Ok(p) && p.value == result && p.next == source.index,
        decreases s.len() - source.index,
    {
        let index: usize = source.index;
        let token = match get_next_token(source) {
            Ok(token) => token,
            Err(e) => { return Err(e); },
        };
        match token.value {
            TokenValue::Mult => {
                proof {
                    lemma_factor_advances(s, source.index as int);
                }
                let rhs: i64 = match factor(source) {
                    Ok(v) => v,
                    Err(e) => { return Err(e); },
                };
                proof {
                    lemma_apply_keeps_sign(TokenValue::Mult, result as int, rhs as int);
                }
                match result.checked_mul(rhs) {
                    Some(v) => { result = v; },
                    None => {
                        return Err(
                            EvalError {
                                kind: ErrorKind::Arithmetic(ArithmeticFault::Overflow),
                                offset: source.index,
                            },
                        );
                    },
                }
            },
            TokenValue::Div => {
                proof {
                    lemma_factor_advances(s, source.index as int);
                }
                let rhs: i64 = match factor(source) {
                    Ok(v) => v,
                    Err(e) => { return Err(e); },
                };
                if rhs == 0 {
                    return Err(
                        EvalError {
                            kind: ErrorKind::Arithmetic(ArithmeticFault::DivisionByZero),
                            offset: source.index,
                        },
                    );
                }
                proof {
                    lemma_apply_keeps_sign(TokenValue::Div, result as int, rhs as int);
                }
                result = result / rhs;
            },
            _ => {
                source.index = index;
                break ;
            },
        }
    }
    Ok(result)
}

/// Reads an expression: terms joined by `+` and `-`, taken from left to
/// right.
///
/// The cursor ends in front of the first token that is neither `+` nor `-`
/// (nor, inside a term, `*` or `/`); that token is not examined further.
/// Failures are those of the terms, and a sum or difference outside `i64`;
/// they leave the cursor at the offset they report.
pub fn expr(source: &mut Source) -> (result: Result<i64, EvalError>)
    ensures
        final(source).text == old(source).text,
        old(source).index <= final(source).index,
        match result {
            Ok(v) => {
                &&& expr_model(old(source).text@, old(source).index as int) matches Ok(p)
                &&& p.value == v
                &&& p.next == final(source).index
            },
            Err(e) => {
                &&& expr_model(old(source).text@, old(source).index as int) matches Err(f)
                &&& f == e@
                &&& final(source).index == e.offset
            },
        },
{
    let ghost s = source.text@;
    let ghost start = source.index as int;
    let mut result: i64 = match term(source) {
        Ok(v) => v,
        Err(e) => { return Err(e); },
    };
    loop
        invariant_except_break
            expr_model(s, start) == expr_tail(s, result as int, source.index as int),
        invariant
            source.text == old(source).text,
            s == source.text@,
            start == old(source).index,
            start <= source.index,
        ensures
            expr_model(s, start) matches Ok(p) && p.value == result && p.next == source.index,
        decreases s.len() - source.index,
    {
        let index: usize = source.index;
        let token = match get_next_token(source) {
            Ok(token) => token,
            Err(e) => { return Err(e); },
        };
        match token.value {
            TokenValue::Plus => {
                proof {
                    lemma_term_advances(s, source.index as int);
                }
                let rhs: i64 = match term(source) {
                    Ok(v) => v,
                    Err(e) => { return Err(e); },
                };
                match result.checked_add(rhs) {
                    Some(v) => { result = v; },
                    None => {
                        return Err(
                            EvalError {
                                kind: ErrorKind::Arithmetic(ArithmeticFault::Overflow),
                                offset: source.index,
                            },
                        );
                    },
                }
            },
            TokenValue::Minus => {
                proof {
                    lemma_term_advances(s, source.index as int);
                }
                let rhs: i64 = match term(source) {
                    Ok(v) => v,
                    Err(e) => { return Err(e); },
                };
                match result.checked_sub(rhs) {
                    Some(v) => { result = v; },
                    None => {
                        return Err(
                            EvalError {
                                kind: ErrorKind::Arithmetic(ArithmeticFault::Overflow),
                                offset: source.index,
                            },
                        );
                    },
                }
            },
            _ => {
                source.index = index;
                break ;
            },
        }
    }
    Ok(result)
}

/// The value of a text that is one expression from its first character to
/// its last: the expression at the start of `s` must be followed by the end
/// of the input. A token behind the expression is a grammar failure behind
/// that token.
pub open spec fn complete_model(s: Seq<char>) -> Result<int, Failure> {
    match expr_model(s, 0) {
        Ok(p) => match lex(s, p.next) {
            Ok(t) => if t.value == TokenValue::Eof {
                Ok(p.value)
            } else {
                Err(Failure { kind: ErrorKind::Grammar(t.value), at: t.next })
            },
            Err(f) => Err(f),
        },
        Err(f) => Err(f),
    }
}

/// Evaluates the expression at the start of `text`.
///
/// The result is that of [`expr`] on a fresh cursor. What follows the
/// expression is looked at for one token only, to see that the expression
/// has ended, and is otherwise ignored: `1+2 3` has the value 3. Use
/// [`evaluate_complete`] to have such input rejected.
pub fn evaluate(text: &str) -> (result: Result<i64, EvalError>)
    ensures
        match result {
            Ok(v) => expr_model(text@, 0) matches Ok(p) && p.value == v,
            Err(e) => expr_model(text@, 0) matches Err(f) && f == e@,
        },
{
    let mut source = Source::new(text.to_owned());
    expr(&mut source)
}

/// Evaluates `text`, which must be one expression and nothing else.
///
/// This is stricter than [`evaluate`]: a token behind the expression is a
/// `Grammar` failure that names the token, so `1+2 3` fails. Spaces may
/// stand anywhere around the tokens.
pub fn evaluate_complete(text: &str) -> (result: Result<i64, EvalError>)
    ensures
        match result {
            Ok(v) => complete_model(text@) matches Ok(w) && w == v,
            Err(e) => complete_model(text@) matches Err(f) && f == e@,
        },
{
    let mut source = Source::new(text.to_owned());
    let value: i64 = match expr(&mut source) {
        Ok(v) => v,
        Err(e) => { return Err(e); },
    };
    let token = match get_next_token(&mut source) {
        Ok(token) => token,
        Err(e) => { return Err(e); },
    };
    if validate_token_type(&token, TokenType::EOF) {
        Ok(value)
    } else {
        Err(EvalError { kind: ErrorKind::Grammar(token.value), offset: source.index })
    }
}

} // verus!
