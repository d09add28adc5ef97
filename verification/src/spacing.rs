//! Spaces between tokens do not matter: a space put anywhere but between
//! two digits of one number changes neither the value of an expression nor
//! the kind of its failure.

use vstd::prelude::*;
use crate::error::Failure;
use crate::lexer::{
    digits_end, is_digit, lemma_digits_end, lemma_digits_run, lemma_lex_advances,
    lemma_spaces_end, lemma_spaces_run, lex, spaces_end, Lexed,
};
use crate::parser::{
    combine, complete_model, expr_model, expr_tail, factor_model, lemma_expr_advances,
    lemma_factor_advances, lemma_term_advances, term_model, term_tail, Parsed,
};
use crate::token::TokenValue;

verus! {

/// The offset `p` of `s` does not lie between two digits.
pub open spec fn between_tokens(s: Seq<char>, p: int) -> bool {
    &&& 0 <= p <= s.len()
    &&& !(0 < p < s.len() && is_digit(s[p - 1]) && is_digit(s[p]))
}

/// Where the offset `k` of a text is found after a character was put in at
/// offset `p`: offsets up to `p` stay, those behind it move by one.
pub open spec fn moved(p: int, k: int) -> int {
    if k <= p {
        k
    } else {
        k + 1
    }
}

/// Two tokens are the same but for where they stand: the values are equal,
/// and the second one ends where the end of the first one has moved to. The
/// end of the input ends at the end of either text. Two failures are of
/// the same kind.
pub open spec fn same_token(
    before: Result<Lexed, Failure>,
    after: Result<Lexed, Failure>,
    p: int,
    len: int,
) -> bool {
    match (before, after) {
        (Ok(t), Ok(u)) => {
            &&& u.value == t.value
            &&& if t.value == TokenValue::Eof {
                t.next == len && u.next == len + 1
            } else {
                u.next == moved(p, t.next)
            }
        },
        (Err(f), Err(g)) => g.kind == f.kind,
        _ => false,
    }
}

/// Two outcomes of the parser are the same but for where they end: the
/// values are equal, and the second one ends where the end of the first one
/// has moved to. Two failures are of the same kind.
pub open spec fn same_outcome(
    before: Result<Parsed, Failure>,
    after: Result<Parsed, Failure>,
    p: int,
) -> bool {
    match (before, after) {
        (Ok(x), Ok(y)) => y.value == x.value && y.next == moved(p, x.next),
        (Err(f), Err(g)) => g.kind == f.kind,
        _ => false,
    }
}

/// The next token is the same with a space more at `p`.
pub proof fn lemma_lex_with_space(s: Seq<char>, p: int, i: int)
    requires
        between_tokens(s, p),
        0 <= i <= s.len(),
    ensures
        same_token(lex(s, i), lex(s.insert(p, ' '), moved(p, i)), p, s.len() as int),
{
    let t = s.insert(p, ' ');
    // The run of spaces in front of the token takes the new space in where
    // it reaches `p`.
    lemma_spaces_end(s, i);
    let j = spaces_end(s, i);
    let j2 = if j < p { j } else { j + 1 };
    lemma_spaces_run(t, moved(p, i), j2);
    if j < s.len() && is_digit(s[j]) {
        // A run of digits that starts in front of `p` ends at `p` at the
        // latest, since `p` does not lie between two digits.
        lemma_digits_end(s, j);
        let k = digits_end(s, j);
        let k2 = if j < p { k } else { k + 1 };
        lemma_digits_run(t, j2, k2);
        assert(t.subrange(j2, k2) =~= s.subrange(j, k));
    }
}

/// A factor is the same with a space more at `p`.
pub proof fn lemma_factor_with_space(s: Seq<char>, p: int, i: int)
    requires
        between_tokens(s, p),
        0 <= i <= s.len(),
    ensures
        same_outcome(factor_model(s, i), factor_model(s.insert(p, ' '), moved(p, i)), p),
{
    lemma_lex_with_space(s, p, i);
}

/// The rest of a term is the same with a space more at `p`.
pub proof fn lemma_term_tail_with_space(s: Seq<char>, p: int, acc: int, i: int)
    requires
        between_tokens(s, p),
        0 <= i <= s.len(),
    ensures
        same_outcome(term_tail(s, acc, i), term_tail(s.insert(p, ' '), acc, moved(p, i)), p),
    decreases s.len() - i,
{
    lemma_lex_with_space(s, p, i);
    lemma_lex_advances(s, i);
    if let Ok(op) = lex(s, i) {
        if op.value == TokenValue::Mult || op.value == TokenValue::Div {
            lemma_factor_with_space(s, p, op.next);
            lemma_factor_advances(s, op.next);
            if let Ok(rhs) = factor_model(s, op.next) {
                if let Ok(v) = combine(op.value, acc, rhs.value, rhs.next) {
                    lemma_term_tail_with_space(s, p, v, rhs.next);
                }
            }
        }
    }
}

/// A term is the same with a space more at `p`.
pub proof fn lemma_term_with_space(s: Seq<char>, p: int, i: int)
    requires
        between_tokens(s, p),
        0 <= i <= s.len(),
    ensures
        same_outcome(term_model(s, i), term_model(s.insert(p, ' '), moved(p, i)), p),
{
    lemma_factor_with_space(s, p, i);
    lemma_factor_advances(s, i);
    if let Ok(first) = factor_model(s, i) {
        lemma_term_tail_with_space(s, p, first.value, first.next);
    }
}

/// The rest of an expression is the same with a space more at `p`.
pub proof fn lemma_expr_tail_with_space(s: Seq<char>, p: int, acc: int, i: int)
    requires
        between_tokens(s, p),
        0 <= i <= s.len(),
    ensures
        same_outcome(expr_tail(s, acc, i), expr_tail(s.insert(p, ' '), acc, moved(p, i)), p),
    decreases s.len() - i,
{
    lemma_lex_with_space(s, p, i);
    lemma_lex_advances(s, i);
    if let Ok(op) = lex(s, i) {
        if op.value == TokenValue::Plus || op.value == TokenValue::Minus {
            lemma_term_with_space(s, p, op.next);
            lemma_term_advances(s, op.next);
            if let Ok(rhs) = term_model(s, op.next) {
                if let Ok(v) = combine(op.value, acc, rhs.value, rhs.next) {
                    lemma_expr_tail_with_space(s, p, v, rhs.next);
                }
            }
        }
    }
}

/// Spaces between tokens do not matter to an expression.
///
/// Let `p` be an offset of `s` that does not lie between two digits. The
/// expression read from offset `i` of `s`, and the one read from the same
/// place of the text with one space more at `p`, have the same value, and
/// the second one ends where the end of the first one has moved to; or both
/// fail, with the same kind of failure.
pub proof fn law_space_between_tokens(s: Seq<char>, p: int, i: int)
    requires
        between_tokens(s, p),
        0 <= i <= s.len(),
    ensures
        same_outcome(expr_model(s, i), expr_model(s.insert(p, ' '), moved(p, i)), p),
{
    lemma_term_with_space(s, p, i);
    lemma_term_advances(s, i);
    if let Ok(first) = term_model(s, i) {
        lemma_expr_tail_with_space(s, p, first.value, first.next);
    }
}

/// Spaces between tokens do not matter to a text that must be one
/// expression: with one space more at an offset that does not lie between
/// two digits, it has the same value, or fails with the same kind of
/// failure.
pub proof fn law_space_in_complete_text(s: Seq<char>, p: int)
    requires
        between_tokens(s, p),
    ensures
        match (complete_model(s), complete_model(s.insert(p, ' '))) {
            (Ok(v), Ok(w)) => w == v,
            (Err(f), Err(g)) => g.kind == f.kind,
            _ => false,
        },
{
    law_space_between_tokens(s, p, 0);
    lemma_expr_advances(s, 0);
    if let Ok(e) = expr_model(s, 0) {
        lemma_lex_with_space(s, p, e.next);
    }
}

} // verus!
