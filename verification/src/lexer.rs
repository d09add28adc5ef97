//! The lexer: from the characters at the cursor to the next token.
//!
//! The model is a function of the text and an offset alone, so reading twice
//! from the same offset gives the same token and the same new offset.

use vstd::prelude::*;
use vstd::string::StrSliceExecFns;
use crate::error::{ErrorKind, EvalError, Failure};
use crate::source::Source;
use crate::token::{Token, TokenType, TokenValue};

verus! {

/// A decimal digit.
pub open spec fn is_digit(c: char) -> bool {
    '0' <= c <= '9'
}

/// The number that a decimal digit stands for.
pub open spec fn digit_value(c: char) -> nat {
    if is_digit(c) {
        (c as int - '0' as int) as nat
    } else {
        0
    }
}

/// The number that a sequence of decimal digits denotes, the first digit
/// being the most significant one. The empty sequence denotes zero.
pub open spec fn decimal_value(digits: Seq<char>) -> nat
    decreases digits.len(),
{
    if digits.len() == 0 {
        0
    } else {
        10 * decimal_value(digits.drop_last()) + digit_value(digits.last())
    }
}

/// The offset at which the run of spaces that starts at `i` ends: the first
/// offset from `i` on that holds no space. It is `i` itself where `i` holds
/// no space or lies outside the text.
pub open spec fn spaces_end(s: Seq<char>, i: int) -> int
    decreases s.len() - i,
{
    if 0 <= i < s.len() && s[i] == ' ' {
        spaces_end(s, i + 1)
    } else {
        i
    }
}

/// The offset at which the run of digits that starts at `i` ends: the first
/// offset from `i` on that holds no digit. It is `i` itself where `i` holds
/// no digit or lies outside the text.
pub open spec fn digits_end(s: Seq<char>, i: int) -> int
    decreases s.len() - i,
{
    if 0 <= i < s.len() && is_digit(s[i]) {
        digits_end(s, i + 1)
    } else {
        i
    }
}

/// The operator that a character stands for, if it stands for one.
pub open spec fn operator_of(c: char) -> Option<TokenValue> {
    if c == '+' {
        Some(TokenValue::Plus)
    } else if c == '-' {
        Some(TokenValue::Minus)
    } else if c == '*' {
        Some(TokenValue::Mult)
    } else if c == '/' {
        Some(TokenValue::Div)
    } else {
        None
    }
}

/// The model of a token that was read: its value and the offset behind it.
pub struct Lexed {
    pub value: TokenValue,
    pub next: int,
}

/// The token that starts at offset `i` of `s`, spaces before it skipped.
///
/// * Where nothing but spaces is left, the token is `Eof` and the offset
///   behind it is the end of the text (or `i`, where `i` lies behind the end).
/// * A digit starts an integer: the longest run of digits is taken, and its
///   value must not exceed `i64::MAX`.
/// * `+ - * /` are tokens of one character.
/// * Any other character is a lexical failure at the offset of the character.
pub open spec fn lex(s: Seq<char>, i: int) -> Result<Lexed, Failure> {
    let j = spaces_end(s, i);
    if j >= s.len() {
        Ok(Lexed { value: TokenValue::Eof, next: j })
    } else if is_digit(s[j]) {
        let k = digits_end(s, j);
        let v = decimal_value(s.subrange(j, k));
        if v <= i64::MAX {
            Ok(Lexed { value: TokenValue::Integer(v as i64), next: k })
        } else {
            Err(Failure { kind: ErrorKind::IntegerOverflow, at: k })
        }
    } else {
        match operator_of(s[j]) {
            Some(op) => Ok(Lexed { value: op, next: j + 1 }),
            None => Err(Failure { kind: ErrorKind::Lexical(s[j]), at: j }),
        }
    }
}

/// The run of spaces from `i` ends between `i` and the end of the text, holds
/// spaces only, and is followed by no space.
pub proof fn lemma_spaces_end(s: Seq<char>, i: int)
    requires
        0 <= i,
    ensures
        i <= spaces_end(s, i),
        i <= s.len() ==> spaces_end(s, i) <= s.len(),
        i >= s.len() ==> spaces_end(s, i) == i,
        forall|k: int| i <= k < spaces_end(s, i) ==> s[k] == ' ',
        spaces_end(s, i) < s.len() ==> s[spaces_end(s, i)] != ' ',
    decreases s.len() - i,
{
    if i < s.len() && s[i] == ' ' {
        lemma_spaces_end(s, i + 1);
    }
}

/// The run of digits from `i` ends between `i` and the end of the text, holds
/// digits only, and is followed by no digit.
pub proof fn lemma_digits_end(s: Seq<char>, i: int)
    requires
        0 <= i,
    ensures
        i <= digits_end(s, i),
        i <= s.len() ==> digits_end(s, i) <= s.len(),
        i >= s.len() ==> digits_end(s, i) == i,
        forall|k: int| i <= k < digits_end(s, i) ==> is_digit(s[k]),
        digits_end(s, i) < s.len() ==> !is_digit(s[digits_end(s, i)]),
    decreases s.len() - i,
{
    if i < s.len() && is_digit(s[i]) {
        lemma_digits_end(s, i + 1);
    }
}

/// Every offset of `s` from `i` up to `j` holds a space.
pub open spec fn spaces_between(s: Seq<char>, i: int, j: int) -> bool {
    forall|k: int| i <= k < j ==> s[k] == ' '
}

/// Every offset of `s` from `i` up to `j` holds a digit.
pub open spec fn digits_between(s: Seq<char>, i: int, j: int) -> bool {
    forall|k: int| i <= k < j ==> is_digit(s[k])
}

/// A run of spaces from `i` that stops at `j`, where the text ends or holds
/// something else, is the run that `spaces_end` finds.
pub proof fn lemma_spaces_run(s: Seq<char>, i: int, j: int)
    requires
        0 <= i <= j <= s.len(),
        spaces_between(s, i, j),
        j == s.len() || s[j] != ' ',
    ensures
        spaces_end(s, i) == j,
    decreases j - i,
{
    if i < j {
        lemma_spaces_run(s, i + 1, j);
    }
}

/// A run of digits from `i` that stops at `j`, where the text ends or holds
/// something else, is the run that `digits_end` finds.
pub proof fn lemma_digits_run(s: Seq<char>, i: int, j: int)
    requires
        0 <= i <= j <= s.len(),
        digits_between(s, i, j),
        j == s.len() || !is_digit(s[j]),
    ensures
        digits_end(s, i) == j,
    decreases j - i,
{
    if i < j {
        lemma_digits_run(s, i + 1, j);
    }
}

/// Reading a token never moves the cursor backwards, and never beyond the end
/// of the text unless it was there before. An operator takes at least one
/// character; an integer is not negative.
pub proof fn lemma_lex_advances(s: Seq<char>, i: int)
    requires
        0 <= i,
    ensures
        match lex(s, i) {
            Ok(t) => {
                &&& i <= t.next
                &&& i <= s.len() ==> t.next <= s.len()
                &&& t.value != TokenValue::Eof ==> i < t.next <= s.len()
                &&& t.value matches TokenValue::Integer(v) ==> v >= 0
            },
            Err(f) => {
                &&& i <= f.at
                &&& f.at <= s.len()
            },
        },
{
    lemma_spaces_end(s, i);
    let j = spaces_end(s, i);
    if j < s.len() && is_digit(s[j]) {
        lemma_digits_end(s, j);
    }
}

/// Tells whether `c` is a decimal digit.
fn is_digit_char(c: char) -> (b: bool)
    ensures
        b == is_digit(c),
{
    c >= '0' && c <= '9'
}

/// The number that the decimal digit `c` stands for.
fn digit_of(c: char) -> (d: i64)
    requires
        is_digit(c),
    ensures
        d == digit_value(c),
        0 <= d <= 9,
{
    c as i64 - '0' as i64
}

/// Appends one decimal digit to a value read so far. `None` stands for a
/// value above `i64::MAX`, and stays so whatever is appended.
fn append_digit(value: Option<i64>, d: i64) -> (r: Option<i64>)
    requires
        0 <= d <= 9,
        value matches Some(v) ==> v >= 0,
    ensures
        match r {
            Some(w) => value matches Some(v) && w == 10 * v + d,
            None => value matches Some(v) ==> 10 * v + d > i64::MAX,
        },
{
    match value {
        Some(v) => match v.checked_mul(10) {
            Some(m) => m.checked_add(d),
            None => None,
        },
        None => None,
    }
}

/// Reads the run of digits at the cursor and gives the integer it denotes.
///
/// The cursor must stand on a digit. It is moved behind the last digit of
/// the run in every case. The result is the value of the run where that
/// value is at most `i64::MAX`, and an `IntegerOverflow` failure at the new
/// cursor offset where it is not.
pub fn chars_to_integer(source: &mut Source) -> (result: Result<i64, EvalError>)
    requires
        old(source).index < old(source).text@.len(),
        is_digit(old(source).text@[old(source).index as int]),
    ensures
        final(source).text == old(source).text,
        final(source).index == digits_end(old(source).text@, old(source).index as int),
        old(source).index < final(source).index <= old(source).text@.len(),
        match result {
            Ok(v) => v == decimal_value(
                old(source).text@.subrange(old(source).index as int, final(source).index as int),
            ),
            Err(e) => {
                &&& decimal_value(
                    old(source).text@.subrange(
                        old(source).index as int,
                        final(source).index as int,
                    ),
                ) > i64::MAX
                &&& e.kind == ErrorKind::IntegerOverflow
                &&& e.offset == final(source).index
            },
        },
{
    let len: usize = source.text.as_str().unicode_len();
    let ghost s = source.text@;
    let ghost start = source.index as int;
    let mut value: Option<i64> = Some(0);
    loop
        invariant
            source.text == old(source).text,
            s == source.text@,
            len == s.len(),
            start == old(source).index,
            start <= source.index <= len,
            source.index == start ==> source.index < len && is_digit(s[start]),
            digits_end(s, start) == digits_end(s, source.index as int),
            match value {
                Some(v) => v == decimal_value(s.subrange(start, source.index as int)),
                None => decimal_value(s.subrange(start, source.index as int)) > i64::MAX,
            },
        ensures
            start < source.index,
            digits_end(s, start) == source.index,
        decreases len - source.index,
    {
        if source.index >= len {
            break ;
        }
        let current_char: char = source.text.as_str().get_char(source.index);
        if !is_digit_char(current_char) {
            break ;
        }
        proof {
            let longer = s.subrange(start, source.index as int + 1);
            assert(longer.drop_last() =~= s.subrange(start, source.index as int));
            assert(longer.last() == current_char);
        }
        value = append_digit(value, digit_of(current_char));
        source.inc_index();
    }
    match value {
        Some(v) => Ok(v),
        None => Err(EvalError { kind: ErrorKind::IntegerOverflow, offset: source.index }),
    }
}

/// Reads the next token and moves the cursor behind it.
///
/// Spaces before the token are skipped. The token and the new cursor offset
/// are those of [`lex`]; on failure the cursor stands at the offset that the
/// failure reports. The text is never changed, and the cursor never moves
/// backwards. With the cursor at or behind the end of the text, the token is
/// `Eof` and the cursor stays.
pub fn get_next_token(source: &mut Source) -> (result: Result<Token, EvalError>)
    ensures
        final(source).text == old(source).text,
        old(source).index <= final(source).index,
        match result {
            Ok(token) => {
                &&& token.wf()
                &&& lex(old(source).text@, old(source).index as int) matches Ok(t)
                &&& t.value == token.value
                &&& t.next == final(source).index
            },
            Err(e) => {
                &&& lex(old(source).text@, old(source).index as int) matches Err(f)
                &&& f == e@
                &&& final(source).index == e.offset
            },
        },
        old(source).index >= old(source).text@.len() ==> {
            &&& result matches Ok(token)
            &&& token.value == TokenValue::Eof
            &&& final(source).index == old(source).index
        },
{
    let len: usize = source.text.as_str().unicode_len();
    let ghost s = source.text@;
    let ghost start = source.index as int;
    if source.index >= len {
        return Ok(Token::new(TokenType::EOF, TokenValue::Eof));
    }
    let mut current_char: char = source.text.as_str().get_char(source.index);
    while current_char == ' '
        invariant
            source.text == old(source).text,
            s == source.text@,
            len == s.len(),
            start == old(source).index,
            start <= source.index < len,
            current_char == s[source.index as int],
            spaces_end(s, start) == spaces_end(s, source.index as int),
        decreases len - source.index,
    {
        source.inc_index();
        if source.index >= len {
            return Ok(Token::new(TokenType::EOF, TokenValue::Eof));
        }
        current_char = source.text.as_str().get_char(source.index);
    }
    if is_digit_char(current_char) {
        match chars_to_integer(source) {
            Ok(v) => Ok(Token::new(TokenType::INTEGER, TokenValue::Integer(v))),
            Err(e) => Err(e),
        }
    } else if current_char == '+' {
        source.inc_index();
        Ok(Token::new(TokenType::OPERATOR, TokenValue::Plus))
    } else if current_char == '-' {
        source.inc_index();
        Ok(Token::new(TokenType::OPERATOR, TokenValue::Minus))
    } else if current_char == '*' {
        source.inc_index();
        Ok(Token::new(TokenType::OPERATOR, TokenValue::Mult))
    } else if current_char == '/' {
        source.inc_index();
        Ok(Token::new(TokenType::OPERATOR, TokenValue::Div))
    } else {
        Err(EvalError { kind: ErrorKind::Lexical(current_char), offset: source.index })
    }
}

} // verus!
