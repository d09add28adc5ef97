//! The ways in which an evaluation fails.

use vstd::prelude::*;
use crate::token::TokenValue;

verus! {

/// What went wrong in an arithmetic operation.
#[derive(Debug, Clone, Copy, PartialEq, Eq, Structural)]
pub enum ArithmeticFault {
    /// The right operand of `/` is zero.
    DivisionByZero,
    /// The result of `+`, `-` or `*` lies outside the range of `i64`.
    Overflow,
}

/// The kind of a failure.
#[derive(Debug, Clone, Copy, PartialEq, Eq, Structural)]
pub enum ErrorKind {
    /// The input holds a character that is neither a digit, a space nor
    /// one of `+ - * /`. The character is given.
    Lexical(char),
    /// A token stands where the grammar does not allow it: an operator or
    /// the end of the input where an integer must stand, or an integer
    /// behind an expression that must be the whole input. The value of the
    /// token that was found is given.
    Grammar(TokenValue),
    /// An operation has no result in `i64`.
    Arithmetic(ArithmeticFault),
    /// A run of digits denotes a value above `i64::MAX`.
    IntegerOverflow,
}

/// A failure: its kind and the cursor offset at which the evaluation stopped.
///
/// For an illegal character the offset is that of the character itself,
/// which is not consumed. For the other kinds it is the offset just behind
/// the last token that was consumed: the digits of a literal that is too
/// large, the token that the grammar does not allow, or the right operand
/// of the operation that has no result.
#[derive(Debug, Clone, Copy, PartialEq, Eq, Structural)]
pub struct EvalError {
    pub kind: ErrorKind,
    pub offset: usize,
}

/// The mathematical model of a failure: the offset is an unbounded integer.
pub struct Failure {
    pub kind: ErrorKind,
    pub at: int,
}

impl View for EvalError {
    type V = Failure;

    open spec fn view(&self) -> Failure {
        Failure { kind: self.kind, at: self.offset as int }
    }
}

} // verus!
