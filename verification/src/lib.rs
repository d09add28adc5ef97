//! Evaluation of arithmetic expressions.
//!
//! An expression is made of integer literals without a sign and the binary
//! operators `+ - * /`. `*` and `/` bind tighter than `+` and `-`, operators
//! of one level are applied from left to right, and `/` rounds toward zero.
//! Spaces may stand anywhere between the tokens. The text is evaluated while
//! it is read; no syntax tree is built.
//!
//! # Modules
//!
//! * [`token`], [`source`], [`error`]: tokens, the text with its cursor, and
//!   failures.
//! * [`lexer`]: [`get_next_token`] and its model [`lexer::lex`].
//! * [`parser`]: [`factor`], [`term`], [`expr`], [`evaluate`] and
//!   [`evaluate_complete`], with their models.
//! * [`laws`], [`spacing`], [`grammar`]: what is proved of the models for
//!   every text.
//!
//! # Choices
//!
//! * Values are `i64`. A literal above `i64::MAX` is a failure, and so is an
//!   operation whose result lies outside `i64`: nothing wraps around.
//! * A failure is a value, [`EvalError`], with its kind and the cursor offset
//!   at which the evaluation stopped. Nothing is recovered: the first failure
//!   ends the evaluation.
//! * Offsets count characters, not bytes.
//! * [`expr`] and [`evaluate`] stop in front of the first token that cannot
//!   continue the expression and leave it unread, whatever it is.
//!   [`evaluate_complete`] asks in addition that this token is the end of
//!   the input.
//! * Spaces at the end of the text are skipped like any others: behind them
//!   the lexer gives the end of the input.

pub mod error;
pub mod grammar;
pub mod laws;
pub mod lexer;
pub mod parser;
pub mod source;
pub mod spacing;
pub mod token;

pub use crate::error::{ArithmeticFault, ErrorKind, EvalError, Failure};
pub use crate::lexer::{chars_to_integer, get_next_token};
pub use crate::parser::{evaluate, evaluate_complete, expr, factor, term};
pub use crate::source::Source;
pub use crate::token::{validate_token_type, Token, TokenType, TokenValue};
