//! Errors reported by the lexer, the parser and the interpreter.

use vstd::prelude::*;
use crate::expr::{Sign, Type};
use crate::lexer::{Token, TokenView};

verus! {

/// Why a source text could not be turned into tokens.
#[derive(Debug, Clone, Copy, PartialEq, Eq, Structural)]
pub enum LexError {
    /// The input ended inside a string literal.
    UnexpectedEof,
    /// A byte that starts no token.
    InvalidToken(u8),
    /// A run of digits whose value does not fit in 64 signed bits.
    InvalidInt,
}

/// Why a token sequence is not a program.
#[derive(Debug, PartialEq, Eq)]
pub enum ParseError {
    /// The tokens ended where more were needed.
    UnexpectedEnd,
    /// A given token was required; `found` is what stood there, if
    /// anything.
    Expected { expected: Token, found: Option<Token> },
    /// The token cannot begin an expression.
    ExpectedExpression(Token),
    /// The token names no type.
    ExpectedType(Token),
    /// The token is no operator.
    ExpectedSign(Token),
    /// A closing brace with no block open.
    UnexpectedCloseBrace,
    /// The token cannot stand where it does.
    UnexpectedToken(Token),
}

/// The mathematical value of a [`ParseError`].
pub enum ParseErrorView {
    UnexpectedEnd,
    Expected { expected: TokenView, found: Option<TokenView> },
    ExpectedExpression(TokenView),
    ExpectedType(TokenView),
    ExpectedSign(TokenView),
    UnexpectedCloseBrace,
    UnexpectedToken(TokenView),
}

impl View for ParseError {
    type V = ParseErrorView;

    open spec fn view(&self) -> ParseErrorView {
        match self {
            ParseError::UnexpectedEnd => ParseErrorView::UnexpectedEnd,
            ParseError::Expected { expected, found } => ParseErrorView::Expected {
                expected: expected@,
                found: match found {
                    Some(t) => Some(t@),
                    None => None,
                },
            },
            ParseError::ExpectedExpression(t) => ParseErrorView::ExpectedExpression(t@),
            ParseError::ExpectedType(t) => ParseErrorView::ExpectedType(t@),
            ParseError::ExpectedSign(t) => ParseErrorView::ExpectedSign(t@),
            ParseError::UnexpectedCloseBrace => ParseErrorView::UnexpectedCloseBrace,
            ParseError::UnexpectedToken(t) => ParseErrorView::UnexpectedToken(t@),
        }
    }
}

/// Why a program stopped before its end.
#[derive(Debug, PartialEq, Eq)]
pub enum EvalError {
    /// A name was read that no enclosing scope declares.
    NotInitialized(String),
    /// A name was assigned to that no enclosing scope declares.
    CouldNotSet(String),
    /// A variable of type `variable` was assigned a value of type
    /// `value`.
    ImplicitConversion { variable: Type, value: Type },
    /// A declaration of type `expected` had an initializer of type
    /// `found`.
    TypeMismatch { expected: Type, found: Type },
    /// `!` was applied to a value of the given type, which is not
    /// `Bool`.
    ExpectedBool(Type),
    /// An operator other than `=` had operands of two different types.
    ImplicitCast { left: Type, right: Type },
    /// The operator is not defined on operands of the given type.
    BadSign { sign: Sign, operand: Type },
    DivisionByZero,
    /// The result of an arithmetic operation does not fit in 64 signed
    /// bits.
    Overflow,
    /// The exit code had the given type, which is neither `Int` nor
    /// `Bool`.
    ExitCode(Type),
    /// A loop ran more often than the step limit allows.
    StepLimit,
}

/// The mathematical value of an [`EvalError`].
pub enum EvalErrorView {
    NotInitialized(Seq<char>),
    CouldNotSet(Seq<char>),
    ImplicitConversion { variable: Type, value: Type },
    TypeMismatch { expected: Type, found: Type },
    ExpectedBool(Type),
    ImplicitCast { left: Type, right: Type },
    BadSign { sign: Sign, operand: Type },
    DivisionByZero,
    Overflow,
    ExitCode(Type),
    StepLimit,
}

impl View for EvalError {
    type V = EvalErrorView;

    open spec fn view(&self) -> EvalErrorView {
        match self {
            EvalError::NotInitialized(s) => EvalErrorView::NotInitialized(s@),
            EvalError::CouldNotSet(s) => EvalErrorView::CouldNotSet(s@),
            EvalError::ImplicitConversion { variable, value } => EvalErrorView::ImplicitConversion {
                variable: *variable,
                value: *value,
            },
            EvalError::TypeMismatch { expected, found } => EvalErrorView::TypeMismatch {
                expected: *expected,
                found: *found,
            },
            EvalError::ExpectedBool(t) => EvalErrorView::ExpectedBool(*t),
            EvalError::ImplicitCast { left, right } => EvalErrorView::ImplicitCast {
                left: *left,
                right: *right,
            },
            EvalError::BadSign { sign, operand } => EvalErrorView::BadSign {
                sign: *sign,
                operand: *operand,
            },
            EvalError::DivisionByZero => EvalErrorView::DivisionByZero,
            EvalError::Overflow => EvalErrorView::Overflow,
            EvalError::ExitCode(t) => EvalErrorView::ExitCode(*t),
            EvalError::StepLimit => EvalErrorView::StepLimit,
        }
    }
}

} // verus!
