//! The error taxonomy of the expression front end, with its ghost model.

use vstd::prelude::*;

verus! {

/// The reasons a single expression can be rejected.  Every error is
/// terminal for the call that raised it; no stage retries.
#[derive(Debug, PartialEq)]
pub enum EvalError {
    /// Malformed token adjacency, a dangling operand, an empty fragment,
    /// or a token the tree builder cannot interpret.  Carries a
    /// diagnostic reason.
    InvalidExpression(String),
    /// Reserved for stricter lexing; the current tokenizer silently
    /// discards unrecognized characters and never raises this.
    InvalidCharacter(char),
    /// An identifier that matches neither the function registry nor the
    /// constant registry.
    UnknownKeyword(String),
    /// A function keyword that is not followed by a parenthesized group.
    NoFunctionArguments(String),
    /// A function call that supplied the wrong number of arguments.
    InvalidArgumentCount { expected: usize, got: usize },
    /// A name that exists in both registries.  A configuration defect,
    /// never a consequence of user input.
    ProgramIsStupid,
}

/// Ghost mirror of `EvalError`: string payloads become character
/// sequences, counts become mathematical naturals.
pub enum ErrorModel {
    InvalidExpression(Seq<char>),
    InvalidCharacter(char),
    UnknownKeyword(Seq<char>),
    NoFunctionArguments(Seq<char>),
    InvalidArgumentCount { expected: nat, got: nat },
    ProgramIsStupid,
}

/// The ghost model of one error value.
pub open spec fn error_model(e: EvalError) -> ErrorModel {
    match e {
        EvalError::InvalidExpression(s) => ErrorModel::InvalidExpression(s@),
        EvalError::InvalidCharacter(c) => ErrorModel::InvalidCharacter(c),
        EvalError::UnknownKeyword(s) => ErrorModel::UnknownKeyword(s@),
        EvalError::NoFunctionArguments(s) => ErrorModel::NoFunctionArguments(s@),
        EvalError::InvalidArgumentCount { expected, got } => ErrorModel::InvalidArgumentCount {
            expected: expected as nat,
            got: got as nat,
        },
        EvalError::ProgramIsStupid => ErrorModel::ProgramIsStupid,
    }
}

} // verus!
