//! The two disjoint error taxonomies: structural errors found while parsing
//! and semantic errors found while evaluating.

use vstd::prelude::*;

use crate::entities::Datatype;

verus! {

/// A structural error, detected before any evaluation. Each variant carries
/// the line and column of the offending position.
#[derive(Clone, Copy, Debug, PartialEq, Eq, Structural)]
pub enum ParseError {
    /// A `"` with no matching close before a newline or the end of input.
    UnterminatedString { line: usize, position: usize },
    /// A character that starts none of the grammar productions.
    UnknownToken { line: usize, position: usize, ch: char },
    /// An `(` whose matching `)` is never seen.
    IncompleteExpression { line: usize, position: usize },
    /// A `[` whose matching `]` is never seen.
    IncompleteList { line: usize, position: usize },
    /// The token after `(` does not start an identifier.
    ExpectedIdentifier { line: usize, position: usize },
    /// A number literal whose numerator does not fit the representation.
    NumberTooLarge { line: usize, position: usize },
}

/// A semantic error, detected during evaluation.
#[derive(Debug, PartialEq)]
pub enum RuntimeError {
    /// An operand did not coerce to the type a builtin needs.
    TypeMismatch { expected: Datatype, found: Datatype },
    /// A builtin was given fewer arguments than it requires.
    NotEnoughArgs { min: usize },
    /// A builtin was given more arguments than it accepts.
    TooMuchArgs { max: usize },
    /// A builtin was given a number of arguments other than the exact count
    /// it requires.
    InvalidArgCount { expected: usize, got: usize },
    /// A call to a name that is neither a builtin nor a declared function.
    UndefinedFunction(String),
    /// An arithmetic result whose numerator does not fit the representation.
    NumberOverflow,
    /// A division whose divisor is zero.
    DivisionByZero,
    /// Evaluation went through more nested user-function calls than the
    /// caller's budget allows.
    RecursionLimit,
}

/// The ghost model of a [`RuntimeError`].
pub enum ErrV {
    TypeMismatch { expected: Datatype, found: Datatype },
    NotEnoughArgs { min: nat },
    TooMuchArgs { max: nat },
    InvalidArgCount { expected: nat, got: nat },
    UndefinedFunction(Seq<char>),
    NumberOverflow,
    DivisionByZero,
    RecursionLimit,
}

impl View for RuntimeError {
    type V = ErrV;

    open spec fn view(&self) -> ErrV {
        match self {
            RuntimeError::TypeMismatch { expected, found } => ErrV::TypeMismatch {
                expected: *expected,
                found: *found,
            },
            RuntimeError::NotEnoughArgs { min } => ErrV::NotEnoughArgs { min: *min as nat },
            RuntimeError::TooMuchArgs { max } => ErrV::TooMuchArgs { max: *max as nat },
            RuntimeError::InvalidArgCount { expected, got } => ErrV::InvalidArgCount {
                expected: *expected as nat,
                got: *got as nat,
            },
            RuntimeError::UndefinedFunction(name) => ErrV::UndefinedFunction(name@),
            RuntimeError::NumberOverflow => ErrV::NumberOverflow,
            RuntimeError::DivisionByZero => ErrV::DivisionByZero,
            RuntimeError::RecursionLimit => ErrV::RecursionLimit,
        }
    }
}

} // verus!
