//! The errors of the engine.

use vstd::prelude::*;

verus! {

/// Why a call could not produce a value.
#[derive(Debug, Clone, PartialEq, Eq)]
pub enum CallError {
    CannotCoerceToNumber,
    CannotCoerceToString,
    InvalidArgument(Vec<u8>),
    DivisionByZero,
    IndexOutOfRange,
    UserMessage(Vec<u8>),
}

/// A call error together with the name of the function that raised it.
#[derive(Debug, Clone, PartialEq, Eq)]
pub struct SpecifiedCallError {
    pub function_name: Vec<u8>,
    pub reason: CallError,
}

/// An error raised while evaluating an expression against one record.
#[derive(Debug, Clone, PartialEq, Eq)]
pub enum EvaluationError {
    Call(SpecifiedCallError),
}

/// What an [`EvaluationError`] holds.
pub struct Fault {
    pub function_name: Seq<u8>,
    pub reason: CallError,
}

impl View for EvaluationError {
    type V = Fault;

    open spec fn view(&self) -> Fault {
        match self {
            EvaluationError::Call(error) => Fault {
                function_name: error.function_name@,
                reason: error.reason,
            },
        }
    }
}

/// How many arguments a function takes.
#[derive(Debug, Clone, Copy, PartialEq, Eq, Structural)]
pub enum Arity {
    /// Exactly this many.
    Strict(usize),
    /// At least the first and at most the second.
    Range(usize, usize),
}

impl Arity {
    /// Whether a call with `count` arguments is accepted.
    pub open spec fn accepts(self, count: nat) -> bool {
        match self {
            Arity::Strict(n) => count == n,
            Arity::Range(low, high) => low <= count <= high,
        }
    }
}

/// An error raised while binding an expression to the columns of a header.
/// These are found before any record is read.
#[derive(Debug, Clone, PartialEq, Eq)]
pub enum ConcretizationError {
    /// The source could not be parsed; holds the source.
    ParseError(Vec<u8>),
    UnknownIdentifier(Vec<u8>),
    UnknownFunction(Vec<u8>),
    InvalidArity { name: Vec<u8>, expected: Arity, got: usize },
}

} // verus!
