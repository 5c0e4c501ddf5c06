//! What to do with a row whose expression could not be evaluated.

use vstd::prelude::*;
use vstd::string::StringSliceAdditionalSpecFns;
use crate::error::{CallError, EvaluationError};
use crate::parser::write_bytes;
use crate::text::{bytes_eq, copy_bytes};
use crate::value::{DynamicValue, Value};

verus! {

/// What is done about an evaluation error.
#[derive(Clone, Copy, Debug, PartialEq, Eq, Structural)]
pub enum ErrorPolicy {
    /// The run stops at the first error.
    Panic,
    /// The row is kept with an absent value, and the error is written into
    /// a column of its own.
    Report,
    /// The row is kept with an absent value.
    Ignore,
    /// The row is kept with an absent value, and the error is logged.
    Log,
}

/// The policy that a name stands for.
pub open spec fn policy_named(name: Seq<u8>) -> Option<ErrorPolicy> {
    if name == "panic".spec_bytes() {
        Some(ErrorPolicy::Panic)
    } else if name == "report".spec_bytes() {
        Some(ErrorPolicy::Report)
    } else if name == "ignore".spec_bytes() {
        Some(ErrorPolicy::Ignore)
    } else if name == "log".spec_bytes() {
        Some(ErrorPolicy::Log)
    } else {
        None
    }
}

/// What becomes of a row.
#[derive(Debug, PartialEq, Eq)]
pub enum RowOutcome {
    /// The row is kept with this value.
    Keep(DynamicValue),
    /// The row is kept with this value, and the message goes into the error
    /// column.
    Report(DynamicValue, Vec<u8>),
    /// The row is kept with this value, and the message is logged.
    Log(DynamicValue, Vec<u8>),
    /// The run stops with this error.
    Abort(EvaluationError),
}

/// The words for a reason.
pub open spec fn reason_text(reason: CallError) -> Seq<u8> {
    match reason {
        CallError::CannotCoerceToNumber => "cannot coerce to number".spec_bytes(),
        CallError::CannotCoerceToString => "cannot coerce to string".spec_bytes(),
        CallError::InvalidArgument(kind) => "invalid argument: ".spec_bytes() + kind@,
        CallError::DivisionByZero => "division by zero".spec_bytes(),
        CallError::IndexOutOfRange => "index out of range".spec_bytes(),
        CallError::UserMessage(message) => message@,
    }
}

/// The message of an error: the function that failed, a colon and the
/// reason.
pub open spec fn fault_text(function_name: Seq<u8>, reason: CallError) -> Seq<u8> {
    function_name + ": ".spec_bytes() + reason_text(reason)
}

impl CallError {
    /// The words for the reason.
    pub fn message(&self) -> (r: Vec<u8>)
        ensures
            r@ == reason_text(*self),
    {
        match self {
            CallError::CannotCoerceToNumber => copy_bytes("cannot coerce to number".as_bytes()),
            CallError::CannotCoerceToString => copy_bytes("cannot coerce to string".as_bytes()),
            CallError::InvalidArgument(kind) => {
                let mut text = copy_bytes("invalid argument: ".as_bytes());
                write_bytes(kind.as_slice(), &mut text);
                text
            },
            CallError::DivisionByZero => copy_bytes("division by zero".as_bytes()),
            CallError::IndexOutOfRange => copy_bytes("index out of range".as_bytes()),
            CallError::UserMessage(message) => copy_bytes(message.as_slice()),
        }
    }
}

impl EvaluationError {
    /// The message of the error.
    pub fn message(&self) -> (r: Vec<u8>)
        ensures
            r@ == match self {
                EvaluationError::Call(error) => fault_text(error.function_name@, error.reason),
            },
    {
        match self {
            EvaluationError::Call(error) => {
                let mut text = copy_bytes(error.function_name.as_slice());
                write_bytes(": ".as_bytes(), &mut text);
                let reason = error.reason.message();
                write_bytes(reason.as_slice(), &mut text);
                text
            },
        }
    }
}

impl ErrorPolicy {
    /// The policy that `name` stands for, if any.
    pub fn parse(name: &str) -> (r: Option<ErrorPolicy>)
        ensures
            r == policy_named(name.spec_bytes()),
    {
        let bytes = name.as_bytes();
        if bytes_eq(bytes, "panic".as_bytes()) {
            Some(ErrorPolicy::Panic)
        } else if bytes_eq(bytes, "report".as_bytes()) {
            Some(ErrorPolicy::Report)
        } else if bytes_eq(bytes, "ignore".as_bytes()) {
            Some(ErrorPolicy::Ignore)
        } else if bytes_eq(bytes, "log".as_bytes()) {
            Some(ErrorPolicy::Log)
        } else {
            None
        }
    }

    /// What becomes of a row whose expression came to `result`. A value is
    /// kept under every policy. An error stops the run under `Panic`; under
    /// the other policies the row is kept with the absent value, and the
    /// message of the error is reported, dropped or logged.
    pub fn handle(self, result: Result<DynamicValue, EvaluationError>) -> (r: RowOutcome)
        ensures
            match result {
                Ok(value) => r == RowOutcome::Keep(value),
                Err(error) => match self {
                    ErrorPolicy::Panic => r == RowOutcome::Abort(error),
                    ErrorPolicy::Report => r matches RowOutcome::Report(value, message) && value@
                        == Value::Null && message@ == fault_text(
                        error@.function_name,
                        error@.reason,
                    ),
                    ErrorPolicy::Ignore => r matches RowOutcome::Keep(value) && value@
                        == Value::Null,
                    ErrorPolicy::Log => r matches RowOutcome::Log(value, message) && value@
                        == Value::Null && message@ == fault_text(
                        error@.function_name,
                        error@.reason,
                    ),
                },
            },
    {
        match result {
            Ok(value) => RowOutcome::Keep(value),
            Err(error) => match self {
                ErrorPolicy::Panic => RowOutcome::Abort(error),
                ErrorPolicy::Report => {
                    let message = error.message();
                    RowOutcome::Report(DynamicValue::Null, message)
                },
                ErrorPolicy::Ignore => RowOutcome::Keep(DynamicValue::Null),
                ErrorPolicy::Log => {
                    let message = error.message();
                    RowOutcome::Log(DynamicValue::Null, message)
                },
            },
        }
    }
}

} // verus!
