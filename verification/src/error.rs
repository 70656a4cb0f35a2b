//! Errors raised while evaluating JMESPath functions, and arity checks.

use vstd::prelude::*;
use crate::variable::{Variable, Json};

verus! {

/// An error raised while evaluating an expression.
#[derive(Debug)]
#[allow(inconsistent_fields)]
pub enum RuntimeError {
    NotEnoughArguments { expected: usize, actual: usize },
    TooManyArguments { expected: usize, actual: usize },
    InvalidType { expected: String, actual: String, actual_value: Variable, position: usize },
    InvalidReturnType {
        expected: String,
        actual: String,
        actual_value: Variable,
        position: usize,
        invocation: usize,
    },
    UnknownFunction(String),
}

/// The model of a [`RuntimeError`].
#[allow(inconsistent_fields)]
pub enum ErrorModel {
    NotEnoughArguments { expected: usize, actual: usize },
    TooManyArguments { expected: usize, actual: usize },
    InvalidType { expected: Seq<char>, actual: Seq<char>, actual_value: Json, position: usize },
    InvalidReturnType {
        expected: Seq<char>,
        actual: Seq<char>,
        actual_value: Json,
        position: usize,
        invocation: usize,
    },
    UnknownFunction(Seq<char>),
}

impl View for RuntimeError {
    type V = ErrorModel;

    open spec fn view(&self) -> ErrorModel {
        match self {
            RuntimeError::NotEnoughArguments { expected, actual } => ErrorModel::NotEnoughArguments {
                expected: *expected,
                actual: *actual,
            },
            RuntimeError::TooManyArguments { expected, actual } => ErrorModel::TooManyArguments {
                expected: *expected,
                actual: *actual,
            },
            RuntimeError::InvalidType { expected, actual, actual_value, position } =>
                ErrorModel::InvalidType {
                expected: expected@,
                actual: actual@,
                actual_value: actual_value@,
                position: *position,
            },
            RuntimeError::InvalidReturnType {
                expected,
                actual,
                actual_value,
                position,
                invocation,
            } => ErrorModel::InvalidReturnType {
                expected: expected@,
                actual: actual@,
                actual_value: actual_value@,
                position: *position,
                invocation: *invocation,
            },
            RuntimeError::UnknownFunction(name) => ErrorModel::UnknownFunction(name@),
        }
    }
}

/// The result of evaluating an expression or a function.
pub type SearchResult = Result<Variable, RuntimeError>;

/// The model of a [`SearchResult`].
pub open spec fn result_view(r: SearchResult) -> Result<Json, ErrorModel> {
    match r {
        Ok(v) => Ok(v@),
        Err(e) => Err(e@),
    }
}

/// The error of a check that returns no value, if it failed.
pub open spec fn check_view(r: Result<(), RuntimeError>) -> Option<ErrorModel> {
    match r {
        Ok(_) => None,
        Err(e) => Some(e@),
    }
}

/// The error that `validate_arity` reports, if any.
pub open spec fn arity_error(expected: usize, actual: usize) -> Option<ErrorModel> {
    if actual == expected {
        None
    } else if actual < expected {
        Some(ErrorModel::NotEnoughArguments { expected, actual })
    } else {
        Some(ErrorModel::TooManyArguments { expected, actual })
    }
}

/// The error that `validate_min_arity` reports, if any.
pub open spec fn min_arity_error(expected: usize, actual: usize) -> Option<ErrorModel> {
    if actual < expected {
        Some(ErrorModel::NotEnoughArguments { expected, actual })
    } else {
        None
    }
}

/// Validates the arity of a function.
pub fn validate_arity(expected: usize, actual: usize) -> (r: Result<(), RuntimeError>)
    ensures
        check_view(r) == arity_error(expected, actual),
{
    if actual == expected {
        Ok(())
    } else if actual < expected {
        Err(RuntimeError::NotEnoughArguments { expected: expected, actual: actual })
    } else {
        Err(RuntimeError::TooManyArguments { expected: expected, actual: actual })
    }
}

/// Validates the arity of a function.
pub fn validate_min_arity(expected: usize, actual: usize) -> (r: Result<(), RuntimeError>)
    ensures
        check_view(r) == min_arity_error(expected, actual),
{
    if actual < expected {
        Err(RuntimeError::NotEnoughArguments { expected: expected, actual: actual })
    } else {
        Ok(())
    }
}

} // verus!
