//! Errors: a kind and a message.
use vstd::prelude::*;

verus! {

/// What went wrong, in broad terms.
#[derive(Clone, Copy, Debug, PartialEq, Eq, Structural)]
pub enum ErrorKind {
    /// A caller passed a value that the operation does not accept.
    InvalidInput,
    /// Persisted bytes do not have the form that their format prescribes.
    InvalidData,
    /// Persisted bytes end before, or go on after, the place where they should end.
    UnexpectedEof,
}

/// An error with its kind and its message.
#[derive(Debug)]
pub struct Error {
    pub kind: ErrorKind,
    pub message: String,
}

/// The model of an [`Error`]: its kind and the characters of its message.
pub struct ErrorView {
    pub kind: ErrorKind,
    pub text: Seq<char>,
}

impl View for Error {
    type V = ErrorView;

    open spec fn view(&self) -> ErrorView {
        ErrorView { kind: self.kind, text: self.message@ }
    }
}

/// The model of an error of kind [`ErrorKind::InvalidInput`].
pub open spec fn input_error(text: Seq<char>) -> ErrorView {
    ErrorView { kind: ErrorKind::InvalidInput, text }
}

/// The model of an error of kind [`ErrorKind::InvalidData`].
pub open spec fn data_error(text: Seq<char>) -> ErrorView {
    ErrorView { kind: ErrorKind::InvalidData, text }
}

/// A result with its error replaced by the model of the error.
pub open spec fn outcome<T>(result: Result<T, Error>) -> Result<T, ErrorView> {
    match result {
        Ok(value) => Ok(value),
        Err(error) => Err(error@),
    }
}

/// An error of kind [`ErrorKind::InvalidInput`] with the given message.
pub fn invalid_input(message: String) -> (error: Error)
    ensures
        error@ == input_error(message@),
{
    Error { kind: ErrorKind::InvalidInput, message }
}

/// An error of kind [`ErrorKind::InvalidData`] with the given message.
pub fn invalid_data(message: String) -> (error: Error)
    ensures
        error@ == data_error(message@),
{
    Error { kind: ErrorKind::InvalidData, message }
}

/// Accepts every value but zero.
pub fn validate_positive(value: usize, name: &str) -> (result: Result<(), Error>)
    ensures
        outcome(result) == positive(value as nat, name@),
{
    if value == 0 {
        let mut message = name.to_owned();
        message.append(" must be greater than 0");
        Err(invalid_input(message))
    } else {
        Ok(())
    }
}

/// What [`validate_positive`] answers.
pub open spec fn positive(value: nat, name: Seq<char>) -> Result<(), ErrorView> {
    if value == 0 {
        Err(input_error(name + " must be greater than 0"@))
    } else {
        Ok(())
    }
}

} // verus!
