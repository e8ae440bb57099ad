//! Errors of the library.
use vstd::prelude::*;

verus! {

/// Why a request was refused, or why a source of rows failed.
#[derive(Debug)]
pub enum Error {
    /// A request or stored data broke a rule. The message says which.
    DataInvalid { message: String },
}

/// An error is viewed as its message.
impl View for Error {
    type V = Seq<char>;

    open spec fn view(&self) -> Seq<char> {
        match self {
            Error::DataInvalid { message } => message@,
        }
    }
}

impl Error {
    /// The message of the error.
    pub fn message(&self) -> (result: &str)
        ensures
            result@ == self@,
    {
        match self {
            Error::DataInvalid { message } => message.as_str(),
        }
    }
}

/// The error with the given message.
pub fn data_invalid(message: String) -> (result: Error)
    ensures
        result == (Error::DataInvalid { message }),
        result@ == message@,
{
    Error::DataInvalid { message }
}

} // verus!
