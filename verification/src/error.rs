//! Failures of the Stub protocol.

use vstd::prelude::*;
use vstd::string::*;

use crate::text::{decimal, decimal_text, hex2, push_hex2};
use crate::transport::{IoError, IoFault};

verus! {

/// What can go wrong in a session.
#[derive(Debug)]
pub enum Error {
    Io(IoError),
    Cancelled,
    UnexpectedNotification(u8),
    /// One attempt more than there are retries, so the count needs more than
    /// the range of a retry count.
    RetryLimitExceeded { operation: &'static str, attempts: u16 },
    InvalidChunkSize(usize),
    InvalidReadResponse,
}

/// What an [`Error`] says, as a value.
pub enum Failure {
    Io(IoFault),
    Cancelled,
    UnexpectedNotification(u8),
    RetryLimitExceeded { operation: Seq<char>, attempts: nat },
    InvalidChunkSize(nat),
    InvalidReadResponse,
}

impl View for Error {
    type V = Failure;

    open spec fn view(&self) -> Failure {
        match self {
            Error::Io(error) => Failure::Io(error@),
            Error::Cancelled => Failure::Cancelled,
            Error::UnexpectedNotification(byte) => Failure::UnexpectedNotification(*byte),
            Error::RetryLimitExceeded { operation, attempts } => Failure::RetryLimitExceeded {
                operation: operation@,
                attempts: *attempts as nat,
            },
            Error::InvalidChunkSize(size) => Failure::InvalidChunkSize(*size as nat),
            Error::InvalidReadResponse => Failure::InvalidReadResponse,
        }
    }
}

/// A result as the model sees it: both sides by what they say.
pub open spec fn shown<A: View, E: View>(result: Result<A, E>) -> Result<A::V, E::V> {
    match result {
        Ok(value) => Ok(value@),
        Err(error) => Err(error@),
    }
}

impl vstd::std_specs::convert::FromSpecImpl<IoError> for Error {
    open spec fn obeys_from_spec() -> bool {
        true
    }

    open spec fn from_spec(error: IoError) -> Error {
        Error::Io(error)
    }
}

impl From<IoError> for Error {
    fn from(error: IoError) -> (converted: Error) {
        Error::Io(error)
    }
}

/// The text that tells a user what went wrong.
pub open spec fn failure_text(failure: Failure) -> Seq<char> {
    match failure {
        Failure::Io(fault) => "serial I/O error: "@ + fault.message,
        Failure::Cancelled => "CD-i cancelled the operation"@,
        Failure::UnexpectedNotification(byte) => "unexpected protocol notification 0x"@ + hex2(
            byte,
        ),
        Failure::RetryLimitExceeded { operation, attempts } => operation + " was rejected "@
            + decimal(attempts) + " times"@,
        Failure::InvalidChunkSize(size) => "chunk size "@ + decimal(size)
            + " must be in 1..=65535"@,
        Failure::InvalidReadResponse => "invalid response to read request"@,
    }
}

impl Error {
    /// The text that tells a user what went wrong.
    pub fn message(&self) -> (text: String)
        ensures
            text@ == failure_text(self@),
    {
        match self {
            Error::Io(error) => {
                let mut text: String = "serial I/O error: ".to_owned();
                text.append(error.message.as_str());
                text
            },
            Error::Cancelled => "CD-i cancelled the operation".to_owned(),
            Error::UnexpectedNotification(byte) => {
                let mut text: String = "unexpected protocol notification 0x".to_owned();
                push_hex2(&mut text, *byte);
                text
            },
            Error::RetryLimitExceeded { operation, attempts } => {
                let mut text: String = (*operation).to_owned();
                text.append(" was rejected ");
                text.append(decimal_text(*attempts as u64).as_str());
                text.append(" times");
                text
            },
            Error::InvalidChunkSize(size) => {
                let mut text: String = "chunk size ".to_owned();
                text.append(decimal_text(*size as u64).as_str());
                text.append(" must be in 1..=65535");
                text
            },
            Error::InvalidReadResponse => "invalid response to read request".to_owned(),
        }
    }
}

} // verus!
