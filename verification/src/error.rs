//! The failures that the broker reports.

use vstd::prelude::*;

verus! {

/// Why a request to the broker could not be served.
#[derive(Clone, Copy, Debug, PartialEq, Eq, Structural)]
pub enum BackendError {
    /// Something unexpected went wrong; no detail is given to the client.
    InternalError,
    /// Every port of the pool is taken.
    NoSlotsAvailable,
    /// The token presented belongs to no live session.
    UnknownSession,
}

/// The HTTP status that stands for each failure.
pub open spec fn status_of(e: BackendError) -> u16 {
    match e {
        BackendError::InternalError => 500,
        BackendError::NoSlotsAvailable => 503,
        BackendError::UnknownSession => 404,
    }
}

/// The short text sent along with each failure.
pub open spec fn message_of(e: BackendError) -> Seq<char> {
    match e {
        BackendError::InternalError => "internal server error"@,
        BackendError::NoSlotsAvailable => "no slots available"@,
        BackendError::UnknownSession => "unknown session"@,
    }
}

impl BackendError {
    /// The HTTP status code to answer with.
    pub fn status_code(&self) -> (code: u16)
        ensures
            code == status_of(*self),
            400 <= code < 600,
    {
        match self {
            BackendError::InternalError => 500,
            BackendError::NoSlotsAvailable => 503,
            BackendError::UnknownSession => 404,
        }
    }

    /// The body text to answer with. It never leaks internal detail.
    pub fn message(&self) -> (text: &'static str)
        ensures
            text@ == message_of(*self),
    {
        match self {
            BackendError::InternalError => "internal server error",
            BackendError::NoSlotsAvailable => "no slots available",
            BackendError::UnknownSession => "unknown session",
        }
    }
}

} // verus!
