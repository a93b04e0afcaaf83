//! The ways in which a request can be turned down.

use vstd::prelude::*;

verus! {

/// Why a request was not carried out. Every variant is detected where it
/// occurs and handed to the caller; none is retried inside the library.
#[derive(Clone, Copy, Debug, PartialEq, Eq, Structural, Hash)]
pub enum Error {
    /// The input could not be parsed or does not have the expected shape.
    MalformedInput,
    /// The log entry, queue or queue item asked for does not exist.
    NotFound,
    /// The update lost to the state already held: another claim was at
    /// least as recent. An expected outcome under contention; the caller
    /// may try again with fresh state.
    Conflict,
    /// The operation kind is not one that the policy bound to the
    /// collection supports.
    UnsupportedOperation,
    /// No policy is bound to the collection named.
    UnknownCollection,
    /// What was to be created exists already: a queue or a collection of
    /// that name, or a log entry of that id.
    AlreadyExists,
}

impl Error {
    /// The status code with which the error is surfaced over HTTP:
    /// 404 for something missing, 409 for a lost race or a name that is
    /// taken, and 400 for every other fault of the client.
    pub open spec fn status_code(self) -> u16 {
        match self {
            Error::NotFound => 404,
            Error::Conflict => 409,
            Error::AlreadyExists => 409,
            Error::MalformedInput => 400,
            Error::UnsupportedOperation => 400,
            Error::UnknownCollection => 400,
        }
    }

    /// The HTTP status code for the error.
    pub fn status(&self) -> (code: u16)
        ensures
            code == self.status_code(),
    {
        match self {
            Error::NotFound => 404,
            Error::Conflict => 409,
            Error::AlreadyExists => 409,
            Error::MalformedInput => 400,
            Error::UnsupportedOperation => 400,
            Error::UnknownCollection => 400,
        }
    }
}

} // verus!
