//! The error taxonomy of the core: every operation reports exactly one of
//! these, and each maps to one HTTP status code at the shell.

use vstd::prelude::*;

verus! {

#[derive(Clone, Copy, PartialEq, Eq, Structural, Debug)]
pub enum ApiError {
    /// Malformed input: invalid country, wrong participant count, duplicate
    /// participants, or a content-length violation.
    BadRequest,
    /// Missing or tampered token, or a room mismatch between token and request.
    Unauthorized,
    /// A valid token whose seat may not touch the target conversation.
    Forbidden,
    /// The conversation does not exist.
    NotFound,
    /// The seat was already claimed.
    Conflict,
}

impl ApiError {
    /// The HTTP status code the shell reports for this error.
    pub open spec fn status_spec(self) -> u16 {
        match self {
            ApiError::BadRequest => 400u16,
            ApiError::Unauthorized => 401u16,
            ApiError::Forbidden => 403u16,
            ApiError::NotFound => 404u16,
            ApiError::Conflict => 409u16,
        }
    }

    pub fn status(self) -> (r: u16)
        ensures
            r == self.status_spec(),
    {
        match self {
            ApiError::BadRequest => 400,
            ApiError::Unauthorized => 401,
            ApiError::Forbidden => 403,
            ApiError::NotFound => 404,
            ApiError::Conflict => 409,
        }
    }
}

} // verus!
