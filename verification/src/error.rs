//! The kinds of failure that the master reports.

use vstd::prelude::*;

verus! {

/// Why an operation failed.
#[derive(Clone, Copy, Debug, PartialEq, Eq, Structural)]
pub enum FsError {
    /// A path, a file or a user is absent.
    NotFound,
    /// A directory, a file or a user is already present.
    AlreadyExists,
    /// A malformed path or chunk identifier, or an invalid parameter.
    InvalidInput,
    /// The credentials do not match the stored ones.
    InvalidData,
    /// The caller is not allowed to do this.
    Unauthorised,
    /// A lock could not be taken.
    Conflict,
    /// Fewer chunk servers are live than a placement needs.
    Unavailable,
    /// Reading or writing storage, or the transport, failed.
    IoFailure,
}

/// The HTTP status under which each kind of failure is reported.
pub open spec fn status_of(e: FsError) -> u16 {
    match e {
        FsError::InvalidInput => 400,
        FsError::Unauthorised => 401,
        FsError::NotFound => 404,
        FsError::AlreadyExists => 409,
        FsError::InvalidData => 422,
        FsError::Conflict => 500,
        FsError::IoFailure => 500,
        FsError::Unavailable => 503,
    }
}

impl FsError {
    /// The HTTP status under which this failure is reported.
    pub fn status_code(&self) -> (code: u16)
        ensures
            code == status_of(*self),
    {
        match self {
            FsError::InvalidInput => 400,
            FsError::Unauthorised => 401,
            FsError::NotFound => 404,
            FsError::AlreadyExists => 409,
            FsError::InvalidData => 422,
            FsError::Conflict => 500,
            FsError::IoFailure => 500,
            FsError::Unavailable => 503,
        }
    }
}

} // verus!
