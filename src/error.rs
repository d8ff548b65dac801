use vstd::prelude::*;

verus! {

/// The kinds of failure that the stores report.
#[derive(Clone, Copy, Debug, PartialEq, Eq, Structural)]
pub enum StoreError {
    /// The key is absent.
    NotFound,
    /// A uniqueness violation, a fork mismatch or a duplicate batch with another signature.
    Conflict,
    /// An illegal batch transition or an invalid rollback target.
    InvalidState,
    /// The persistence engine could not be reached.
    StorageUnavailable,
    /// An unexpected failure.
    Internal,
}

pub open spec fn spec_status_code(e: StoreError) -> u16 {
    match e {
        StoreError::NotFound => 404,
        StoreError::Conflict => 409,
        StoreError::InvalidState => 400,
        StoreError::StorageUnavailable => 503,
        StoreError::Internal => 500,
    }
}

impl StoreError {
    /// The HTTP status code under which the REST boundary reports this error.
    pub fn status_code(&self) -> (r: u16)
        ensures
            r == spec_status_code(*self),
    {
        match self {
            StoreError::NotFound => 404,
            StoreError::Conflict => 409,
            StoreError::InvalidState => 400,
            StoreError::StorageUnavailable => 503,
            StoreError::Internal => 500,
        }
    }
}

} // verus!
