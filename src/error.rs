//! The failures that the service reports.

use vstd::prelude::*;

verus! {

/// A query parameter of the reports.
#[derive(Clone, Copy, Debug, PartialEq, Eq, Structural)]
pub enum QueryParameter {
    GarageId,
    StartDate,
    EndDate,
    StartMonth,
    EndMonth,
}

#[derive(Clone, Copy, Debug, PartialEq, Eq, Structural)]
pub enum ApiError {
    /// The referenced garage, car or maintenance record does not exist.
    NotFound,
    /// A query parameter is missing or malformed.
    InvalidArgument(QueryParameter),
    /// The store could not be reached or the query failed.
    Unavailable,
    /// A transactional write failed and was rolled back.
    Conflict,
}

/// The outcome of deleting by id: no row removed means there was none.
pub fn deletion_outcome(rows_affected: u64) -> (r: Result<(), ApiError>)
    ensures
        rows_affected == 0 ==> r == Err::<(), ApiError>(ApiError::NotFound),
        rows_affected > 0 ==> r == Ok::<(), ApiError>(()),
{
    if rows_affected == 0 {
        Err(ApiError::NotFound)
    } else {
        Ok(())
    }
}

} // verus!
