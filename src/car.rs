//! Cars and the request that creates or replaces one.

use vstd::prelude::*;

verus! {

/// A car, with the garages it is to be associated with.
#[derive(Clone, Debug)]
pub struct CreateCarRequest {
    pub make: String,
    pub model: String,
    pub production_year: i64,
    pub license_plate: String,
    pub garage_ids: Option<Vec<String>>,
}

} // verus!
