//! Garages and the daily availability report's request and entry types.

use vstd::prelude::*;

verus! {

/// A maintenance facility with a fixed number of service slots per day.
#[derive(Clone, Debug)]
pub struct Garage {
    pub id: i64,
    pub name: String,
    pub location: String,
    pub city: String,
    pub capacity: i64,
}

impl Garage {
    /// A garage's capacity is never negative.
    pub open spec fn wf(&self) -> bool {
        self.capacity >= 0
    }
}

#[derive(Clone, Debug)]
pub struct CreateGarageRequest {
    pub name: String,
    pub location: String,
    pub city: String,
    pub capacity: i64,
}

/// A partial edit of a garage: absent fields keep their current value.
#[derive(Clone, Debug)]
pub struct EditGarageRequest {
    pub name: Option<String>,
    pub location: Option<String>,
    pub city: Option<String>,
    pub capacity: Option<i64>,
}

/// Query of the daily availability report; dates are written `YYYY-MM-DD`.
#[derive(Clone, Debug)]
pub struct GarageReportQueryParams {
    pub garage_id: i64,
    pub start_date: String,
    pub end_date: String,
}

/// One day of the daily availability report.
#[derive(Clone, Debug)]
pub struct GarageDailyAvailabilityReportDTO {
    pub date: String,
    pub requests: i64,
    pub available_capacity: i64,
}

/// The value an optional edit field leaves: the new one if given, else the
/// current one.
pub open spec fn edited<T>(new: Option<T>, current: T) -> T {
    match new {
        Some(v) => v,
        None => current,
    }
}

pub open spec fn edited_text(new: Option<String>, current: String) -> Seq<char> {
    match new {
        Some(v) => v@,
        None => current@,
    }
}

fn pick_text(new: &Option<String>, current: &String) -> (r: String)
    ensures
        r@ == edited_text(*new, *current),
{
    match new {
        Some(v) => v.clone(),
        None => current.clone(),
    }
}

/// The garage `current` after the partial edit `req`.
pub fn edit_garage(current: &Garage, req: &EditGarageRequest) -> (r: Garage)
    ensures
        r.id == current.id,
        r.name@ == edited_text(req.name, current.name),
        r.location@ == edited_text(req.location, current.location),
        r.city@ == edited_text(req.city, current.city),
        r.capacity == edited(req.capacity, current.capacity),
{
    Garage {
        id: current.id,
        name: pick_text(&req.name, &current.name),
        location: pick_text(&req.location, &current.location),
        city: pick_text(&req.city, &current.city),
        capacity: match req.capacity {
            Some(c) => c,
            None => current.capacity,
        },
    }
}

/// The garage that `req` created under the store's new id `id`.
pub fn create_garage(id: i64, req: &CreateGarageRequest) -> (r: Garage)
    ensures
        r.id == id,
        r.name@ == req.name@,
        r.location@ == req.location@,
        r.city@ == req.city@,
        r.capacity == req.capacity,
{
    Garage {
        id,
        name: req.name.clone(),
        location: req.location.clone(),
        city: req.city.clone(),
        capacity: req.capacity,
    }
}

} // verus!
