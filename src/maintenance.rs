//! Maintenance records and their request and response shapes.

use crate::garage::edited_text;
use vstd::prelude::*;

verus! {

/// One scheduled service: a car at a garage on a `YYYY-MM-DD` date.
#[derive(Clone, Debug)]
pub struct Maintenance {
    pub id: i64,
    pub car_id: String,
    pub garage_id: String,
    pub service_type: String,
    pub scheduled_date: String,
}

#[derive(Clone, Debug)]
pub struct CreateMaintenanceDTO {
    pub car_id: String,
    pub garage_id: String,
    pub service_type: String,
    pub scheduled_date: String,
}

/// A partial edit of a maintenance record: absent fields keep their value.
#[derive(Clone, Debug)]
pub struct UpdateMaintenanceDTO {
    pub car_id: Option<String>,
    pub garage_id: String,
    pub service_type: Option<String>,
    pub scheduled_date: Option<String>,
}

#[derive(Clone, Debug)]
pub struct ResponseMaintenanceDTO {
    pub id: i64,
    pub car_id: String,
    pub car_name: String,
    pub service_type: String,
    pub scheduled_date: String,
    pub garage_id: String,
    pub garage_name: String,
}

#[derive(Clone, Debug)]
pub struct EditMaintenanceDTO {
    pub id: String,
    pub car_id: String,
    pub garage_id: String,
    pub service_type: String,
    pub scheduled_date: String,
}

/// The maintenance record `current` after the partial edit `upd`; the garage
/// is always replaced.
pub fn update_maintenance(current: &Maintenance, upd: &UpdateMaintenanceDTO) -> (r: Maintenance)
    ensures
        r.id == current.id,
        r.car_id@ == edited_text(upd.car_id, current.car_id),
        r.garage_id@ == upd.garage_id@,
        r.service_type@ == edited_text(upd.service_type, current.service_type),
        r.scheduled_date@ == edited_text(upd.scheduled_date, current.scheduled_date),
{
    Maintenance {
        id: current.id,
        car_id: match &upd.car_id {
            Some(v) => v.clone(),
            None => current.car_id.clone(),
        },
        garage_id: upd.garage_id.clone(),
        service_type: match &upd.service_type {
            Some(v) => v.clone(),
            None => current.service_type.clone(),
        },
        scheduled_date: match &upd.scheduled_date {
            Some(v) => v.clone(),
            None => current.scheduled_date.clone(),
        },
    }
}

} // verus!
