//! Garage maintenance backend: calendar arithmetic, availability and monthly
//! request reports, and the transactional edit protocol for cars and
//! maintenance records.

pub mod availability;
pub mod calendar;
pub mod car;
pub mod error;
pub mod garage;
pub mod maintenance;
pub mod monthly;
pub mod schedule;
pub mod text;
pub mod transaction;
