//! Messages exchanged with the history store.
//!
//! The store itself — a database and a clock — lives outside the crate
//! and only ever sees read-only snapshots; these are the plain request
//! and response values that cross that boundary.

use crate::state::Thermometer;
use vstd::prelude::*;

verus! {

/// A request to the history store.
#[derive(Clone, Debug)]
pub enum DbRequest {
    /// Ask for the recent records of the named thermometer.
    ThermometerHistory(String),
}

/// A response from the history store.
#[derive(Clone, Debug)]
pub enum DbResponse {
    /// Unix-timestamped records of one thermometer, oldest first.
    ThermometerHistory(Vec<(i64, Thermometer)>),
}

} // verus!
