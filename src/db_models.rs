// The offer record as held by the store.
use vstd::prelude::*;
use crate::json_models::CarType;

verus! {

/// An offer as held by the dense store; `idx` is its position there.
#[derive(Clone, Debug)]
pub struct Offer {
    pub idx: u32,
    pub id: String,
    pub data: String,
    pub most_specific_region_id: u32,
    pub start_date: u64,
    pub end_date: u64,
    pub number_seats: u32,
    pub price: u32,
    pub car_type: CarType,
    pub has_vollkasko: bool,
    pub free_kilometers: u32,
}

} // verus!
