// Request and response shapes of the search interface.
use vstd::prelude::*;

verus! {

/// Category of a car.
#[derive(Clone, Copy, Debug, PartialEq, Eq, Structural)]
pub enum CarType {
    Small,
    Sports,
    Luxury,
    Family,
}

/// Order of the listed offers: by price ascending or descending; equal prices
/// are always ordered by ascending id.
#[derive(Clone, Copy, Debug, PartialEq, Eq, Structural)]
pub enum SortOrder {
    PriceAsc,
    PriceDesc,
}

/// A search request: the region, time window and duration select candidates,
/// the optional fields filter them, and the rest shapes the response.
#[derive(Clone, Copy, Debug)]
pub struct RequestOffer {
    pub region_id: u8,
    pub time_range_start: u64,
    pub time_range_end: u64,
    pub number_days: u32,
    pub sort_order: SortOrder,
    pub page: u32,
    pub page_size: u32,
    pub price_range_width: u32,
    pub min_free_kilometer_width: u32,
    pub min_number_seats: Option<u32>,
    pub min_price: Option<u32>,
    pub max_price: Option<u32>,
    pub car_type: Option<CarType>,
    pub only_vollkasko: Option<bool>,
    pub min_free_kilometer: Option<u32>,
}

/// The answer to a search: one page of offers and the facet counts.
#[derive(Debug)]
pub struct GetReponseBodyModel {
    pub offers: Vec<ResponseOffer>,
    pub price_ranges: Vec<PriceRange>,
    pub car_type_counts: CarTypeCount,
    pub seats_count: Vec<SeatCount>,
    pub free_kilometer_range: Vec<FreeKilometerRange>,
    pub vollkasko_count: VollKaskoCount,
}

/// An offer as listed in a response: its id and its opaque payload.
#[allow(non_snake_case)]
#[derive(Debug)]
pub struct ResponseOffer {
    pub ID: String,
    pub data: String,
}

/// Number of offers whose price lies in `[start, end)`.
#[derive(Clone, Copy, Debug, PartialEq, Eq, Structural)]
pub struct PriceRange {
    pub start: u64,
    pub end: u64,
    pub count: u32,
}

/// Number of offers of each car type.
#[derive(Clone, Copy, Debug, PartialEq, Eq, Structural)]
pub struct CarTypeCount {
    pub small: u32,
    pub sports: u32,
    pub luxury: u32,
    pub family: u32,
}

/// Number of offers with a given number of seats.
#[derive(Clone, Copy, Debug, PartialEq, Eq, Structural)]
pub struct SeatCount {
    pub count: u32,
    pub number_seats: u32,
}

/// Number of offers whose free kilometers lie in `[start, end)`.
#[derive(Clone, Copy, Debug, PartialEq, Eq, Structural)]
pub struct FreeKilometerRange {
    pub start: u64,
    pub end: u64,
    pub count: u32,
}

/// Number of offers with and without full-cover insurance.
#[derive(Clone, Copy, Debug, PartialEq, Eq, Structural)]
pub struct VollKaskoCount {
    pub true_count: u32,
    pub false_count: u32,
}

/// An offer as published by a client, before it is given a place in the store.
#[allow(non_snake_case)]
#[derive(Clone, Debug)]
pub struct Offer {
    pub id: String,
    pub data: String,
    pub most_specific_region_ID: u32,
    pub start_date: u64,
    pub end_date: u64,
    pub number_seats: u32,
    pub price: u32,
    pub car_type: CarType,
    pub has_vollkasko: bool,
    pub free_kilometers: u32,
}

} // verus!
