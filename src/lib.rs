// An in-memory search engine for rental-car offers: offers are indexed by
// region and rental duration, and a search lists one page of matching offers
// together with faceted counts (price and kilometer buckets, seats, car types,
// insurance).
use vstd::prelude::*;

pub mod aggregates;
pub mod db_manager;
pub mod db_models;
pub mod fx_map;
pub mod index_tree;
pub mod interval_tree;
pub mod json_models;
pub mod laws;
pub mod number_of_days;
pub mod ordering;
pub mod parsing;
pub mod query_model;
pub mod regions;

verus! {

} // verus!
