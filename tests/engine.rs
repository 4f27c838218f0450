use offer_search::db_manager::{DBManager, IngestError, QueryError};
use offer_search::json_models::{
    CarType, CarTypeCount, FreeKilometerRange, Offer, PriceRange, RequestOffer, SeatCount, SortOrder,
    VollKaskoCount,
};

const DAY: u64 = 86_400_000;

fn offer(id: &str, region: u32, start: u64, end: u64, price: u32, car_type: CarType) -> Offer {
    Offer {
        id: id.to_string(),
        data: format!("data-{}", id),
        most_specific_region_ID: region,
        start_date: start,
        end_date: end,
        number_seats: 5,
        price,
        car_type,
        has_vollkasko: true,
        free_kilometers: 120,
    }
}

fn request(region: u8, start: u64, end: u64, days: u32) -> RequestOffer {
    RequestOffer {
        region_id: region,
        time_range_start: start,
        time_range_end: end,
        number_days: days,
        sort_order: SortOrder::PriceAsc,
        page: 0,
        page_size: 10,
        price_range_width: 5000,
        min_free_kilometer_width: 50,
        min_number_seats: None,
        min_price: None,
        max_price: None,
        car_type: None,
        only_vollkasko: None,
        min_free_kilometer: None,
    }
}

fn ids(db: &DBManager, q: RequestOffer) -> Vec<String> {
    db.query_for(q).unwrap().offers.into_iter().map(|o| o.ID).collect()
}

fn single_offer_store() -> DBManager {
    let mut db = DBManager::new();
    assert_eq!(db.insert_offer(&offer("A", 21, 1000, 86_401_000, 10_000, CarType::Luxury)), Ok(0));
    db
}

#[test]
fn single_offer_is_found_with_all_facets() {
    let db = single_offer_store();
    let r = db.query_for(request(0, 0, 86_401_000, 1)).unwrap();
    assert_eq!(r.offers.len(), 1);
    assert_eq!(r.offers[0].ID, "A");
    assert_eq!(r.offers[0].data, "data-A");
    assert_eq!(r.car_type_counts, CarTypeCount { small: 0, sports: 0, luxury: 1, family: 0 });
    assert_eq!(r.vollkasko_count, VollKaskoCount { true_count: 1, false_count: 0 });
    assert_eq!(r.price_ranges, vec![PriceRange { start: 10_000, end: 15_000, count: 1 }]);
    assert_eq!(r.seats_count, vec![SeatCount { number_seats: 5, count: 1 }]);
    assert_eq!(r.free_kilometer_range, vec![FreeKilometerRange { start: 100, end: 150, count: 1 }]);
}

#[test]
fn car_type_filter_still_counts_the_excluded_type() {
    let db = single_offer_store();
    let mut q = request(0, 0, 86_401_000, 1);
    q.car_type = Some(CarType::Small);
    let r = db.query_for(q).unwrap();
    assert!(r.offers.is_empty());
    assert_eq!(r.car_type_counts.luxury, 1);
    assert_eq!(r.car_type_counts.small, 0);
    // excluded by the car type alone: no other facet counts it
    assert!(r.price_ranges.is_empty());
    assert_eq!(r.vollkasko_count, VollKaskoCount { true_count: 0, false_count: 0 });
}

#[test]
fn prices_in_one_bucket_are_counted_together() {
    let mut db = DBManager::new();
    db.insert_offer(&offer("A", 21, 0, DAY, 10_000, CarType::Small)).unwrap();
    db.insert_offer(&offer("B", 21, 0, DAY, 14_999, CarType::Small)).unwrap();
    let r = db.query_for(request(0, 0, DAY, 1)).unwrap();
    assert_eq!(r.price_ranges, vec![PriceRange { start: 10_000, end: 15_000, count: 2 }]);
}

#[test]
fn equal_prices_are_ordered_by_id() {
    let mut db = DBManager::new();
    db.insert_offer(&offer("B", 21, 0, DAY, 10_000, CarType::Small)).unwrap();
    db.insert_offer(&offer("A", 21, 0, DAY, 10_000, CarType::Small)).unwrap();
    db.insert_offer(&offer("C", 21, 0, DAY, 10_001, CarType::Small)).unwrap();
    assert_eq!(ids(&db, request(0, 0, DAY, 1)), vec!["A", "B", "C"]);
}

#[test]
fn descending_order_keeps_ids_ascending_at_equal_prices() {
    let mut db = DBManager::new();
    db.insert_offer(&offer("B", 21, 0, DAY, 10_000, CarType::Small)).unwrap();
    db.insert_offer(&offer("A", 21, 0, DAY, 10_000, CarType::Small)).unwrap();
    db.insert_offer(&offer("C", 21, 0, DAY, 10_001, CarType::Small)).unwrap();
    let mut q = request(0, 0, DAY, 1);
    q.sort_order = SortOrder::PriceDesc;
    assert_eq!(ids(&db, q), vec!["C", "A", "B"]);
}

#[test]
fn region_subtree_decides_visibility() {
    let mut db = DBManager::new();
    for i in 0..7 {
        db.insert_offer(&offer(&format!("o{}", i), 58, 0, DAY, 100 + i, CarType::Family)).unwrap();
    }
    assert_eq!(db.query_for(request(0, 0, DAY, 1)).unwrap().offers.len(), 7);
    assert_eq!(db.query_for(request(21, 0, DAY, 1)).unwrap().offers.len(), 7);
    assert_eq!(db.query_for(request(58, 0, DAY, 1)).unwrap().offers.len(), 7);
    assert_eq!(db.query_for(request(22, 0, DAY, 1)).unwrap().offers.len(), 0);
    assert_eq!(db.query_for(request(2, 0, DAY, 1)).unwrap().offers.len(), 0);
}

#[test]
fn purge_empties_and_reingest_works() {
    let mut db = single_offer_store();
    db.cleanup();
    let r = db.query_for(request(0, 0, 86_401_000, 1)).unwrap();
    assert!(r.offers.is_empty());
    assert!(r.price_ranges.is_empty());
    assert!(r.seats_count.is_empty());
    assert!(r.free_kilometer_range.is_empty());
    assert_eq!(r.car_type_counts, CarTypeCount { small: 0, sports: 0, luxury: 0, family: 0 });
    assert_eq!(r.vollkasko_count, VollKaskoCount { true_count: 0, false_count: 0 });
    assert_eq!(db.insert_offer(&offer("A", 21, 1000, 86_401_000, 10_000, CarType::Luxury)), Ok(0));
    assert_eq!(ids(&db, request(0, 0, 86_401_000, 1)), vec!["A"]);
}

#[test]
fn same_id_twice_gives_two_records() {
    let mut db = DBManager::new();
    assert_eq!(db.insert_offer(&offer("X", 21, 0, DAY, 10, CarType::Small)), Ok(0));
    assert_eq!(db.insert_offer(&offer("X", 21, 0, DAY, 10, CarType::Small)), Ok(1));
    assert_eq!(ids(&db, request(0, 0, DAY, 1)), vec!["X", "X"]);
}

#[test]
fn paging_splits_the_sorted_list() {
    let mut db = DBManager::new();
    for i in 0..5u32 {
        db.insert_offer(&offer(&format!("v{}", i), 7, 0, DAY, 50 - i, CarType::Sports)).unwrap();
    }
    let mut q = request(0, 0, DAY, 1);
    q.page_size = 2;
    assert_eq!(ids(&db, q), vec!["v4", "v3"]);
    q.page = 1;
    assert_eq!(ids(&db, q), vec!["v2", "v1"]);
    q.page = 2;
    assert_eq!(ids(&db, q), vec!["v0"]);
}

#[test]
fn page_past_the_end_keeps_the_counts() {
    let mut db = DBManager::new();
    for i in 0..3u32 {
        db.insert_offer(&offer(&format!("q{}", i), 7, 0, DAY, 1000 * i, CarType::Sports)).unwrap();
    }
    let first = db.query_for(request(0, 0, DAY, 1)).unwrap();
    let mut q = request(0, 0, DAY, 1);
    q.page = 5;
    let later = db.query_for(q).unwrap();
    assert!(later.offers.is_empty());
    assert_eq!(later.car_type_counts, first.car_type_counts);
    assert_eq!(later.vollkasko_count, first.vollkasko_count);
    assert_eq!(later.price_ranges, first.price_ranges);
    assert_eq!(later.seats_count, first.seats_count);
    assert_eq!(later.free_kilometer_range, first.free_kilometer_range);
}

#[test]
fn window_that_starts_where_it_ends_finds_nothing() {
    let db = single_offer_store();
    let r = db.query_for(request(0, 1000, 1000, 1)).unwrap();
    assert!(r.offers.is_empty());
    assert_eq!(r.vollkasko_count, VollKaskoCount { true_count: 0, false_count: 0 });
}

#[test]
fn max_price_is_exclusive_and_min_price_inclusive() {
    let db = single_offer_store();
    let mut q = request(0, 0, 86_401_000, 1);
    q.max_price = Some(10_000);
    assert!(db.query_for(q).unwrap().offers.is_empty());
    let mut q = request(0, 0, 86_401_000, 1);
    q.min_price = Some(10_000);
    assert_eq!(db.query_for(q).unwrap().offers.len(), 1);
    let mut q = request(0, 0, 86_401_000, 1);
    q.max_price = Some(10_001);
    assert_eq!(db.query_for(q).unwrap().offers.len(), 1);
}

#[test]
fn window_and_duration_must_match() {
    let db = single_offer_store();
    // ends after the window
    assert!(db.query_for(request(0, 0, 86_400_999, 1)).unwrap().offers.is_empty());
    // starts before the window
    assert!(db.query_for(request(0, 1001, 90_000_000, 1)).unwrap().offers.is_empty());
    // other duration
    assert!(db.query_for(request(0, 0, 86_401_000, 2)).unwrap().offers.is_empty());
}

#[test]
fn facet_counts_add_up_to_single_axis_totals() {
    let mut db = DBManager::new();
    let mut o1 = offer("a", 21, 0, DAY, 3_000, CarType::Small);
    o1.number_seats = 2;
    o1.has_vollkasko = false;
    o1.free_kilometers = 10;
    let mut o2 = offer("b", 60, 0, DAY, 7_500, CarType::Family);
    o2.number_seats = 7;
    o2.free_kilometers = 260;
    let o3 = offer("c", 30, 0, DAY, 12_000, CarType::Sports);
    let mut o4 = offer("d", 30, 0, DAY, 12_400, CarType::Small);
    o4.number_seats = 2;
    for o in [o1, o2, o3, o4] {
        db.insert_offer(&o).unwrap();
    }
    let mut q = request(0, 0, DAY, 1);
    q.min_number_seats = Some(4);
    q.min_price = Some(5_000);
    let r = db.query_for(q).unwrap();
    // listed: b and c, the cheaper first
    let listed: Vec<String> = r.offers.iter().map(|o| o.ID.clone()).collect();
    assert_eq!(listed, vec!["b", "c"]);
    // seats facet relaxes the seats filter: b, c, d
    assert_eq!(r.seats_count, vec![SeatCount { number_seats: 2, count: 1 }, SeatCount { number_seats: 5, count: 1 }, SeatCount { number_seats: 7, count: 1 }]);
    // price facet relaxes the price filter: b, c (a fails seats too)
    assert_eq!(r.price_ranges, vec![PriceRange { start: 5_000, end: 10_000, count: 1 }, PriceRange { start: 10_000, end: 15_000, count: 1 }]);
    let car_total = r.car_type_counts.small + r.car_type_counts.sports + r.car_type_counts.luxury + r.car_type_counts.family;
    assert_eq!(car_total, 2);
    assert_eq!(r.vollkasko_count.true_count + r.vollkasko_count.false_count, 2);
    assert_eq!(r.free_kilometer_range, vec![FreeKilometerRange { start: 100, end: 150, count: 1 }, FreeKilometerRange { start: 250, end: 300, count: 1 }]);
}

#[test]
fn buckets_are_aligned_to_the_width() {
    let mut db = DBManager::new();
    db.insert_offer(&offer("a", 21, 0, DAY, 1234, CarType::Small)).unwrap();
    db.insert_offer(&offer("b", 21, 0, DAY, 999, CarType::Small)).unwrap();
    let mut q = request(0, 0, DAY, 1);
    q.price_range_width = 300;
    q.min_free_kilometer_width = 7;
    let r = db.query_for(q).unwrap();
    assert_eq!(r.price_ranges, vec![PriceRange { start: 900, end: 1200, count: 1 }, PriceRange { start: 1200, end: 1500, count: 1 }]);
    assert_eq!(r.free_kilometer_range, vec![FreeKilometerRange { start: 119, end: 126, count: 2 }]);
}

#[test]
fn vollkasko_filter_compares_the_flag() {
    let mut db = DBManager::new();
    let mut o = offer("n", 21, 0, DAY, 10, CarType::Small);
    o.has_vollkasko = false;
    db.insert_offer(&o).unwrap();
    db.insert_offer(&offer("y", 21, 0, DAY, 20, CarType::Small)).unwrap();
    let mut q = request(0, 0, DAY, 1);
    q.only_vollkasko = Some(true);
    assert_eq!(ids(&db, q), vec!["y"]);
    let r = db.query_for(q).unwrap();
    assert_eq!(r.vollkasko_count, VollKaskoCount { true_count: 1, false_count: 1 });
}

#[test]
fn invalid_requests_are_refused() {
    let db = single_offer_store();
    let mut q = request(0, 0, DAY, 1);
    q.page_size = 0;
    assert_eq!(db.query_for(q).err(), Some(QueryError::InvalidRequest));
    let mut q = request(0, 0, DAY, 1);
    q.price_range_width = 0;
    assert_eq!(db.query_for(q).err(), Some(QueryError::InvalidRequest));
    let mut q = request(0, 0, DAY, 1);
    q.min_free_kilometer_width = 0;
    assert_eq!(db.query_for(q).err(), Some(QueryError::InvalidRequest));
    assert_eq!(db.query_for(request(125, 0, DAY, 1)).err(), Some(QueryError::InvalidRequest));
    assert_eq!(db.query_for(request(0, 0, DAY, 0)).err(), Some(QueryError::InvalidRequest));
    assert_eq!(db.query_for(request(0, 10, 5, 1)).err(), Some(QueryError::InvalidRequest));
    let mut q = request(0, 0, DAY, 1);
    q.min_price = Some(5);
    q.max_price = Some(5);
    assert_eq!(db.query_for(q).err(), Some(QueryError::InvalidRequest));
}

#[test]
fn malformed_offers_are_refused() {
    let mut db = DBManager::new();
    assert_eq!(db.insert_offer(&offer("r", 125, 0, DAY, 1, CarType::Small)), Err(IngestError::UnknownRegion));
    assert_eq!(db.insert_offer(&offer("e", 3, DAY, DAY, 1, CarType::Small)), Err(IngestError::EmptyRentalPeriod));
    assert_eq!(db.insert_offer(&offer("ok", 124, 0, DAY, 1, CarType::Small)), Ok(0));
}

#[test]
fn a_refused_offer_ends_the_batch() {
    let mut db = DBManager::new();
    let batch = vec![
        offer("a", 21, 0, DAY, 10, CarType::Small),
        offer("b", 21, 0, DAY, 20, CarType::Small),
        offer("c", 200, 0, DAY, 30, CarType::Small),
        offer("d", 21, 0, DAY, 40, CarType::Small),
    ];
    assert_eq!(db.insert_offers(&batch), Err((2, IngestError::UnknownRegion)));
    assert_eq!(ids(&db, request(0, 0, DAY, 1)), vec!["a", "b"]);
    assert_eq!(db.insert_offers(&batch[3..].to_vec()), Ok(()));
    assert_eq!(ids(&db, request(0, 0, DAY, 1)), vec!["a", "b", "d"]);
}
