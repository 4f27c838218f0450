use offer_search::db_manager::DBManager;
use offer_search::db_models::Offer;
use offer_search::json_models::{CarType, CarTypeCount, FreeKilometerRange, PriceRange, SeatCount, SortOrder, VollKaskoCount};
use offer_search::index_tree::IndexTree;
use offer_search::number_of_days::NumberOfDaysIndex;
use offer_search::parsing::{parse_request_offer, QueryParseError};

fn stored(idx: u32, price: u32, seats: u32, km: u32, car_type: CarType, vollkasko: bool, days: u64) -> Offer {
    Offer {
        idx,
        id: format!("id{}", idx),
        data: String::new(),
        most_specific_region_id: 21,
        start_date: 0,
        end_date: days * 86_400_000,
        number_seats: seats,
        price,
        car_type,
        has_vollkasko: vollkasko,
        free_kilometers: km,
    }
}

fn sample() -> Vec<Offer> {
    vec![
        stored(0, 10_000, 5, 120, CarType::Luxury, true, 1),
        stored(1, 14_999, 2, 99, CarType::Small, false, 2),
        stored(2, 3, 5, 151, CarType::Small, true, 1),
        stored(3, 20_000, 7, 100, CarType::Family, false, 3),
    ]
}

#[test]
fn price_ranges_of_a_list() {
    let r = DBManager::to_price_ranges_offers(&sample(), 5000);
    assert_eq!(
        r,
        vec![
            PriceRange { start: 0, end: 5000, count: 1 },
            PriceRange { start: 10_000, end: 15_000, count: 2 },
            PriceRange { start: 20_000, end: 25_000, count: 1 },
        ]
    );
}

#[test]
fn kilometer_ranges_of_a_list() {
    let r = DBManager::to_free_kilometers_offers(&sample(), 50);
    assert_eq!(
        r,
        vec![
            FreeKilometerRange { start: 50, end: 100, count: 1 },
            FreeKilometerRange { start: 100, end: 150, count: 2 },
            FreeKilometerRange { start: 150, end: 200, count: 1 },
        ]
    );
}

#[test]
fn seat_counts_of_a_list() {
    let r = DBManager::to_seat_number_offers(&sample());
    assert_eq!(
        r,
        vec![
            SeatCount { number_seats: 2, count: 1 },
            SeatCount { number_seats: 5, count: 2 },
            SeatCount { number_seats: 7, count: 1 },
        ]
    );
}

#[test]
fn insurance_and_car_type_counts_of_a_list() {
    assert_eq!(DBManager::to_vollkasko_offers(&sample()), VollKaskoCount { true_count: 2, false_count: 2 });
    assert_eq!(DBManager::to_car_type_count(&sample()), CarTypeCount { small: 2, sports: 0, luxury: 1, family: 1 });
    assert_eq!(DBManager::to_price_ranges_offers(&vec![], 10), vec![]);
}

#[test]
fn names_are_read() {
    assert_eq!(CarType::from_str("small"), Ok(CarType::Small));
    assert_eq!(CarType::from_str("sports"), Ok(CarType::Sports));
    assert_eq!(CarType::from_str("luxury"), Ok(CarType::Luxury));
    assert_eq!(CarType::from_str("family"), Ok(CarType::Family));
    assert_eq!(CarType::from_str("Family"), Err(()));
    assert_eq!(SortOrder::from_str("price-asc"), Ok(SortOrder::PriceAsc));
    assert_eq!(SortOrder::from_str("price-desc"), Ok(SortOrder::PriceDesc));
    assert_eq!(SortOrder::from_str("price"), Err(()));
    assert_eq!(SortOrder::fast_from_str("price-desc"), Ok(SortOrder::PriceDesc));
    assert_eq!(SortOrder::fast_from_str("price-asc"), Ok(SortOrder::PriceAsc));
    assert_eq!(SortOrder::fast_from_str("bogus"), Err(()));
}

#[test]
fn day_index_filters_by_duration() {
    let mut index = NumberOfDaysIndex::new();
    for o in sample() {
        index.index_offer(&o);
    }
    assert_eq!(index.filter_offers(1, &vec![3, 2, 1, 0, 9]), vec![2, 0]);
    assert_eq!(index.filter_offers(3, &vec![0, 1, 2, 3]), vec![3]);
    assert_eq!(index.filter_offers(4, &vec![0, 1, 2, 3]), Vec::<u32>::new());
    index.clear();
    assert_eq!(index.filter_offers(1, &vec![0, 2]), Vec::<u32>::new());
}

#[test]
fn test_parse_request_offer() {
    let res = parse_request_offer("minFreeKilometerWidth=50&numberDays=4&page=0&pageSize=100&priceRangeWidth=10&regionID=0&sortOrder=price-asc&timeRangeEnd=1716595200000&timeRangeStart=1716249600000").unwrap();
    assert_eq!(res.region_id, 0);
    assert_eq!(res.time_range_start, 1716249600000);
    assert_eq!(res.time_range_end, 1716595200000);
    assert_eq!(res.number_days, 4);
    assert_eq!(res.sort_order, SortOrder::PriceAsc);
    assert_eq!(res.page, 0);
    assert_eq!(res.page_size, 100);
    assert_eq!(res.price_range_width, 10);
    assert_eq!(res.min_free_kilometer_width, 50);
    assert_eq!(res.min_number_seats, None);
    assert_eq!(res.car_type, None);
}

#[test]
fn query_strings_with_filters_and_errors() {
    let base = "regionID=7&timeRangeStart=1&timeRangeEnd=2&numberDays=1&sortOrder=price-desc&page=3&pageSize=4&priceRangeWidth=5&minFreeKilometerWidth=6";
    let full = format!("{}&minNumberSeats=4&minPrice=100&maxPrice=200&carType=family&onlyVollkasko=true&minFreeKilometer=9&other=x&page=8", base);
    let r = parse_request_offer(&full).unwrap();
    assert_eq!(r.region_id, 7);
    assert_eq!(r.sort_order, SortOrder::PriceDesc);
    assert_eq!(r.page, 8);
    assert_eq!(r.min_number_seats, Some(4));
    assert_eq!(r.min_price, Some(100));
    assert_eq!(r.max_price, Some(200));
    assert_eq!(r.car_type, Some(CarType::Family));
    assert_eq!(r.only_vollkasko, Some(true));
    assert_eq!(r.min_free_kilometer, Some(9));
    let bad = |q: String| parse_request_offer(&q).err();
    assert_eq!(bad(base.replace("regionID=7", "regionID=256")), Some(QueryParseError::Malformed));
    assert_eq!(bad(base.replace("&page=3", "")), Some(QueryParseError::Malformed));
    assert_eq!(bad(base.replace("price-desc", "cheap")), Some(QueryParseError::Malformed));
    assert_eq!(bad(format!("{}&carType=van", base)), Some(QueryParseError::Malformed));
    assert_eq!(bad(format!("{}&minPrice", base)), Some(QueryParseError::Malformed));
    assert_eq!(bad(base.replace("pageSize=4", "pageSize=4x")), Some(QueryParseError::Malformed));
    assert_eq!(parse_request_offer(&format!("{}&", base)).unwrap().page_size, 4);
    assert_eq!(parse_request_offer(&base.replace("timeRangeEnd=2", "timeRangeEnd=18446744073709551615")).unwrap().time_range_end, u64::MAX);
    assert_eq!(bad(base.replace("timeRangeEnd=2", "timeRangeEnd=18446744073709551616")), Some(QueryParseError::Malformed));
}

#[test]
fn region_index_walks_the_subtree() {
    let mut tree = IndexTree::populate_with_regions();
    assert_eq!(tree.regions[21].sub_regions, vec![58, 59]);
    assert_eq!(tree.regions[0].sub_regions, vec![1, 2, 3, 4, 5, 6]);
    assert!(tree.regions[58].sub_regions.is_empty());
    let day = 86_400_000u64;
    let offers = vec![
        stored(0, 1, 1, 1, CarType::Small, true, 1),
        stored(1, 1, 1, 1, CarType::Small, true, 1),
        stored(2, 1, 1, 1, CarType::Small, true, 2),
    ];
    tree.insert_offer(58, &offers[0]);
    tree.insert_offer(22, &offers[1]);
    tree.insert_offer(58, &offers[2]);
    let mut all = tree.get_available_offers(0, 1, 0, day);
    all.sort();
    assert_eq!(all, vec![0, 1]);
    assert_eq!(tree.get_available_offers(21, 1, 0, day), vec![0]);
    assert_eq!(tree.get_available_offers(21, 2, 0, 2 * day), vec![2]);
    assert_eq!(tree.get_available_offers(23, 1, 0, day), Vec::<u32>::new());
    // the window must hold the whole rental period
    assert_eq!(tree.get_available_offers(58, 1, 0, day - 1), Vec::<u32>::new());
    tree.clear_offers();
    assert_eq!(tree.get_available_offers(0, 1, 0, day), Vec::<u32>::new());
    assert_eq!(tree.regions[21].sub_regions, vec![58, 59]);
}
