// General properties of search answers, proved from the contracts of the engine.
use vstd::prelude::*;
use crate::db_manager::{candidate, lemma_matching_finite, lemma_rank_before, DBManager};
use crate::db_models::Offer;
use crate::index_tree::duration_days;
use crate::json_models::{CarType, GetReponseBodyModel, RequestOffer, SortOrder};
use crate::ordering::bytes_lt;
use crate::query_model::{
    bucket_start, counts_for_car_type, counts_for_free_km, counts_for_price, counts_for_seats,
    counts_for_vollkasko, id_bytes, included, lemma_ranks_before_total, price_ok, ranks_before,
};
use crate::regions::lemma_all_under_root;

verus! {

/// Two predicates that agree on every offer select the same candidates.
pub proof fn lemma_matching_ext(db: DBManager, q: RequestOffer, pa: spec_fn(Offer) -> bool, pb: spec_fn(Offer) -> bool)
    requires
        forall|o: Offer| #[trigger] pa(o) == pb(o),
    ensures
        db.matching(q, pa) == db.matching(q, pb),
{
    assert(db.matching(q, pa) =~= db.matching(q, pb));
}

/// A set of candidates with a positive count has a member.
proof fn lemma_matching_member(db: DBManager, q: RequestOffer, p: spec_fn(Offer) -> bool) -> (i: int)
    requires
        db.count_matching(q, p) > 0,
    ensures
        0 <= i < db.offers().len(),
        candidate(db.offers()[i], q),
        p(db.offers()[i]),
{
    lemma_matching_finite(db, q, p);
    if forall|j: int| !(#[trigger] db.matching(q, p).contains(j)) {
        assert(db.matching(q, p) =~= Set::<int>::empty());
    }
    choose|j: int| db.matching(q, p).contains(j)
}

/// The count of a predicate splits into the counts of it with `s` and with not `s`.
proof fn lemma_count_split(db: DBManager, q: RequestOffer, p: spec_fn(Offer) -> bool, s: spec_fn(Offer) -> bool)
    ensures
        db.count_matching(q, p) == db.count_matching(q, |o: Offer| p(o) && s(o)) + db.count_matching(
            q,
            |o: Offer| p(o) && !s(o),
        ),
{
    let a = db.matching(q, |o: Offer| p(o) && s(o));
    let b = db.matching(q, |o: Offer| p(o) && !s(o));
    lemma_matching_finite(db, q, |o: Offer| p(o) && s(o));
    lemma_matching_finite(db, q, |o: Offer| p(o) && !s(o));
    assert(a.disjoint(b));
    assert(a + b =~= db.matching(q, p));
    vstd::set_lib::lemma_set_disjoint_lens(a, b);
}

/// Every offer in the store is listed by a search of the root region whose time
/// window covers its rental period, whose duration is the offer's own, and which
/// sets no filter.
pub proof fn law_ingested_offer_is_listed(db: DBManager, i: int, q: RequestOffer)
    requires
        db.wf(),
        0 <= i < db.offers().len(),
        q.region_id == 0,
        q.time_range_start <= db.offers()[i].start_date,
        db.offers()[i].end_date <= q.time_range_end,
        q.number_days as u64 == duration_days(db.offers()[i].start_date, db.offers()[i].end_date),
        q.min_number_seats is None,
        q.car_type is None,
        q.only_vollkasko is None,
        q.min_free_kilometer is None,
        q.min_price is None,
        q.max_price is None,
    ensures
        db.listed(q).contains(i),
{
    let o = db.offers()[i];
    lemma_all_under_root(o.most_specific_region_id as int);
}

/// The insurance counts add up to the number of candidates that pass every filter
/// but the insurance one.
pub proof fn law_vollkasko_counts_sum(db: DBManager, q: RequestOffer, b: GetReponseBodyModel)
    requires
        db.counts_answer(q, b),
    ensures
        b.vollkasko_count.true_count + b.vollkasko_count.false_count == db.count_matching(
            q,
            |o: Offer| counts_for_vollkasko(o, q),
        ),
{
    let p = |o: Offer| counts_for_vollkasko(o, q);
    let s = |o: Offer| o.has_vollkasko;
    lemma_count_split(db, q, p, s);
    lemma_matching_ext(db, q, |o: Offer| p(o) && s(o), |o: Offer| counts_for_vollkasko(o, q) && o.has_vollkasko);
    lemma_matching_ext(db, q, |o: Offer| p(o) && !s(o), |o: Offer| counts_for_vollkasko(o, q) && !o.has_vollkasko);
}

/// The car-type counts add up to the number of candidates that pass every filter
/// but the car-type one.
pub proof fn law_car_type_counts_sum(db: DBManager, q: RequestOffer, b: GetReponseBodyModel)
    requires
        db.counts_answer(q, b),
    ensures
        b.car_type_counts.small + b.car_type_counts.sports + b.car_type_counts.luxury + b.car_type_counts.family
            == db.count_matching(q, |o: Offer| counts_for_car_type(o, q)),
{
    let p = |o: Offer| counts_for_car_type(o, q);
    let is_small = |o: Offer| o.car_type == CarType::Small;
    let is_sports = |o: Offer| o.car_type == CarType::Sports;
    let is_luxury = |o: Offer| o.car_type == CarType::Luxury;
    let not_small = |o: Offer| p(o) && !is_small(o);
    let not_small_sports = |o: Offer| not_small(o) && !is_sports(o);
    lemma_count_split(db, q, p, is_small);
    lemma_count_split(db, q, not_small, is_sports);
    lemma_count_split(db, q, not_small_sports, is_luxury);
    lemma_matching_ext(db, q, |o: Offer| p(o) && is_small(o), |o: Offer| counts_for_car_type(o, q) && o.car_type == CarType::Small);
    lemma_matching_ext(db, q, |o: Offer| not_small(o) && is_sports(o), |o: Offer| counts_for_car_type(o, q) && o.car_type == CarType::Sports);
    lemma_matching_ext(db, q, |o: Offer| not_small_sports(o) && is_luxury(o), |o: Offer| counts_for_car_type(o, q) && o.car_type == CarType::Luxury);
    lemma_matching_ext(db, q, |o: Offer| not_small_sports(o) && !is_luxury(o), |o: Offer| counts_for_car_type(o, q) && o.car_type == CarType::Family);
}

/// Sum of a sequence of counts.
pub open spec fn sum_of(s: Seq<nat>) -> nat
    decreases s.len(),
{
    if s.len() == 0 {
        0
    } else {
        sum_of(s.drop_last()) + s.last()
    }
}

/// Counts of candidates split by a key, one count per listed key: when the keys
/// ascend strictly and cover every candidate that `p` selects, the counts add up
/// to the number of those candidates.
pub proof fn lemma_keyed_counts_sum(
    db: DBManager,
    q: RequestOffer,
    p: spec_fn(Offer) -> bool,
    key: spec_fn(Offer) -> u64,
    keys: Seq<u64>,
    counts: Seq<nat>,
)
    requires
        counts.len() == keys.len(),
        forall|a: int, b: int| 0 <= a < b < keys.len() ==> keys[a] < keys[b],
        forall|k: int| 0 <= k < keys.len() ==> #[trigger] counts[k] == db.count_matching(q, |o: Offer| p(o) && key(o) == keys[k]),
        forall|i: int|
            0 <= i < db.offers().len() && candidate(#[trigger] db.offers()[i], q) && p(db.offers()[i])
            ==> exists|k: int| 0 <= k < keys.len() && keys[k] == key(db.offers()[i]),
    ensures
        sum_of(counts) == db.count_matching(q, p),
{
    lemma_keyed_prefix(db, q, p, key, keys, counts, keys.len() as int);
    assert(counts.subrange(0, counts.len() as int) == counts);
    assert(db.matching(q, |o: Offer| p(o) && exists|k: int| 0 <= k < keys.len() && keys[k] == key(o)) =~= db.matching(q, p));
}

proof fn lemma_keyed_prefix(
    db: DBManager,
    q: RequestOffer,
    p: spec_fn(Offer) -> bool,
    key: spec_fn(Offer) -> u64,
    keys: Seq<u64>,
    counts: Seq<nat>,
    n: int,
)
    requires
        0 <= n <= keys.len(),
        counts.len() == keys.len(),
        forall|a: int, b: int| 0 <= a < b < keys.len() ==> keys[a] < keys[b],
        forall|k: int| 0 <= k < keys.len() ==> #[trigger] counts[k] == db.count_matching(q, |o: Offer| p(o) && key(o) == keys[k]),
    ensures
        sum_of(counts.subrange(0, n)) == db.count_matching(q, |o: Offer| p(o) && exists|k: int| 0 <= k < n && keys[k] == key(o)),
    decreases n,
{
    let pn = |o: Offer| p(o) && exists|k: int| 0 <= k < n && keys[k] == key(o);
    if n == 0 {
        lemma_matching_finite(db, q, pn);
        assert(db.matching(q, pn) =~= Set::<int>::empty());
    } else {
        lemma_keyed_prefix(db, q, p, key, keys, counts, n - 1);
        let pm = |o: Offer| p(o) && exists|k: int| 0 <= k < n - 1 && keys[k] == key(o);
        let pk = |o: Offer| p(o) && key(o) == keys[n - 1];
        assert(counts.subrange(0, n).drop_last() == counts.subrange(0, n - 1));
        let a = db.matching(q, pm);
        let b = db.matching(q, pk);
        lemma_matching_finite(db, q, pm);
        lemma_matching_finite(db, q, pk);
        assert(a.disjoint(b)) by {
            assert forall|i: int| a.contains(i) implies !b.contains(i) by {
                let o = db.offers()[i];
                let k = choose|k: int| 0 <= k < n - 1 && keys[k] == key(o);
            }
        }
        assert forall|i: int| #[trigger] db.matching(q, pn).contains(i) <==> (a + b).contains(i) by {
            let o = db.offers()[i];
            if db.matching(q, pn).contains(i) {
                let k = choose|k: int| 0 <= k < n && keys[k] == key(o);
                if k < n - 1 {
                    assert(a.contains(i));
                }
            }
            if b.contains(i) {
                assert(0 <= n - 1 < n && keys[n - 1] == key(o));
            }
        }
        assert(db.matching(q, pn) =~= a + b);
        vstd::set_lib::lemma_set_disjoint_lens(a, b);
    }
}

/// The price buckets' counts add up to the number of candidates that pass every
/// filter but the price one.
pub proof fn law_price_counts_sum(db: DBManager, q: RequestOffer, b: GetReponseBodyModel)
    requires
        db.price_ranges_answer(q, b.price_ranges@),
    ensures
        sum_of(b.price_ranges@.map_values(|e: crate::json_models::PriceRange| e.count as nat))
            == db.count_matching(q, |o: Offer| counts_for_price(o, q)),
{
    let r = b.price_ranges@;
    let p = |o: Offer| counts_for_price(o, q);
    let key = |o: Offer| bucket_start(o.price, q.price_range_width);
    let keys = r.map_values(|e: crate::json_models::PriceRange| e.start);
    let counts = r.map_values(|e: crate::json_models::PriceRange| e.count as nat);
    assert forall|k: int| 0 <= k < keys.len() implies #[trigger] counts[k] == db.count_matching(q, |o: Offer| p(o) && key(o) == keys[k]) by {
        let e = r[k];
        lemma_matching_ext(db, q, |o: Offer| p(o) && key(o) == keys[k],
            |o: Offer| counts_for_price(o, q) && bucket_start(o.price, q.price_range_width) == e.start);
    }
    assert forall|i: int|
        0 <= i < db.offers().len() && candidate(#[trigger] db.offers()[i], q) && p(db.offers()[i])
        implies exists|k: int| 0 <= k < keys.len() && keys[k] == key(db.offers()[i]) by {
        let k = choose|k: int| 0 <= k < r.len() && (#[trigger] r[k]).start == bucket_start(db.offers()[i].price, q.price_range_width);
        assert(keys[k] == r[k].start);
    }
    lemma_keyed_counts_sum(db, q, p, key, keys, counts);
}

/// The kilometer buckets' counts add up to the number of candidates that pass
/// every filter but the kilometer one.
pub proof fn law_free_km_counts_sum(db: DBManager, q: RequestOffer, b: GetReponseBodyModel)
    requires
        db.km_ranges_answer(q, b.free_kilometer_range@),
    ensures
        sum_of(b.free_kilometer_range@.map_values(|e: crate::json_models::FreeKilometerRange| e.count as nat))
            == db.count_matching(q, |o: Offer| counts_for_free_km(o, q)),
{
    let r = b.free_kilometer_range@;
    let p = |o: Offer| counts_for_free_km(o, q);
    let key = |o: Offer| bucket_start(o.free_kilometers, q.min_free_kilometer_width);
    let keys = r.map_values(|e: crate::json_models::FreeKilometerRange| e.start);
    let counts = r.map_values(|e: crate::json_models::FreeKilometerRange| e.count as nat);
    assert forall|k: int| 0 <= k < keys.len() implies #[trigger] counts[k] == db.count_matching(q, |o: Offer| p(o) && key(o) == keys[k]) by {
        let e = r[k];
        lemma_matching_ext(db, q, |o: Offer| p(o) && key(o) == keys[k],
            |o: Offer| counts_for_free_km(o, q) && bucket_start(o.free_kilometers, q.min_free_kilometer_width) == e.start);
    }
    assert forall|i: int|
        0 <= i < db.offers().len() && candidate(#[trigger] db.offers()[i], q) && p(db.offers()[i])
        implies exists|k: int| 0 <= k < keys.len() && keys[k] == key(db.offers()[i]) by {
        let k = choose|k: int| 0 <= k < r.len() && (#[trigger] r[k]).start == bucket_start(db.offers()[i].free_kilometers, q.min_free_kilometer_width);
        assert(keys[k] == r[k].start);
    }
    lemma_keyed_counts_sum(db, q, p, key, keys, counts);
}

/// The seat counts add up to the number of candidates that pass every filter but
/// the seats one.
pub proof fn law_seat_counts_sum(db: DBManager, q: RequestOffer, b: GetReponseBodyModel)
    requires
        db.seats_answer(q, b.seats_count@),
    ensures
        sum_of(b.seats_count@.map_values(|e: crate::json_models::SeatCount| e.count as nat))
            == db.count_matching(q, |o: Offer| counts_for_seats(o, q)),
{
    let r = b.seats_count@;
    let p = |o: Offer| counts_for_seats(o, q);
    let key = |o: Offer| o.number_seats as u64;
    let keys = r.map_values(|e: crate::json_models::SeatCount| e.number_seats as u64);
    let counts = r.map_values(|e: crate::json_models::SeatCount| e.count as nat);
    assert forall|k: int| 0 <= k < keys.len() implies #[trigger] counts[k] == db.count_matching(q, |o: Offer| p(o) && key(o) == keys[k]) by {
        let e = r[k];
        lemma_matching_ext(db, q, |o: Offer| p(o) && key(o) == keys[k],
            |o: Offer| counts_for_seats(o, q) && o.number_seats == e.number_seats);
    }
    assert forall|a: int, c: int| 0 <= a < c < keys.len() implies keys[a] < keys[c] by {
        assert(r[a].number_seats < r[c].number_seats);
    }
    assert forall|i: int|
        0 <= i < db.offers().len() && candidate(#[trigger] db.offers()[i], q) && p(db.offers()[i])
        implies exists|k: int| 0 <= k < keys.len() && keys[k] == key(db.offers()[i]) by {
        let k = choose|k: int| 0 <= k < r.len() && (#[trigger] r[k]).number_seats == db.offers()[i].number_seats;
        assert(keys[k] == r[k].number_seats as u64);
    }
    lemma_keyed_counts_sum(db, q, p, key, keys, counts);
}

/// An empty store answers every search with no offers and no counts.
pub proof fn law_empty_store_answers_nothing(db: DBManager, q: RequestOffer, b: GetReponseBodyModel)
    requires
        db.offers().len() == 0,
        db.answers(q, b),
    ensures
        b.offers@.len() == 0,
        b.price_ranges@.len() == 0,
        b.free_kilometer_range@.len() == 0,
        b.seats_count@.len() == 0,
        b.car_type_counts.small == 0,
        b.car_type_counts.sports == 0,
        b.car_type_counts.luxury == 0,
        b.car_type_counts.family == 0,
        b.vollkasko_count.true_count == 0,
        b.vollkasko_count.false_count == 0,
{
    assert forall|p: spec_fn(Offer) -> bool| #[trigger] db.count_matching(q, p) == 0 by {
        assert(db.matching(q, p) =~= Set::<int>::empty());
    }
    assert(db.listed(q).len() == 0) by {
        assert(db.count_matching(q, |o: Offer| included(o, q)) == 0);
    }
    if b.price_ranges@.len() > 0 {
        let e = b.price_ranges@[0];
        assert(db.count_matching(q, |o: Offer| counts_for_price(o, q) && bucket_start(o.price, q.price_range_width) == e.start) == 0);
    }
    if b.free_kilometer_range@.len() > 0 {
        let e = b.free_kilometer_range@[0];
        assert(db.count_matching(q, |o: Offer| counts_for_free_km(o, q) && bucket_start(o.free_kilometers, q.min_free_kilometer_width) == e.start) == 0);
    }
    if b.seats_count@.len() > 0 {
        let e = b.seats_count@[0];
        assert(db.count_matching(q, |o: Offer| counts_for_seats(o, q) && o.number_seats == e.number_seats) == 0);
    }
    assert(db.count_matching(q, |o: Offer| counts_for_car_type(o, q) && o.car_type == CarType::Small) == 0);
    assert(db.count_matching(q, |o: Offer| counts_for_car_type(o, q) && o.car_type == CarType::Sports) == 0);
    assert(db.count_matching(q, |o: Offer| counts_for_car_type(o, q) && o.car_type == CarType::Luxury) == 0);
    assert(db.count_matching(q, |o: Offer| counts_for_car_type(o, q) && o.car_type == CarType::Family) == 0);
    assert(db.count_matching(q, |o: Offer| counts_for_vollkasko(o, q) && o.has_vollkasko) == 0);
    assert(db.count_matching(q, |o: Offer| counts_for_vollkasko(o, q) && !o.has_vollkasko) == 0);
}

/// Adjacent offers of a page are in order: by price (ascending, or descending for
/// `PriceDesc`), and at equal prices by ascending id bytes; only offers that share
/// an id can have equal id bytes.
pub proof fn law_page_in_order(db: DBManager, q: RequestOffer, b: GetReponseBodyModel, k: int)
    requires
        db.wf(),
        db.page_answer(q, b.offers@),
        0 <= k,
        k + 1 < b.offers@.len(),
    ensures
        ({
            let start = q.page as int * q.page_size as int;
            let x = db.offers()[db.offer_at_rank(q, start + k)];
            let y = db.offers()[db.offer_at_rank(q, start + k + 1)];
            let ids_in_order = bytes_lt(id_bytes(x), id_bytes(y)) || id_bytes(x) == id_bytes(y);
            &&& b.offers@[k].ID@ == x.id@
            &&& b.offers@[k + 1].ID@ == y.id@
            &&& q.sort_order == SortOrder::PriceAsc ==> x.price < y.price || (x.price == y.price && ids_in_order)
            &&& q.sort_order == SortOrder::PriceDesc ==> x.price > y.price || (x.price == y.price && ids_in_order)
        }),
{
    let start = q.page as int * q.page_size as int;
    let i = db.offer_at_rank(q, start + k);
    let j = db.offer_at_rank(q, start + k + 1);
    assert(b.offers@[k].ID@ == db.offers()[i].id@);
    assert(b.offers@[k + 1].ID@ == db.offers()[j].id@);
    assert(i != j);
    assert(db.offers()[i].idx == i && db.offers()[j].idx == j);
    lemma_ranks_before_total(db.offers()[i], db.offers()[j], q.sort_order);
    if ranks_before(db.offers()[j], db.offers()[i], q.sort_order) {
        lemma_rank_before(db, q, j, i);
    }
}

/// Bucket bounds are aligned: each price bucket starts at a multiple of the width
/// and spans exactly one width; likewise for kilometer buckets.
pub proof fn law_buckets_aligned(db: DBManager, q: RequestOffer, b: GetReponseBodyModel)
    requires
        db.price_ranges_answer(q, b.price_ranges@),
        db.km_ranges_answer(q, b.free_kilometer_range@),
        q.price_range_width > 0,
        q.min_free_kilometer_width > 0,
    ensures
        forall|k: int| 0 <= k < b.price_ranges@.len() ==> {
            let e = #[trigger] b.price_ranges@[k];
            e.start % (q.price_range_width as u64) == 0 && e.end - e.start == q.price_range_width
        },
        forall|k: int| 0 <= k < b.free_kilometer_range@.len() ==> {
            let e = #[trigger] b.free_kilometer_range@[k];
            e.start % (q.min_free_kilometer_width as u64) == 0 && e.end - e.start == q.min_free_kilometer_width
        },
{
    assert forall|k: int| 0 <= k < b.price_ranges@.len() implies {
        let e = #[trigger] b.price_ranges@[k];
        e.start % (q.price_range_width as u64) == 0 && e.end - e.start == q.price_range_width
    } by {
        let e = b.price_ranges@[k];
        let i = lemma_matching_member(db, q, |o: Offer| counts_for_price(o, q) && bucket_start(o.price, q.price_range_width) == e.start);
        lemma_bucket_aligned(db.offers()[i].price, q.price_range_width);
    }
    assert forall|k: int| 0 <= k < b.free_kilometer_range@.len() implies {
        let e = #[trigger] b.free_kilometer_range@[k];
        e.start % (q.min_free_kilometer_width as u64) == 0 && e.end - e.start == q.min_free_kilometer_width
    } by {
        let e = b.free_kilometer_range@[k];
        let i = lemma_matching_member(db, q, |o: Offer| counts_for_free_km(o, q) && bucket_start(o.free_kilometers, q.min_free_kilometer_width) == e.start);
        lemma_bucket_aligned(db.offers()[i].free_kilometers, q.min_free_kilometer_width);
    }
}

proof fn lemma_bucket_aligned(v: u32, w: u32)
    requires
        w > 0,
    ensures
        bucket_start(v, w) % (w as u64) == 0,
{
    let d = v / w;
    assert((d * w) % (w as int) == 0) by (nonlinear_arith)
        requires
            w > 0,
            d >= 0,
    ;
    assert(d * w <= v) by (nonlinear_arith)
        requires
            w > 0,
            d == v / w,
            v >= 0,
    ;
}

/// A page that starts at or past the number of listed offers is empty.
pub proof fn law_page_past_end(db: DBManager, q: RequestOffer, b: GetReponseBodyModel)
    requires
        db.page_answer(q, b.offers@),
        q.page as int * q.page_size as int >= db.listed(q).len(),
    ensures
        b.offers@.len() == 0,
{
}

/// The counts do not depend on the page: two searches that differ in the page
/// alone answer with the same car-type and insurance counts.
pub proof fn law_counts_ignore_page(db: DBManager, q1: RequestOffer, q2: RequestOffer, b1: GetReponseBodyModel, b2: GetReponseBodyModel)
    requires
        db.counts_answer(q1, b1),
        db.counts_answer(q2, b2),
        q1.region_id == q2.region_id,
        q1.time_range_start == q2.time_range_start,
        q1.time_range_end == q2.time_range_end,
        q1.number_days == q2.number_days,
        q1.min_number_seats == q2.min_number_seats,
        q1.min_price == q2.min_price,
        q1.max_price == q2.max_price,
        q1.car_type == q2.car_type,
        q1.only_vollkasko == q2.only_vollkasko,
        q1.min_free_kilometer == q2.min_free_kilometer,
    ensures
        b1.car_type_counts == b2.car_type_counts,
        b1.vollkasko_count == b2.vollkasko_count,
{
    assert(db.matching(q1, |o: Offer| counts_for_car_type(o, q1) && o.car_type == CarType::Small)
        =~= db.matching(q2, |o: Offer| counts_for_car_type(o, q2) && o.car_type == CarType::Small));
    assert(db.matching(q1, |o: Offer| counts_for_car_type(o, q1) && o.car_type == CarType::Sports)
        =~= db.matching(q2, |o: Offer| counts_for_car_type(o, q2) && o.car_type == CarType::Sports));
    assert(db.matching(q1, |o: Offer| counts_for_car_type(o, q1) && o.car_type == CarType::Luxury)
        =~= db.matching(q2, |o: Offer| counts_for_car_type(o, q2) && o.car_type == CarType::Luxury));
    assert(db.matching(q1, |o: Offer| counts_for_car_type(o, q1) && o.car_type == CarType::Family)
        =~= db.matching(q2, |o: Offer| counts_for_car_type(o, q2) && o.car_type == CarType::Family));
    assert(db.matching(q1, |o: Offer| counts_for_vollkasko(o, q1) && o.has_vollkasko)
        =~= db.matching(q2, |o: Offer| counts_for_vollkasko(o, q2) && o.has_vollkasko));
    assert(db.matching(q1, |o: Offer| counts_for_vollkasko(o, q1) && !o.has_vollkasko)
        =~= db.matching(q2, |o: Offer| counts_for_vollkasko(o, q2) && !o.has_vollkasko));
}

/// Two strictly ascending sequences with the same elements are equal.
proof fn lemma_ascending_same_elements(a: Seq<u64>, b: Seq<u64>)
    requires
        forall|i: int, j: int| 0 <= i < j < a.len() ==> a[i] < a[j],
        forall|i: int, j: int| 0 <= i < j < b.len() ==> b[i] < b[j],
        forall|x: u64| a.contains(x) <==> b.contains(x),
    ensures
        a == b,
    decreases a.len(),
{
    if a.len() == 0 {
        if b.len() > 0 {
            assert(b.contains(b[0]));
        }
        assert(a =~= b);
    } else {
        assert(a.contains(a.last()));
        assert(b.len() > 0);
        assert(b.contains(b.last()));
        let ka = choose|k: int| 0 <= k < b.len() && b[k] == a.last();
        let kb = choose|k: int| 0 <= k < a.len() && a[k] == b.last();
        assert(a.last() <= b.last());
        assert(b.last() <= a.last());
        let a2 = a.drop_last();
        let b2 = b.drop_last();
        assert forall|x: u64| a2.contains(x) <==> b2.contains(x) by {
            if a2.contains(x) {
                let k = choose|k: int| 0 <= k < a2.len() && a2[k] == x;
                assert(a[k] == x && x < a.last());
                assert(b.contains(x));
                let j = choose|j: int| 0 <= j < b.len() && b[j] == x;
                assert(j < b.len() - 1);
                assert(b2[j] == x);
            }
            if b2.contains(x) {
                let k = choose|k: int| 0 <= k < b2.len() && b2[k] == x;
                assert(b[k] == x && x < b.last());
                assert(a.contains(x));
                let j = choose|j: int| 0 <= j < a.len() && a[j] == x;
                assert(j < a.len() - 1);
                assert(a2[j] == x);
            }
        }
        lemma_ascending_same_elements(a2, b2);
        assert(a =~= b) by {
            assert(a == a2.push(a.last()));
            assert(b == b2.push(b.last()));
        }
    }
}

/// The bucket lists do not depend on the page either: two searches that differ
/// in the page alone answer with the same price, kilometer and seat lists.
pub proof fn law_ranges_ignore_page(db: DBManager, q1: RequestOffer, q2: RequestOffer, b1: GetReponseBodyModel, b2: GetReponseBodyModel)
    requires
        db.price_ranges_answer(q1, b1.price_ranges@),
        db.price_ranges_answer(q2, b2.price_ranges@),
        db.km_ranges_answer(q1, b1.free_kilometer_range@),
        db.km_ranges_answer(q2, b2.free_kilometer_range@),
        db.seats_answer(q1, b1.seats_count@),
        db.seats_answer(q2, b2.seats_count@),
        q1.region_id == q2.region_id,
        q1.time_range_start == q2.time_range_start,
        q1.time_range_end == q2.time_range_end,
        q1.number_days == q2.number_days,
        q1.price_range_width == q2.price_range_width,
        q1.min_free_kilometer_width == q2.min_free_kilometer_width,
        q1.min_number_seats == q2.min_number_seats,
        q1.min_price == q2.min_price,
        q1.max_price == q2.max_price,
        q1.car_type == q2.car_type,
        q1.only_vollkasko == q2.only_vollkasko,
        q1.min_free_kilometer == q2.min_free_kilometer,
    ensures
        b1.price_ranges@ == b2.price_ranges@,
        b1.free_kilometer_range@ == b2.free_kilometer_range@,
        b1.seats_count@ == b2.seats_count@,
{
    let o = db.offers();
    let w = q1.price_range_width;
    // price buckets
    let r1 = b1.price_ranges@;
    let r2 = b2.price_ranges@;
    let s1 = r1.map_values(|e: crate::json_models::PriceRange| e.start);
    let s2 = r2.map_values(|e: crate::json_models::PriceRange| e.start);
    assert forall|x: u64| s1.contains(x) <==> s2.contains(x) by {
        if s1.contains(x) {
            let k = choose|k: int| 0 <= k < s1.len() && s1[k] == x;
            let e = r1[k];
            let i = lemma_matching_member(db, q1, |o: Offer| counts_for_price(o, q1) && bucket_start(o.price, q1.price_range_width) == e.start);
            let k2 = choose|k2: int| 0 <= k2 < r2.len() && (#[trigger] r2[k2]).start == bucket_start(o[i].price, q2.price_range_width);
            assert(s2[k2] == x);
        }
        if s2.contains(x) {
            let k = choose|k: int| 0 <= k < s2.len() && s2[k] == x;
            let e = r2[k];
            let i = lemma_matching_member(db, q2, |o: Offer| counts_for_price(o, q2) && bucket_start(o.price, q2.price_range_width) == e.start);
            let k1 = choose|k1: int| 0 <= k1 < r1.len() && (#[trigger] r1[k1]).start == bucket_start(o[i].price, q1.price_range_width);
            assert(s1[k1] == x);
        }
    }
    assert forall|i: int, j: int| 0 <= i < j < s1.len() implies s1[i] < s1[j] by {
        assert(r1[i].start < r1[j].start);
    }
    assert forall|i: int, j: int| 0 <= i < j < s2.len() implies s2[i] < s2[j] by {
        assert(r2[i].start < r2[j].start);
    }
    lemma_ascending_same_elements(s1, s2);
    assert forall|k: int| 0 <= k < r1.len() implies r1[k] == r2[k] by {
        assert(s1[k] == s2[k]);
        let e1 = r1[k];
        let e2 = r2[k];
        assert(db.matching(q1, |o: Offer| counts_for_price(o, q1) && bucket_start(o.price, q1.price_range_width) == e1.start)
            =~= db.matching(q2, |o: Offer| counts_for_price(o, q2) && bucket_start(o.price, q2.price_range_width) == e2.start));
    }
    assert(r1.len() == s1.len() && r2.len() == s2.len());
    assert(r1 =~= r2);
    // kilometer buckets
    let t1 = b1.free_kilometer_range@;
    let t2 = b2.free_kilometer_range@;
    let u1 = t1.map_values(|e: crate::json_models::FreeKilometerRange| e.start);
    let u2 = t2.map_values(|e: crate::json_models::FreeKilometerRange| e.start);
    assert forall|x: u64| u1.contains(x) <==> u2.contains(x) by {
        if u1.contains(x) {
            let k = choose|k: int| 0 <= k < u1.len() && u1[k] == x;
            let e = t1[k];
            let i = lemma_matching_member(db, q1, |o: Offer| counts_for_free_km(o, q1) && bucket_start(o.free_kilometers, q1.min_free_kilometer_width) == e.start);
            let k2 = choose|k2: int| 0 <= k2 < t2.len() && (#[trigger] t2[k2]).start == bucket_start(o[i].free_kilometers, q2.min_free_kilometer_width);
            assert(u2[k2] == x);
        }
        if u2.contains(x) {
            let k = choose|k: int| 0 <= k < u2.len() && u2[k] == x;
            let e = t2[k];
            let i = lemma_matching_member(db, q2, |o: Offer| counts_for_free_km(o, q2) && bucket_start(o.free_kilometers, q2.min_free_kilometer_width) == e.start);
            let k1 = choose|k1: int| 0 <= k1 < t1.len() && (#[trigger] t1[k1]).start == bucket_start(o[i].free_kilometers, q1.min_free_kilometer_width);
            assert(u1[k1] == x);
        }
    }
    assert forall|i: int, j: int| 0 <= i < j < u1.len() implies u1[i] < u1[j] by {
        assert(t1[i].start < t1[j].start);
    }
    assert forall|i: int, j: int| 0 <= i < j < u2.len() implies u2[i] < u2[j] by {
        assert(t2[i].start < t2[j].start);
    }
    lemma_ascending_same_elements(u1, u2);
    assert forall|k: int| 0 <= k < t1.len() implies t1[k] == t2[k] by {
        assert(u1[k] == u2[k]);
        let e1 = t1[k];
        let e2 = t2[k];
        assert(db.matching(q1, |o: Offer| counts_for_free_km(o, q1) && bucket_start(o.free_kilometers, q1.min_free_kilometer_width) == e1.start)
            =~= db.matching(q2, |o: Offer| counts_for_free_km(o, q2) && bucket_start(o.free_kilometers, q2.min_free_kilometer_width) == e2.start));
    }
    assert(t1.len() == u1.len() && t2.len() == u2.len());
    assert(t1 =~= t2);
    // seat counts
    let c1 = b1.seats_count@;
    let c2 = b2.seats_count@;
    let v1 = c1.map_values(|e: crate::json_models::SeatCount| e.number_seats as u64);
    let v2 = c2.map_values(|e: crate::json_models::SeatCount| e.number_seats as u64);
    assert forall|x: u64| v1.contains(x) <==> v2.contains(x) by {
        if v1.contains(x) {
            let k = choose|k: int| 0 <= k < v1.len() && v1[k] == x;
            let e = c1[k];
            let i = lemma_matching_member(db, q1, |o: Offer| counts_for_seats(o, q1) && o.number_seats == e.number_seats);
            let k2 = choose|k2: int| 0 <= k2 < c2.len() && (#[trigger] c2[k2]).number_seats == o[i].number_seats;
            assert(v2[k2] == x);
        }
        if v2.contains(x) {
            let k = choose|k: int| 0 <= k < v2.len() && v2[k] == x;
            let e = c2[k];
            let i = lemma_matching_member(db, q2, |o: Offer| counts_for_seats(o, q2) && o.number_seats == e.number_seats);
            let k1 = choose|k1: int| 0 <= k1 < c1.len() && (#[trigger] c1[k1]).number_seats == o[i].number_seats;
            assert(v1[k1] == x);
        }
    }
    assert forall|i: int, j: int| 0 <= i < j < v1.len() implies v1[i] < v1[j] by {
        assert(c1[i].number_seats < c1[j].number_seats);
    }
    assert forall|i: int, j: int| 0 <= i < j < v2.len() implies v2[i] < v2[j] by {
        assert(c2[i].number_seats < c2[j].number_seats);
    }
    lemma_ascending_same_elements(v1, v2);
    assert forall|k: int| 0 <= k < c1.len() implies c1[k] == c2[k] by {
        assert(v1[k] == v2[k]);
        let e1 = c1[k];
        let e2 = c2[k];
        assert(db.matching(q1, |o: Offer| counts_for_seats(o, q1) && o.number_seats == e1.number_seats)
            =~= db.matching(q2, |o: Offer| counts_for_seats(o, q2) && o.number_seats == e2.number_seats));
    }
    assert(c1.len() == v1.len() && c2.len() == v2.len());
    assert(c1 =~= c2);
}

/// A time window that starts where it ends holds no offer: an offer's rental
/// period is never empty.
pub proof fn law_empty_window_has_no_candidates(db: DBManager, q: RequestOffer)
    requires
        db.wf(),
        q.time_range_start == q.time_range_end,
    ensures
        forall|i: int| 0 <= i < db.offers().len() ==> !candidate(#[trigger] db.offers()[i], q),
        db.listed(q).len() == 0,
{
    assert(db.listed(q) =~= Set::<int>::empty());
}

/// The maximum price is exclusive: an offer priced at it is filtered out.
pub proof fn law_max_price_exclusive(o: Offer, q: RequestOffer)
    requires
        q.max_price == Some(o.price),
    ensures
        !price_ok(o, q),
        !included(o, q),
{
}

/// The minimum price is inclusive: an offer priced at it passes the price filter
/// unless a maximum excludes it.
pub proof fn law_min_price_inclusive(o: Offer, q: RequestOffer)
    requires
        q.min_price == Some(o.price),
        match q.max_price {
            Some(m) => o.price < m,
            None => true,
        },
    ensures
        price_ok(o, q),
{
}

/// An offer priced at the requested maximum is never listed, so no page of the
/// answer refers to it; it is counted in the price buckets alone, and there only
/// when it passes every other filter.
pub proof fn law_max_price_offer_counts_only_for_price(db: DBManager, q: RequestOffer, i: int)
    requires
        0 <= i < db.offers().len(),
        q.max_price == Some(db.offers()[i].price),
    ensures
        !db.listed(q).contains(i),
        !counts_for_seats(db.offers()[i], q),
        !counts_for_car_type(db.offers()[i], q),
        !counts_for_vollkasko(db.offers()[i], q),
        !counts_for_free_km(db.offers()[i], q),
        counts_for_price(db.offers()[i], q) == (crate::query_model::seats_ok(db.offers()[i], q) && crate::query_model::car_type_ok(db.offers()[i], q)
            && crate::query_model::vollkasko_ok(db.offers()[i], q) && crate::query_model::free_km_ok(db.offers()[i], q)),
{
}

/// An offer priced at the requested minimum, below any requested maximum and
/// passing every other filter, is listed when it is a candidate, and counted in
/// every facet.
pub proof fn law_min_price_offer_is_listed(db: DBManager, q: RequestOffer, i: int)
    requires
        0 <= i < db.offers().len(),
        candidate(db.offers()[i], q),
        q.min_price == Some(db.offers()[i].price),
        match q.max_price {
            Some(m) => db.offers()[i].price < m,
            None => true,
        },
        crate::query_model::seats_ok(db.offers()[i], q),
        crate::query_model::car_type_ok(db.offers()[i], q),
        crate::query_model::vollkasko_ok(db.offers()[i], q),
        crate::query_model::free_km_ok(db.offers()[i], q),
    ensures
        db.listed(q).contains(i),
        counts_for_seats(db.offers()[i], q),
        counts_for_car_type(db.offers()[i], q),
        counts_for_vollkasko(db.offers()[i], q),
        counts_for_free_km(db.offers()[i], q),
        counts_for_price(db.offers()[i], q),
{
}

} // verus!
