// Facet counts over a plain list of offers.
use vstd::prelude::*;
use fxhash::FxHashMap;
use crate::db_manager::DBManager;
use crate::db_models::Offer;
use crate::fx_map::{fx_get, fx_insert, fx_new, fx_sorted_keys};
use crate::json_models::{CarType, CarTypeCount, FreeKilometerRange, PriceRange, SeatCount, VollKaskoCount};
use crate::query_model::bucket_start;

verus! {

/// Number of offers of `s` whose insurance flag is `v`.
pub open spec fn count_vollkasko(s: Seq<Offer>, v: bool) -> nat
    decreases s.len(),
{
    if s.len() == 0 {
        0
    } else {
        count_vollkasko(s.drop_last(), v) + if s.last().has_vollkasko == v {
            1nat
        } else {
            0nat
        }
    }
}

/// Number of offers of `s` of car type `c`.
pub open spec fn count_car_type(s: Seq<Offer>, c: CarType) -> nat
    decreases s.len(),
{
    if s.len() == 0 {
        0
    } else {
        count_car_type(s.drop_last(), c) + if s.last().car_type == c {
            1nat
        } else {
            0nat
        }
    }
}

proof fn lemma_counts_le(s: Seq<Offer>)
    ensures
        count_vollkasko(s, true) <= s.len(),
        count_vollkasko(s, false) <= s.len(),
        forall|c: CarType| #[trigger] count_car_type(s, c) <= s.len(),
    decreases s.len(),
{
    if s.len() > 0 {
        lemma_counts_le(s.drop_last());
        assert forall|c: CarType| #[trigger] count_car_type(s, c) <= s.len() by {
            assert(count_car_type(s.drop_last(), c) <= s.drop_last().len());
        }
    }
}

/// Number of offers of `s` that `key` maps to `k`.
pub open spec fn count_key(s: Seq<Offer>, key: spec_fn(Offer) -> u64, k: u64) -> nat
    decreases s.len(),
{
    if s.len() == 0 {
        0
    } else {
        count_key(s.drop_last(), key, k) + if key(s.last()) == k {
            1nat
        } else {
            0nat
        }
    }
}

/// A count never exceeds the number of offers counted.
pub proof fn lemma_count_key_le(s: Seq<Offer>, key: spec_fn(Offer) -> u64, k: u64)
    ensures
        count_key(s, key, k) <= s.len(),
    decreases s.len(),
{
    if s.len() > 0 {
        lemma_count_key_le(s.drop_last(), key, k);
    }
}

/// For each key the number of offers of `s` that `key` maps to it: a key is
/// present exactly when that number is positive, and then maps to it.
pub open spec fn keyed_counts(m: Map<u64, u32>, s: Seq<Offer>, key: spec_fn(Offer) -> u64) -> bool {
    forall|k: u64|
        (#[trigger] m.contains_key(k) <==> count_key(s, key, k) > 0) && (m.contains_key(k) ==> m[k] as nat == count_key(s, key, k))
}

/// Counts the offers of `offers` by key, keeping only the keys seen.
fn count_by_key(offers: &Vec<Offer>, Ghost(key): Ghost<spec_fn(Offer) -> u64>, width: u32, by_price: bool, by_km: bool) -> (r: FxHashMap<u64, u32>)
    requires
        offers@.len() <= u32::MAX,
        width > 0,
        forall|o: Offer| #[trigger] key(o) == if by_price {
            bucket_start(o.price, width)
        } else if by_km {
            bucket_start(o.free_kilometers, width)
        } else {
            o.number_seats as u64
        },
    ensures
        keyed_counts(r@, offers@, key),
{
    let mut m: FxHashMap<u64, u32> = fx_new();
    let mut i: usize = 0;
    while i < offers.len()
        invariant
            i <= offers@.len() <= u32::MAX,
            width > 0,
            forall|o: Offer| #[trigger] key(o) == if by_price {
                bucket_start(o.price, width)
            } else if by_km {
                bucket_start(o.free_kilometers, width)
            } else {
                o.number_seats as u64
            },
            keyed_counts(m@, offers@.subrange(0, i as int), key),
        decreases offers@.len() - i,
    {
        let off = &offers[i];
        let k: u64 = if by_price {
            proof {
                assert((off.price / width) * width <= off.price) by (nonlinear_arith)
                    requires
                        width > 0,
                ;
            }
            ((off.price / width) * width) as u64
        } else if by_km {
            proof {
                assert((off.free_kilometers / width) * width <= off.free_kilometers) by (nonlinear_arith)
                    requires
                        width > 0,
                ;
            }
            ((off.free_kilometers / width) * width) as u64
        } else {
            off.number_seats as u64
        };
        let ghost s0 = offers@.subrange(0, i as int);
        let ghost s1 = offers@.subrange(0, i + 1);
        let ghost m0 = m@;
        proof {
            assert(s1.drop_last() == s0);
            assert(s1.last() == *off);
            assert(key(*off) == k);
            if m0.contains_key(k) {
                lemma_count_key_le(s0, key, k);
            }
        }
        let n: u32 = match fx_get(&m, k) {
            Some(c) => *c + 1,
            None => 1,
        };
        fx_insert(&mut m, k, n);
        proof {
            assert forall|kk: u64|
                (#[trigger] m@.contains_key(kk) <==> count_key(s1, key, kk) > 0) && (m@.contains_key(kk) ==> m@[kk] as nat == count_key(s1, key, kk)) by {
                assert(m0.contains_key(kk) <==> count_key(s0, key, kk) > 0);
            }
        }
        i += 1;
    }
    proof {
        assert(offers@.subrange(0, offers@.len() as int) == offers@);
    }
    m
}

/// The keys of `m` in ascending order, each with its count.
fn sorted_counts(m: &FxHashMap<u64, u32>) -> (r: Vec<(u64, u32)>)
    ensures
        forall|i: int, j: int| 0 <= i < j < r@.len() ==> (#[trigger] r@[i]).0 < (#[trigger] r@[j]).0,
        forall|i: int| 0 <= i < r@.len() ==> m@.contains_key((#[trigger] r@[i]).0) && r@[i].1 == m@[r@[i].0],
        forall|k: u64| #[trigger] m@.contains_key(k) ==> exists|i: int| 0 <= i < r@.len() && (#[trigger] r@[i]).0 == k,
{
    let keys = fx_sorted_keys(m);
    let mut out: Vec<(u64, u32)> = Vec::new();
    let mut i: usize = 0;
    while i < keys.len()
        invariant
            i <= keys@.len(),
            out@.len() == i,
            forall|a: int, b: int| 0 <= a < b < keys@.len() ==> keys@[a] < keys@[b],
            forall|a: int| 0 <= a < keys@.len() ==> m@.contains_key(#[trigger] keys@[a]),
            forall|a: int| 0 <= a < i ==> (#[trigger] out@[a]).0 == keys@[a] && out@[a].1 == m@[keys@[a]],
        decreases keys@.len() - i,
    {
        let k = keys[i];
        let c = match fx_get(m, k) {
            Some(c) => *c,
            None => 0,
        };
        out.push((k, c));
        i += 1;
    }
    proof {
        assert forall|k: u64| #[trigger] m@.contains_key(k) implies exists|a: int| 0 <= a < out@.len() && (#[trigger] out@[a]).0 == k by {
            assert(keys@.contains(k));
            let a = choose|a: int| 0 <= a < keys@.len() && keys@[a] == k;
            assert(out@[a].0 == k);
        }
    }
    out
}

/// A key with a positive count belongs to some offer.
proof fn lemma_count_key_witness(s: Seq<Offer>, key: spec_fn(Offer) -> u64, k: u64)
    requires
        count_key(s, key, k) > 0,
    ensures
        exists|j: int| 0 <= j < s.len() && key(#[trigger] s[j]) == k,
    decreases s.len(),
{
    if key(s.last()) != k {
        lemma_count_key_witness(s.drop_last(), key, k);
        let j = choose|j: int| 0 <= j < s.drop_last().len() && key(#[trigger] s.drop_last()[j]) == k;
        assert(s[j] == s.drop_last()[j]);
    } else {
        assert(key(s[s.len() - 1]) == k);
    }
}

/// An offer of `s` makes its key's count positive.
proof fn lemma_count_key_member(s: Seq<Offer>, key: spec_fn(Offer) -> u64, j: int)
    requires
        0 <= j < s.len(),
    ensures
        count_key(s, key, key(s[j])) > 0,
    decreases s.len(),
{
    if j < s.len() - 1 {
        assert(s.drop_last()[j] == s[j]);
        lemma_count_key_member(s.drop_last(), key, j);
    }
}

impl DBManager {
    /// Price buckets of width `price_range_width` over `offers`: ascending by
    /// start, each with the number of offers whose price falls in it; exactly the
    /// buckets that hold an offer.
    pub fn to_price_ranges_offers(offers: &Vec<Offer>, price_range_width: u32) -> (r: Vec<PriceRange>)
        requires
            offers@.len() <= u32::MAX,
            price_range_width > 0,
        ensures
            forall|i: int, j: int| 0 <= i < j < r@.len() ==> (#[trigger] r@[i]).start < (#[trigger] r@[j]).start,
            forall|i: int| 0 <= i < r@.len() ==> {
                let e = #[trigger] r@[i];
                &&& e.end == e.start + price_range_width
                &&& e.count > 0
                &&& e.count as nat == count_key(offers@, |o: Offer| bucket_start(o.price, price_range_width), e.start)
            },
            forall|j: int| 0 <= j < offers@.len() ==> exists|i: int| 0 <= i < r@.len()
                && (#[trigger] r@[i]).start == bucket_start((#[trigger] offers@[j]).price, price_range_width),
    {
        let ghost key = |o: Offer| bucket_start(o.price, price_range_width);
        let m = count_by_key(offers, Ghost(key), price_range_width, true, false);
        let t = sorted_counts(&m);
        let mut r: Vec<PriceRange> = Vec::new();
        let mut i: usize = 0;
        while i < t.len()
            invariant
                i <= t@.len(),
                r@.len() == i,
                price_range_width > 0,
                keyed_counts(m@, offers@, key),
                key == (|o: Offer| bucket_start(o.price, price_range_width)),
                forall|a: int| 0 <= a < t@.len() ==> m@.contains_key((#[trigger] t@[a]).0) && t@[a].1 == m@[t@[a].0],
                forall|a: int| 0 <= a < i ==> (#[trigger] r@[a]).start == t@[a].0 && r@[a].end == r@[a].start + price_range_width
                    && r@[a].count == t@[a].1,
            decreases t@.len() - i,
        {
            let (start, count) = t[i];
            proof {
                assert(count_key(offers@, key, start) > 0);
                lemma_count_key_witness(offers@, key, start);
                let j = choose|j: int| 0 <= j < offers@.len() && key(#[trigger] offers@[j]) == start;
                let v = offers@[j].price;
                assert((v / price_range_width) * price_range_width <= v) by (nonlinear_arith)
                    requires
                        price_range_width > 0,
                ;
            }
            r.push(PriceRange { start, end: start + price_range_width as u64, count });
            i += 1;
        }
        proof {
            assert forall|a: int, b: int| 0 <= a < b < r@.len() implies (#[trigger] r@[a]).start < (#[trigger] r@[b]).start by {
                assert(t@[a].0 < t@[b].0);
            }
            assert forall|a: int| 0 <= a < r@.len() implies {
                let e = #[trigger] r@[a];
                &&& e.end == e.start + price_range_width
                &&& e.count > 0
                &&& e.count as nat == count_key(offers@, |o: Offer| bucket_start(o.price, price_range_width), e.start)
            } by {
                let k = t@[a].0;
                assert(m@.contains_key(k));
            }
            assert forall|j: int| 0 <= j < offers@.len() implies exists|a: int| 0 <= a < r@.len()
                && (#[trigger] r@[a]).start == bucket_start((#[trigger] offers@[j]).price, price_range_width) by {
                let k = key(offers@[j]);
                lemma_count_key_member(offers@, key, j);
                assert(m@.contains_key(k));
                let a = choose|a: int| 0 <= a < t@.len() && (#[trigger] t@[a]).0 == k;
                assert(r@[a].start == k);
            }
        }
        r
    }

    /// Kilometer buckets of width `free_kilometer_width` over `offers`, in the
    /// same way as the price buckets.
    pub fn to_free_kilometers_offers(offers: &Vec<Offer>, free_kilometer_width: u32) -> (r: Vec<FreeKilometerRange>)
        requires
            offers@.len() <= u32::MAX,
            free_kilometer_width > 0,
        ensures
            forall|i: int, j: int| 0 <= i < j < r@.len() ==> (#[trigger] r@[i]).start < (#[trigger] r@[j]).start,
            forall|i: int| 0 <= i < r@.len() ==> {
                let e = #[trigger] r@[i];
                &&& e.end == e.start + free_kilometer_width
                &&& e.count > 0
                &&& e.count as nat == count_key(offers@, |o: Offer| bucket_start(o.free_kilometers, free_kilometer_width), e.start)
            },
            forall|j: int| 0 <= j < offers@.len() ==> exists|i: int| 0 <= i < r@.len()
                && (#[trigger] r@[i]).start == bucket_start((#[trigger] offers@[j]).free_kilometers, free_kilometer_width),
    {
        let ghost key = |o: Offer| bucket_start(o.free_kilometers, free_kilometer_width);
        let m = count_by_key(offers, Ghost(key), free_kilometer_width, false, true);
        let t = sorted_counts(&m);
        let mut r: Vec<FreeKilometerRange> = Vec::new();
        let mut i: usize = 0;
        while i < t.len()
            invariant
                i <= t@.len(),
                r@.len() == i,
                free_kilometer_width > 0,
                keyed_counts(m@, offers@, key),
                key == (|o: Offer| bucket_start(o.free_kilometers, free_kilometer_width)),
                forall|a: int| 0 <= a < t@.len() ==> m@.contains_key((#[trigger] t@[a]).0) && t@[a].1 == m@[t@[a].0],
                forall|a: int| 0 <= a < i ==> (#[trigger] r@[a]).start == t@[a].0 && r@[a].end == r@[a].start + free_kilometer_width
                    && r@[a].count == t@[a].1,
            decreases t@.len() - i,
        {
            let (start, count) = t[i];
            proof {
                assert(count_key(offers@, key, start) > 0);
                lemma_count_key_witness(offers@, key, start);
                let j = choose|j: int| 0 <= j < offers@.len() && key(#[trigger] offers@[j]) == start;
                let v = offers@[j].free_kilometers;
                assert((v / free_kilometer_width) * free_kilometer_width <= v) by (nonlinear_arith)
                    requires
                        free_kilometer_width > 0,
                ;
            }
            r.push(FreeKilometerRange { start, end: start + free_kilometer_width as u64, count });
            i += 1;
        }
        proof {
            assert forall|a: int, b: int| 0 <= a < b < r@.len() implies (#[trigger] r@[a]).start < (#[trigger] r@[b]).start by {
                assert(t@[a].0 < t@[b].0);
            }
            assert forall|a: int| 0 <= a < r@.len() implies {
                let e = #[trigger] r@[a];
                &&& e.end == e.start + free_kilometer_width
                &&& e.count > 0
                &&& e.count as nat == count_key(offers@, |o: Offer| bucket_start(o.free_kilometers, free_kilometer_width), e.start)
            } by {
                let k = t@[a].0;
                assert(m@.contains_key(k));
            }
            assert forall|j: int| 0 <= j < offers@.len() implies exists|a: int| 0 <= a < r@.len()
                && (#[trigger] r@[a]).start == bucket_start((#[trigger] offers@[j]).free_kilometers, free_kilometer_width) by {
                let k = key(offers@[j]);
                lemma_count_key_member(offers@, key, j);
                assert(m@.contains_key(k));
                let a = choose|a: int| 0 <= a < t@.len() && (#[trigger] t@[a]).0 == k;
                assert(r@[a].start == k);
            }
        }
        r
    }

    /// The number of offers with each number of seats, ascending by number of
    /// seats; exactly the numbers that some offer has.
    pub fn to_seat_number_offers(offers: &Vec<Offer>) -> (r: Vec<SeatCount>)
        requires
            offers@.len() <= u32::MAX,
        ensures
            forall|i: int, j: int| 0 <= i < j < r@.len() ==> (#[trigger] r@[i]).number_seats < (#[trigger] r@[j]).number_seats,
            forall|i: int| 0 <= i < r@.len() ==> {
                let e = #[trigger] r@[i];
                &&& e.count > 0
                &&& e.count as nat == count_key(offers@, |o: Offer| o.number_seats as u64, e.number_seats as u64)
            },
            forall|j: int| 0 <= j < offers@.len() ==> exists|i: int| 0 <= i < r@.len()
                && (#[trigger] r@[i]).number_seats == (#[trigger] offers@[j]).number_seats,
    {
        let ghost key = |o: Offer| o.number_seats as u64;
        let m = count_by_key(offers, Ghost(key), 1, false, false);
        let t = sorted_counts(&m);
        let mut r: Vec<SeatCount> = Vec::new();
        let mut i: usize = 0;
        while i < t.len()
            invariant
                i <= t@.len(),
                r@.len() == i,
                keyed_counts(m@, offers@, key),
                key == (|o: Offer| o.number_seats as u64),
                forall|a: int| 0 <= a < t@.len() ==> m@.contains_key((#[trigger] t@[a]).0) && t@[a].1 == m@[t@[a].0],
                forall|a: int| 0 <= a < i ==> (#[trigger] r@[a]).number_seats as u64 == t@[a].0 && r@[a].count == t@[a].1,
            decreases t@.len() - i,
        {
            let (seats, count) = t[i];
            proof {
                assert(count_key(offers@, key, seats) > 0);
                lemma_count_key_witness(offers@, key, seats);
            }
            r.push(SeatCount { count, number_seats: seats as u32 });
            i += 1;
        }
        proof {
            assert forall|a: int, b: int| 0 <= a < b < r@.len() implies (#[trigger] r@[a]).number_seats < (#[trigger] r@[b]).number_seats by {
                assert(t@[a].0 < t@[b].0);
            }
            assert forall|a: int| 0 <= a < r@.len() implies {
                let e = #[trigger] r@[a];
                &&& e.count > 0
                &&& e.count as nat == count_key(offers@, |o: Offer| o.number_seats as u64, e.number_seats as u64)
            } by {
                let k = t@[a].0;
                assert(m@.contains_key(k));
            }
            assert forall|j: int| 0 <= j < offers@.len() implies exists|a: int| 0 <= a < r@.len()
                && (#[trigger] r@[a]).number_seats == (#[trigger] offers@[j]).number_seats by {
                let k = key(offers@[j]);
                lemma_count_key_member(offers@, key, j);
                assert(m@.contains_key(k));
                let a = choose|a: int| 0 <= a < t@.len() && (#[trigger] t@[a]).0 == k;
                assert(r@[a].number_seats == offers@[j].number_seats);
            }
        }
        r
    }

    /// The number of offers with and without full-cover insurance.
    pub fn to_vollkasko_offers(offers: &Vec<Offer>) -> (r: VollKaskoCount)
        requires
            offers@.len() <= u32::MAX,
        ensures
            r.true_count as nat == count_vollkasko(offers@, true),
            r.false_count as nat == count_vollkasko(offers@, false),
    {
        let mut true_count: u32 = 0;
        let mut false_count: u32 = 0;
        let mut i: usize = 0;
        while i < offers.len()
            invariant
                i <= offers@.len() <= u32::MAX,
                true_count as nat == count_vollkasko(offers@.subrange(0, i as int), true),
                false_count as nat == count_vollkasko(offers@.subrange(0, i as int), false),
            decreases offers@.len() - i,
        {
            proof {
                let s0 = offers@.subrange(0, i as int);
                assert(offers@.subrange(0, i + 1).drop_last() == s0);
                lemma_counts_le(s0);
            }
            if offers[i].has_vollkasko {
                true_count += 1;
            } else {
                false_count += 1;
            }
            i += 1;
        }
        proof {
            assert(offers@.subrange(0, offers@.len() as int) == offers@);
        }
        VollKaskoCount { true_count, false_count }
    }

    /// The number of offers of each car type.
    pub fn to_car_type_count(offers: &Vec<Offer>) -> (r: CarTypeCount)
        requires
            offers@.len() <= u32::MAX,
        ensures
            r.small as nat == count_car_type(offers@, CarType::Small),
            r.sports as nat == count_car_type(offers@, CarType::Sports),
            r.luxury as nat == count_car_type(offers@, CarType::Luxury),
            r.family as nat == count_car_type(offers@, CarType::Family),
    {
        let mut small: u32 = 0;
        let mut sports: u32 = 0;
        let mut luxury: u32 = 0;
        let mut family: u32 = 0;
        let mut i: usize = 0;
        while i < offers.len()
            invariant
                i <= offers@.len() <= u32::MAX,
                small as nat == count_car_type(offers@.subrange(0, i as int), CarType::Small),
                sports as nat == count_car_type(offers@.subrange(0, i as int), CarType::Sports),
                luxury as nat == count_car_type(offers@.subrange(0, i as int), CarType::Luxury),
                family as nat == count_car_type(offers@.subrange(0, i as int), CarType::Family),
            decreases offers@.len() - i,
        {
            proof {
                let s0 = offers@.subrange(0, i as int);
                assert(offers@.subrange(0, i + 1).drop_last() == s0);
                lemma_counts_le(s0);
                assert(count_car_type(s0, CarType::Small) <= s0.len());
                assert(count_car_type(s0, CarType::Sports) <= s0.len());
                assert(count_car_type(s0, CarType::Luxury) <= s0.len());
                assert(count_car_type(s0, CarType::Family) <= s0.len());
            }
            match offers[i].car_type {
                CarType::Small => small += 1,
                CarType::Sports => sports += 1,
                CarType::Luxury => luxury += 1,
                CarType::Family => family += 1,
            }
            i += 1;
        }
        proof {
            assert(offers@.subrange(0, offers@.len() as int) == offers@);
        }
        CarTypeCount { small, sports, luxury, family }
    }
}

} // verus!
