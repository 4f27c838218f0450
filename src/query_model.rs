// What a search means: the filters, the facets and the order of listed offers.
use vstd::prelude::*;
use vstd::utf8::encode_utf8;
use crate::db_models::Offer;
use crate::json_models::{RequestOffer, SortOrder};
use crate::ordering::{bytes_lt, lemma_bytes_lt_irreflexive, lemma_bytes_lt_total, lemma_bytes_lt_transitive};

verus! {

/// The offer has at least the requested number of seats.
pub open spec fn seats_ok(o: Offer, q: RequestOffer) -> bool {
    match q.min_number_seats {
        Some(m) => o.number_seats >= m,
        None => true,
    }
}

/// The offer has the requested car type.
pub open spec fn car_type_ok(o: Offer, q: RequestOffer) -> bool {
    match q.car_type {
        Some(c) => o.car_type == c,
        None => true,
    }
}

/// The offer's full-cover insurance is as requested.
pub open spec fn vollkasko_ok(o: Offer, q: RequestOffer) -> bool {
    match q.only_vollkasko {
        Some(v) => o.has_vollkasko == v,
        None => true,
    }
}

/// The offer has at least the requested free kilometers.
pub open spec fn free_km_ok(o: Offer, q: RequestOffer) -> bool {
    match q.min_free_kilometer {
        Some(m) => o.free_kilometers >= m,
        None => true,
    }
}

/// The offer's price is at least the minimum and below the maximum.
pub open spec fn price_ok(o: Offer, q: RequestOffer) -> bool {
    &&& match q.min_price {
        Some(m) => o.price >= m,
        None => true,
    }
    &&& match q.max_price {
        Some(m) => o.price < m,
        None => true,
    }
}

/// The offer passes every optional filter: it is listed and counted in every facet.
pub open spec fn included(o: Offer, q: RequestOffer) -> bool {
    seats_ok(o, q) && car_type_ok(o, q) && vollkasko_ok(o, q) && free_km_ok(o, q) && price_ok(o, q)
}

/// Counted in the seats facet: every filter but the seats one holds.
pub open spec fn counts_for_seats(o: Offer, q: RequestOffer) -> bool {
    car_type_ok(o, q) && vollkasko_ok(o, q) && free_km_ok(o, q) && price_ok(o, q)
}

/// Counted in the car-type facet: every filter but the car-type one holds.
pub open spec fn counts_for_car_type(o: Offer, q: RequestOffer) -> bool {
    seats_ok(o, q) && vollkasko_ok(o, q) && free_km_ok(o, q) && price_ok(o, q)
}

/// Counted in the insurance facet: every filter but the insurance one holds.
pub open spec fn counts_for_vollkasko(o: Offer, q: RequestOffer) -> bool {
    seats_ok(o, q) && car_type_ok(o, q) && free_km_ok(o, q) && price_ok(o, q)
}

/// Counted in the kilometer facet: every filter but the kilometer one holds.
pub open spec fn counts_for_free_km(o: Offer, q: RequestOffer) -> bool {
    seats_ok(o, q) && car_type_ok(o, q) && vollkasko_ok(o, q) && price_ok(o, q)
}

/// Counted in the price facet: every filter but the price one holds.
pub open spec fn counts_for_price(o: Offer, q: RequestOffer) -> bool {
    seats_ok(o, q) && car_type_ok(o, q) && vollkasko_ok(o, q) && free_km_ok(o, q)
}

/// Lower bound of the bucket of width `w` that holds `v`.
pub open spec fn bucket_start(v: u32, w: u32) -> u64 {
    if w == 0 {
        0
    } else {
        ((v / w) * w) as u64
    }
}

/// The number that orders offers: the price, or its complement for descending order.
pub open spec fn sort_key(o: Offer, order: SortOrder) -> u32 {
    match order {
        SortOrder::PriceAsc => o.price,
        SortOrder::PriceDesc => (u32::MAX - o.price) as u32,
    }
}

/// The bytes of the offer's id.
pub open spec fn id_bytes(o: Offer) -> Seq<u8> {
    encode_utf8(o.id@)
}

/// `a` is listed before `b`: by sort key, then by id, then by store index.
pub open spec fn ranks_before(a: Offer, b: Offer, order: SortOrder) -> bool {
    ||| sort_key(a, order) < sort_key(b, order)
    ||| (sort_key(a, order) == sort_key(b, order) && bytes_lt(id_bytes(a), id_bytes(b)))
    ||| (sort_key(a, order) == sort_key(b, order) && id_bytes(a) == id_bytes(b) && a.idx < b.idx)
}

/// No offer ranks before itself.
pub proof fn lemma_ranks_before_irreflexive(a: Offer, order: SortOrder)
    ensures
        !ranks_before(a, a, order),
{
    lemma_bytes_lt_irreflexive(id_bytes(a));
}

/// Ranking is transitive.
pub proof fn lemma_ranks_before_transitive(a: Offer, b: Offer, c: Offer, order: SortOrder)
    requires
        ranks_before(a, b, order),
        ranks_before(b, c, order),
    ensures
        ranks_before(a, c, order),
{
    if bytes_lt(id_bytes(a), id_bytes(b)) && bytes_lt(id_bytes(b), id_bytes(c)) {
        lemma_bytes_lt_transitive(id_bytes(a), id_bytes(b), id_bytes(c));
    }
}

/// Offers with distinct store indexes are ordered one way or the other.
pub proof fn lemma_ranks_before_total(a: Offer, b: Offer, order: SortOrder)
    requires
        a.idx != b.idx,
    ensures
        ranks_before(a, b, order) || ranks_before(b, a, order),
{
    lemma_bytes_lt_total(id_bytes(a), id_bytes(b));
}

/// Never both ways.
pub proof fn lemma_ranks_before_asymmetric(a: Offer, b: Offer, order: SortOrder)
    ensures
        !(ranks_before(a, b, order) && ranks_before(b, a, order)),
{
    if ranks_before(a, b, order) && ranks_before(b, a, order) {
        lemma_ranks_before_transitive(a, b, a, order);
        lemma_ranks_before_irreflexive(a, order);
    }
}

/// Number of positions of `s` whose element satisfies `f`.
pub open spec fn seq_count(s: Seq<u32>, f: spec_fn(int) -> bool) -> nat
    decreases s.len(),
{
    if s.len() == 0 {
        0
    } else {
        seq_count(s.drop_last(), f) + if f(s.last() as int) {
            1nat
        } else {
            0nat
        }
    }
}

/// The elements of `s` that satisfy `f`, as a set of integers.
pub open spec fn elems_where(s: Seq<u32>, f: spec_fn(int) -> bool) -> Set<int> {
    Set::new(|i: int| 0 <= i <= u32::MAX && s.contains(i as u32) && f(i))
}

/// A count never exceeds the length counted over.
pub proof fn lemma_seq_count_le(s: Seq<u32>, f: spec_fn(int) -> bool)
    ensures
        seq_count(s, f) <= s.len(),
    decreases s.len(),
{
    if s.len() > 0 {
        lemma_seq_count_le(s.drop_last(), f);
    }
}

/// Over a sequence without repeats, the count is the size of the set counted.
pub proof fn lemma_seq_count_set(s: Seq<u32>, f: spec_fn(int) -> bool)
    requires
        s.no_duplicates(),
    ensures
        elems_where(s, f).finite(),
        seq_count(s, f) == elems_where(s, f).len(),
    decreases s.len(),
{
    if s.len() == 0 {
        assert(elems_where(s, f) =~= Set::<int>::empty());
    } else {
        let p = s.drop_last();
        let x = s.last();
        assert(p.no_duplicates());
        lemma_seq_count_set(p, f);
        assert(!p.contains(x)) by {
            if p.contains(x) {
                let k = choose|k: int| 0 <= k < p.len() && p[k] == x;
                assert(s[k] == s[s.len() - 1]);
            }
        }
        assert forall|y: u32| #[trigger] s.contains(y) <==> (p.contains(y) || y == x) by {
            if s.contains(y) {
                let k = choose|k: int| 0 <= k < s.len() && s[k] == y;
                if k < s.len() - 1 {
                    assert(p[k] == y);
                }
            }
            if p.contains(y) {
                let k = choose|k: int| 0 <= k < p.len() && p[k] == y;
                assert(s[k] == y);
            }
            if y == x {
                assert(s[s.len() - 1] == y);
            }
        }
        if f(x as int) {
            assert(elems_where(s, f) =~= elems_where(p, f).insert(x as int));
            assert(!elems_where(p, f).contains(x as int));
        } else {
            assert(elems_where(s, f) =~= elems_where(p, f));
        }
    }
}

/// A positive count has a witness.
pub proof fn lemma_seq_count_witness(s: Seq<u32>, f: spec_fn(int) -> bool)
    requires
        seq_count(s, f) > 0,
    ensures
        exists|k: int| 0 <= k < s.len() && f(#[trigger] s[k] as int),
    decreases s.len(),
{
    if !f(s.last() as int) {
        lemma_seq_count_witness(s.drop_last(), f);
        let k = choose|k: int| 0 <= k < s.drop_last().len() && f(#[trigger] s.drop_last()[k] as int);
        assert(s[k] == s.drop_last()[k]);
    } else {
        assert(f(s[s.len() - 1] as int));
    }
}

/// A sequence without repeats of numbers below `n` has at most `n` elements.
pub proof fn lemma_no_dup_len_bound(s: Seq<u32>, n: int)
    requires
        s.no_duplicates(),
        0 <= n,
        forall|k: int| 0 <= k < s.len() ==> (#[trigger] s[k] as int) < n,
    ensures
        s.len() <= n,
{
    let t = |i: int| true;
    lemma_seq_count_set(s, t);
    assert(seq_count(s, t) == s.len()) by {
        lemma_seq_count_all(s, t);
    }
    let r = vstd::set_lib::set_int_range(0, n);
    vstd::set_lib::lemma_int_range(0, n);
    assert(elems_where(s, t).subset_of(r)) by {
        assert forall|i: int| elems_where(s, t).contains(i) implies r.contains(i) by {
            let k = choose|k: int| 0 <= k < s.len() && s[k] == i as u32;
        }
    }
    vstd::set_lib::lemma_len_subset(elems_where(s, t), r);
}

/// Counting what always holds gives the length.
pub proof fn lemma_seq_count_all(s: Seq<u32>, f: spec_fn(int) -> bool)
    requires
        forall|i: int| #[trigger] f(i),
    ensures
        seq_count(s, f) == s.len(),
    decreases s.len(),
{
    if s.len() > 0 {
        lemma_seq_count_all(s.drop_last(), f);
    }
}

/// For each key the count of elements that `g` assigns to it: a key is present
/// exactly when that count is positive, and then maps to it.
pub open spec fn tallies(m: Map<u64, u32>, s: Seq<u32>, g: spec_fn(int, u64) -> bool) -> bool {
    forall|key: u64|
        (#[trigger] m.contains_key(key) <==> seq_count(s, |i: int| g(i, key)) > 0) && (m.contains_key(key)
            ==> m[key] as nat == seq_count(s, |i: int| g(i, key)))
}

/// One more element: the key it belongs to, if any, counts one more.
pub proof fn lemma_tallies_push(m: Map<u64, u32>, s: Seq<u32>, g: spec_fn(int, u64) -> bool, x: u32, key0: u64, hit: bool)
    requires
        tallies(m, s, g),
        hit ==> g(x as int, key0),
        forall|key: u64| #[trigger] g(x as int, key) ==> hit && key == key0,
        hit && m.contains_key(key0) ==> m[key0] < u32::MAX,
    ensures
        tallies(
            if hit {
                m.insert(key0, if m.contains_key(key0) { (m[key0] + 1) as u32 } else { 1u32 })
            } else {
                m
            },
            s.push(x),
            g,
        ),
{
    let s2 = s.push(x);
    assert(s2.drop_last() == s);
    let m2 = if hit {
        m.insert(key0, if m.contains_key(key0) { (m[key0] + 1) as u32 } else { 1u32 })
    } else {
        m
    };
    assert forall|key: u64|
        (#[trigger] m2.contains_key(key) <==> seq_count(s2, |i: int| g(i, key)) > 0) && (m2.contains_key(key)
            ==> m2[key] as nat == seq_count(s2, |i: int| g(i, key))) by {
        assert(seq_count(s2, |i: int| g(i, key)) == seq_count(s, |i: int| g(i, key)) + if g(x as int, key) {
            1nat
        } else {
            0nat
        });
        assert(m.contains_key(key) <==> seq_count(s, |i: int| g(i, key)) > 0);
    }
}

/// Number of listed offers on a page, out of `total` included ones.
pub open spec fn page_len(total: nat, page: u32, page_size: u32) -> nat {
    let start = page as nat * page_size as nat;
    if total <= start {
        0
    } else if total - start < page_size {
        (total - start) as nat
    } else {
        page_size as nat
    }
}

} // verus!
