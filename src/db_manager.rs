// The dense store of offers, the store-and-index pair, ingest, purge and search.
use vstd::prelude::*;
use crate::db_models::Offer;
use crate::index_tree::{
    duration_days, entry_lt, in_window, lemma_window_contents, sorted_entries, window, IndexTree,
    IndexTreeOffer,
};
use crate::fx_map::{fx_get, fx_insert, fx_new, fx_sorted_keys};
use crate::json_models::{
    CarType, CarTypeCount, FreeKilometerRange, GetReponseBodyModel, PriceRange, RequestOffer, ResponseOffer,
    SeatCount, SortOrder, VollKaskoCount,
};
use crate::ordering::compare_bytes;
use crate::query_model::{
    bucket_start, counts_for_car_type, counts_for_free_km, counts_for_price, counts_for_seats,
    counts_for_vollkasko, elems_where, included, lemma_no_dup_len_bound, lemma_ranks_before_asymmetric,
    lemma_ranks_before_irreflexive, lemma_ranks_before_total, lemma_ranks_before_transitive,
    lemma_seq_count_all, lemma_seq_count_le, lemma_seq_count_set, lemma_seq_count_witness, lemma_tallies_push, page_len,
    ranks_before, seq_count, tallies,
};
use crate::regions::in_subtree;
use fxhash::FxHashMap;

verus! {

/// The offers, held contiguously; an offer's index is its position.
pub struct DenseStore {
    pub all: Vec<Offer>,
}

impl DenseStore {
    /// An empty store.
    pub fn new() -> (r: DenseStore)
        ensures
            r.all@.len() == 0,
    {
        DenseStore { all: Vec::new() }
    }

    /// Appends `offer` at the end of the store.
    pub fn insert(&mut self, offer: Offer)
        ensures
            final(self).all@ == old(self).all@.push(offer),
    {
        self.all.push(offer);
    }
}

/// Why an offer could not be ingested.
#[derive(Clone, Copy, Debug, PartialEq, Eq, Structural)]
pub enum IngestError {
    /// The region id names no region of the hierarchy.
    UnknownRegion,
    /// The end date is not after the start date.
    EmptyRentalPeriod,
    /// The store holds as many offers as a 32-bit index can name.
    StoreFull,
}

/// The largest number of offers that the store holds.
pub const MAX_OFFERS: usize = 0xffff_ffff;

/// Why a store holding `len` offers refuses `offer`, if it does.
pub open spec fn ingest_error(offer: crate::json_models::Offer, len: nat) -> Option<IngestError> {
    if offer.most_specific_region_ID >= 125 {
        Some(IngestError::UnknownRegion)
    } else if offer.end_date <= offer.start_date {
        Some(IngestError::EmptyRentalPeriod)
    } else if len >= MAX_OFFERS {
        Some(IngestError::StoreFull)
    } else {
        None
    }
}

/// `rec` holds `offer`, stored at index `idx`.
pub open spec fn stored_as(rec: Offer, offer: crate::json_models::Offer, idx: int) -> bool {
    &&& rec.idx == idx
    &&& rec.id@ == offer.id@
    &&& rec.data@ == offer.data@
    &&& rec.most_specific_region_id == offer.most_specific_region_ID
    &&& rec.start_date == offer.start_date
    &&& rec.end_date == offer.end_date
    &&& rec.number_seats == offer.number_seats
    &&& rec.price == offer.price
    &&& rec.car_type == offer.car_type
    &&& rec.has_vollkasko == offer.has_vollkasko
    &&& rec.free_kilometers == offer.free_kilometers
}

/// The index entry that stands for offer `o`.
pub open spec fn entry_of(o: Offer) -> IndexTreeOffer {
    IndexTreeOffer { start_date: o.start_date, end_date: o.end_date, idx: o.idx }
}

/// The offer lies in the subtree of the requested region, lasts exactly the
/// requested number of days, and its rental period lies in the time window.
pub open spec fn candidate(o: Offer, q: RequestOffer) -> bool {
    &&& in_subtree(o.most_specific_region_id as int, q.region_id as int)
    &&& duration_days(o.start_date, o.end_date) == q.number_days as u64
    &&& q.time_range_start <= o.start_date <= q.time_range_end
    &&& o.end_date <= q.time_range_end
}

/// The offer lasts exactly the requested number of days and its rental period
/// lies in the time window (the conditions of a candidate but the region).
pub open spec fn fits_window(o: Offer, q: RequestOffer) -> bool {
    &&& duration_days(o.start_date, o.end_date) == q.number_days as u64
    &&& q.time_range_start <= o.start_date <= q.time_range_end
    &&& o.end_date <= q.time_range_end
}

/// What a search that visits the distinct regions of `order` yields from a
/// consistent store and index: each offer of those regions that fits the window
/// once, and nothing else.
pub proof fn lemma_available(db: DBManager, q: RequestOffer, order: Seq<int>)
    requires
        db.wf(),
        order.no_duplicates(),
        forall|i: int| 0 <= i < order.len() ==> 0 <= #[trigger] order[i] < 125,
    ensures
        db.index_tree.windows_of(order, q.number_days as u64, q.time_range_start, q.time_range_end).no_duplicates(),
        forall|x: u32|
            #[trigger] db.index_tree.windows_of(order, q.number_days as u64, q.time_range_start, q.time_range_end).contains(x)
            <==> ((x as int) < db.offers().len() && fits_window(db.offers()[x as int], q)
                && order.contains(db.offers()[x as int].most_specific_region_id as int)),
    decreases order.len(),
{
    let d = q.number_days as u64;
    let ts = q.time_range_start;
    let te = q.time_range_end;
    let a = db.index_tree.windows_of(order, d, ts, te);
    if order.len() > 0 {
        let g = order.last();
        let rest = order.drop_last();
        assert(rest.no_duplicates());
        assert forall|i: int| 0 <= i < rest.len() implies 0 <= #[trigger] rest[i] < 125 by {
            assert(rest[i] == order[i]);
        }
        lemma_available(db, q, rest);
        assert(!rest.contains(g)) by {
            if rest.contains(g) {
                let k = choose|k: int| 0 <= k < rest.len() && rest[k] == g;
                assert(order[k] == order[order.len() - 1]);
            }
        }
        assert forall|y: int| #[trigger] order.contains(y) <==> (rest.contains(y) || y == g) by {
            if order.contains(y) {
                let k = choose|k: int| 0 <= k < order.len() && order[k] == y;
                if k < order.len() - 1 {
                    assert(rest[k] == y);
                }
            }
            if rest.contains(y) {
                let k = choose|k: int| 0 <= k < rest.len() && rest[k] == y;
                assert(order[k] == y);
            }
            if y == g {
                assert(order[order.len() - 1] == y);
            }
        }
        let prev = db.index_tree.windows_of(rest, d, ts, te);
        assert(0 <= g < 125) by {
            assert(order[order.len() - 1] == g);
        }
        let s = db.index_tree.bucket(g, d);
        let w = window(s, ts, te);
        assert forall|i: int, j: int| 0 <= i < j < s.len() implies (#[trigger] s[i]).idx != (#[trigger] s[j]).idx by {
            assert(sorted_entries(s));
            assert(entry_lt(s[i], s[j]));
            let ei = s[i];
            let ej = s[j];
            assert(ei == entry_of(db.offers()[ei.idx as int]));
            assert(ej == entry_of(db.offers()[ej.idx as int]));
        }
        lemma_window_contents(s, ts, te);
        assert forall|i: int, j: int| 0 <= i < prev.len() && 0 <= j < w.len() implies prev[i] != w[j] by {
            assert(prev.contains(prev[i]));
            assert(w.contains(w[j]));
            let k = choose|k: int| 0 <= k < s.len() && (#[trigger] s[k]).idx == w[j] && in_window(s[k], ts, te);
            assert(s[k] == entry_of(db.offers()[s[k].idx as int]));
        }
        vstd::seq_lib::lemma_no_dup_in_concat(prev, w);
        assert forall|x: u32| #[trigger] a.contains(x)
            <==> ((x as int) < db.offers().len() && fits_window(db.offers()[x as int], q)
                && order.contains(db.offers()[x as int].most_specific_region_id as int)) by {
            if prev.contains(x) {
                let k = choose|k: int| 0 <= k < prev.len() && prev[k] == x;
                assert(a[k] == x);
            }
            if w.contains(x) {
                let k = choose|k: int| 0 <= k < w.len() && w[k] == x;
                assert(a[prev.len() + k] == x);
                let i = choose|i: int| 0 <= i < s.len() && (#[trigger] s[i]).idx == x && in_window(s[i], ts, te);
                assert(s[i] == entry_of(db.offers()[s[i].idx as int]));
            }
            if a.contains(x) {
                let k = choose|k: int| 0 <= k < a.len() && a[k] == x;
                if k < prev.len() {
                    assert(prev.contains(x));
                } else {
                    assert(w[k - prev.len()] == x);
                    assert(w.contains(x));
                }
            }
            if (x as int) < db.offers().len() && fits_window(db.offers()[x as int], q)
                && db.offers()[x as int].most_specific_region_id == g {
                let o = db.offers()[x as int];
                assert(s.contains(entry_of(o)));
                let i = choose|i: int| 0 <= i < s.len() && s[i] == entry_of(o);
                assert(s[i].idx == x && in_window(s[i], ts, te));
                assert(w.contains(x));
            }
        }
    }
}

/// Decides `ranks_before` for two offers.
fn offer_ranks_before(a: &Offer, b: &Offer, order: SortOrder) -> (r: bool)
    ensures
        r == ranks_before(*a, *b, order),
{
    let (ka, kb) = match order {
        SortOrder::PriceAsc => (a.price, b.price),
        SortOrder::PriceDesc => (u32::MAX - a.price, u32::MAX - b.price),
    };
    if ka != kb {
        return ka < kb;
    }
    let c = compare_bytes(a.id.as_str().as_bytes(), b.id.as_str().as_bytes());
    if c != 0 {
        c < 0
    } else {
        a.idx < b.idx
    }
}

/// `buf` lists store indexes in strictly ascending rank.
pub open spec fn ranked(buf: Seq<u32>, offers: Seq<Offer>, order: SortOrder) -> bool {
    &&& forall|i: int| 0 <= i < buf.len() ==> (#[trigger] buf[i] as int) < offers.len()
    &&& forall|i: int, j: int|
        0 <= i < j < buf.len() ==> ranks_before(offers[#[trigger] buf[i] as int], offers[#[trigger] buf[j] as int], order)
}

/// Places `x` in the ranked buffer, which keeps at most `cap` of the best-ranked
/// indexes: an index that falls past the end is dropped.
fn insert_ranked(buf: &mut Vec<u32>, x: u32, offers: &Vec<Offer>, order: SortOrder, cap: u64)
    requires
        ranked(old(buf)@, offers@, order),
        (x as int) < offers@.len(),
        forall|i: int| 0 <= i < offers@.len() ==> (#[trigger] offers@[i]).idx == i,
        !old(buf)@.contains(x),
        old(buf)@.len() <= cap,
        cap >= 1,
    ensures
        ranked(final(buf)@, offers@, order),
        final(buf)@.len() <= cap,
        forall|y: u32| #[trigger] final(buf)@.contains(y) ==> old(buf)@.contains(y) || y == x,
        forall|y: u32|
            (old(buf)@.contains(y) || y == x) && !(#[trigger] final(buf)@.contains(y)) ==> final(buf)@.len() == cap
                && ranks_before(offers@[final(buf)@.last() as int], offers@[y as int], order),
        old(buf)@.len() == cap ==> final(buf)@.len() == cap && (final(buf)@.last() == old(buf)@.last()
            || ranks_before(offers@[final(buf)@.last() as int], offers@[old(buf)@.last() as int], order)),
        old(buf)@.len() < cap ==> final(buf)@.contains(x),
{
    let ghost b0 = buf@;
    let ghost ox = offers@[x as int];
    let mut lo: usize = 0;
    let mut hi: usize = buf.len();
    while lo < hi
        invariant
            buf@ == b0,
            ox == offers@[x as int],
            ranked(b0, offers@, order),
            (x as int) < offers@.len(),
            forall|i: int| 0 <= i < offers@.len() ==> (#[trigger] offers@[i]).idx == i,
            !b0.contains(x),
            0 <= lo <= hi <= b0.len(),
            forall|i: int| 0 <= i < lo ==> ranks_before(offers@[#[trigger] b0[i] as int], ox, order),
            forall|i: int| hi <= i < b0.len() ==> ranks_before(ox, offers@[#[trigger] b0[i] as int], order),
        decreases hi - lo,
    {
        let mid = lo + (hi - lo) / 2;
        let y = buf[mid];
        let y_first = offer_ranks_before(&offers[y as usize], &offers[x as usize], order);
        if y_first {
            proof {
                assert forall|i: int| 0 <= i <= mid implies ranks_before(offers@[#[trigger] b0[i] as int], ox, order) by {
                    assert(y == b0[mid as int]);
                    if i < mid {
                        assert(ranks_before(offers@[b0[i] as int], offers@[b0[mid as int] as int], order));
                        lemma_ranks_before_transitive(offers@[b0[i] as int], offers@[y as int], ox, order);
                    }
                }
            }
            lo = mid + 1;
        } else {
            proof {
                assert(b0[mid as int] != x);
                lemma_ranks_before_total(offers@[y as int], ox, order);
                assert forall|i: int| mid <= i < b0.len() implies ranks_before(ox, offers@[#[trigger] b0[i] as int], order) by {
                    assert(y == b0[mid as int]);
                    if i > mid {
                        assert(ranks_before(offers@[b0[mid as int] as int], offers@[b0[i] as int], order));
                        lemma_ranks_before_transitive(ox, offers@[y as int], offers@[b0[i] as int], order);
                    }
                }
            }
            hi = mid;
        }
    }
    if (lo as u64) < cap {
        buf.insert(lo, x);
        let ghost b1 = buf@;
        assert(b1 == b0.insert(lo as int, x));
        assert(ranked(b1, offers@, order)) by {
            assert forall|i: int, j: int| 0 <= i < j < b1.len()
                implies ranks_before(offers@[#[trigger] b1[i] as int], offers@[#[trigger] b1[j] as int], order) by {
                if j < lo {
                } else if i < lo && j == lo {
                } else if i < lo {
                    assert(b1[j] == b0[j - 1]);
                    lemma_ranks_before_transitive(offers@[b1[i] as int], ox, offers@[b1[j] as int], order);
                } else if i == lo {
                    assert(b1[j] == b0[j - 1]);
                } else {
                    assert(b1[i] == b0[i - 1]);
                    assert(b1[j] == b0[j - 1]);
                }
            }
        }
        assert forall|y: u32| #[trigger] b1.contains(y) <==> (b0.contains(y) || y == x) by {
            if b1.contains(y) {
                let k = choose|k: int| 0 <= k < b1.len() && b1[k] == y;
                if k < lo {
                    assert(b0[k] == y);
                } else if k > lo {
                    assert(b0[k - 1] == y);
                }
            }
            if b0.contains(y) {
                let k = choose|k: int| 0 <= k < b0.len() && b0[k] == y;
                if k < lo {
                    assert(b1[k] == y);
                } else {
                    assert(b1[k + 1] == y);
                }
            }
            if y == x {
                assert(b1[lo as int] == y);
            }
        }
        if buf.len() as u64 > cap {
            let gone = buf.pop();
            proof {
                let b2 = buf@;
                assert(b2 == b1.drop_last());
                assert(b0.len() == cap);
                assert(b1.last() == b0.last());
                assert forall|y: u32| #[trigger] b2.contains(y) implies b1.contains(y) by {
                    let k = choose|k: int| 0 <= k < b2.len() && b2[k] == y;
                    assert(b1[k] == y);
                }
                assert forall|y: u32| b1.contains(y) && !(#[trigger] b2.contains(y)) implies y == b1.last() by {
                    let k = choose|k: int| 0 <= k < b1.len() && b1[k] == y;
                    if k < b1.len() - 1 {
                        assert(b2[k] == y);
                    }
                }
                assert(ranks_before(offers@[b2.last() as int], offers@[b1.last() as int], order)) by {
                    assert(b2.last() == b1[b1.len() - 2]);
                }
                assert(b2.contains(x)) by {
                    assert(b2[lo as int] == x);
                }
            }
        } else {
            proof {
                assert(b0.len() < cap);
            }
        }
    } else {
        proof {
            assert(b0.len() == cap);
            if b0.len() > 0 {
                assert(ranks_before(offers@[b0.last() as int], ox, order)) by {
                    assert(b0.last() == b0[lo - 1]);
                }
            }
        }
    }
}

/// Adds one to the count of `key`, which starts at one.
fn bump(m: &mut FxHashMap<u64, u32>, key: u64)
    requires
        old(m)@.contains_key(key) ==> old(m)@[key] < u32::MAX,
    ensures
        final(m)@ == old(m)@.insert(key, if old(m)@.contains_key(key) { (old(m)@[key] + 1) as u32 } else { 1u32 }),
{
    let n: u32 = match fx_get(m, key) {
        Some(c) => *c + 1,
        None => 1,
    };
    fx_insert(m, key, n);
}

/// The bucket counts as ranges of width `width`, in ascending order of their start.
fn to_ranges(m: &FxHashMap<u64, u32>, width: u32) -> (r: Vec<(u64, u64, u32)>)
    requires
        forall|key: u64| #[trigger] m@.contains_key(key) ==> key <= u32::MAX,
    ensures
        forall|i: int, j: int| 0 <= i < j < r@.len() ==> (#[trigger] r@[i]).0 < (#[trigger] r@[j]).0,
        forall|i: int|
            0 <= i < r@.len() ==> {
                let e = #[trigger] r@[i];
                &&& m@.contains_key(e.0)
                &&& e.1 == e.0 + width
                &&& e.2 == m@[e.0]
            },
        forall|key: u64| #[trigger] m@.contains_key(key) ==> exists|i: int| 0 <= i < r@.len() && (#[trigger] r@[i]).0 == key,
{
    let keys = fx_sorted_keys(m);
    let mut out: Vec<(u64, u64, u32)> = Vec::new();
    let mut i: usize = 0;
    while i < keys.len()
        invariant
            i <= keys@.len(),
            out@.len() == i,
            forall|a: int, b: int| 0 <= a < b < keys@.len() ==> keys@[a] < keys@[b],
            forall|a: int| 0 <= a < keys@.len() ==> m@.contains_key(#[trigger] keys@[a]),
            forall|key: u64| #[trigger] m@.contains_key(key) ==> key <= u32::MAX,
            forall|a: int|
                0 <= a < i ==> {
                    let e = #[trigger] out@[a];
                    &&& e.0 == keys@[a]
                    &&& e.1 == e.0 + width
                    &&& e.2 == m@[e.0]
                },
        decreases keys@.len() - i,
    {
        let key = keys[i];
        let count = match fx_get(m, key) {
            Some(c) => *c,
            None => 0,
        };
        out.push((key, key + width as u64, count));
        i += 1;
    }
    proof {
        assert forall|key: u64| #[trigger] m@.contains_key(key) implies exists|a: int| 0 <= a < out@.len() && (#[trigger] out@[a]).0 == key by {
            assert(keys@.contains(key));
            let a = choose|a: int| 0 <= a < keys@.len() && keys@[a] == key;
            assert(out@[a].0 == key);
        }
    }
    out
}

/// Why a search request was refused.
#[derive(Clone, Copy, Debug, PartialEq, Eq, Structural)]
pub enum QueryError {
    /// A parameter lies outside its range: an unknown region, a zero duration,
    /// page size or bucket width, a window that ends before it starts, or a
    /// minimum price that is not below the maximum.
    InvalidRequest,
}

/// The request's parameters lie in their ranges.
pub open spec fn valid_request(q: RequestOffer) -> bool {
    &&& q.region_id < 125
    &&& q.number_days >= 1
    &&& q.page_size >= 1
    &&& q.price_range_width >= 1
    &&& q.min_free_kilometer_width >= 1
    &&& q.time_range_start <= q.time_range_end
    &&& match (q.min_price, q.max_price) {
        (Some(lo), Some(hi)) => lo < hi,
        _ => true,
    }
}

/// Decides `valid_request`.
pub fn is_valid_request(q: &RequestOffer) -> (r: bool)
    ensures
        r == valid_request(*q),
{
    let prices_ok = match (q.min_price, q.max_price) {
        (Some(lo), Some(hi)) => lo < hi,
        _ => true,
    };
    q.region_id < 125 && q.number_days >= 1 && q.page_size >= 1 && q.price_range_width >= 1
        && q.min_free_kilometer_width >= 1 && q.time_range_start <= q.time_range_end && prices_ok
}

/// A count over the search's candidates, taken along a sequence that holds each
/// candidate once, is the number of candidates counted.
proof fn lemma_count_bridge(db: DBManager, q: RequestOffer, c: Seq<u32>, f: spec_fn(int) -> bool, p: spec_fn(Offer) -> bool)
    requires
        db.wf(),
        c.no_duplicates(),
        forall|x: u32| #[trigger] c.contains(x) <==> ((x as int) < db.offers().len() && candidate(db.offers()[x as int], q)),
        forall|i: int| 0 <= i < db.offers().len() ==> #[trigger] f(i) == p(db.offers()[i]),
    ensures
        db.matching(q, p).finite(),
        seq_count(c, f) == db.count_matching(q, p),
{
    lemma_seq_count_set(c, f);
    assert forall|i: int| #[trigger] elems_where(c, f).contains(i) <==> db.matching(q, p).contains(i) by {
        if db.matching(q, p).contains(i) {
            assert(c.contains(i as u32));
        }
    }
    assert(elems_where(c, f) =~= db.matching(q, p));
}

/// The candidates that satisfy a predicate form a finite set.
pub proof fn lemma_matching_finite(db: DBManager, q: RequestOffer, p: spec_fn(Offer) -> bool)
    ensures
        db.matching(q, p).finite(),
{
    let r = vstd::set_lib::set_int_range(0, db.offers().len() as int);
    vstd::set_lib::lemma_int_range(0, db.offers().len() as int);
    assert(db.matching(q, p).subset_of(r));
    vstd::set_lib::lemma_len_subset(db.matching(q, p), r);
}

/// A listed offer that ranks before another has a smaller rank: the listed
/// offers before it are before the other too, and it is one more.
pub proof fn lemma_rank_before(db: DBManager, q: RequestOffer, a: int, b: int)
    requires
        db.listed(q).contains(a),
        db.listed(q).contains(b),
        ranks_before(db.offers()[a], db.offers()[b], q.sort_order),
    ensures
        db.rank(q, a) < db.rank(q, b),
{
    let o = db.offers();
    let order = q.sort_order;
    lemma_matching_finite(db, q, |o: Offer| included(o, q));
    let sa = Set::new(|l: int| db.listed(q).contains(l) && ranks_before(o[l], o[a], order));
    let sb = Set::new(|l: int| db.listed(q).contains(l) && ranks_before(o[l], o[b], order));
    assert(sa.insert(a).subset_of(sb)) by {
        assert forall|l: int| sa.insert(a).contains(l) implies sb.contains(l) by {
            if l != a {
                lemma_ranks_before_transitive(o[l], o[a], o[b], order);
            }
        }
    }
    lemma_ranks_before_irreflexive(o[a], order);
    assert(sb.subset_of(db.listed(q)));
    vstd::set_lib::lemma_len_subset(sb, db.listed(q));
    vstd::set_lib::lemma_len_subset(sa.insert(a), sb);
    vstd::set_lib::lemma_len_subset(sa, db.listed(q));
    assert(!sa.contains(a));
}

/// Distinct listed offers have distinct ranks.
proof fn lemma_rank_unique(db: DBManager, q: RequestOffer, i: int, j: int)
    requires
        db.wf(),
        db.listed(q).contains(i),
        db.listed(q).contains(j),
        i != j,
    ensures
        db.rank(q, i) != db.rank(q, j),
{
    lemma_ranks_before_total(db.offers()[i], db.offers()[j], q.sort_order);
    if ranks_before(db.offers()[i], db.offers()[j], q.sort_order) {
        lemma_rank_before(db, q, i, j);
    } else {
        lemma_rank_before(db, q, j, i);
    }
}

/// What the ranked buffer holds once every candidate has been seen: its `p`-th
/// index has rank `p`, and it holds every listed offer unless it is full.
proof fn lemma_buffer_ranks(db: DBManager, q: RequestOffer, buf: Seq<u32>, cap: nat)
    requires
        db.wf(),
        db.listed(q).finite(),
        ranked(buf, db.offers(), q.sort_order),
        buf.len() <= cap,
        forall|y: u32| #[trigger] buf.contains(y) ==> db.listed(q).contains(y as int),
        forall|i: int| #[trigger] db.listed(q).contains(i) && !buf.contains(i as u32) ==> buf.len() == cap
            && ranks_before(db.offers()[buf.last() as int], db.offers()[i], q.sort_order),
    ensures
        forall|p: int| 0 <= p < buf.len() ==> db.rank(q, #[trigger] buf[p] as int) == p,
        buf.len() <= db.listed(q).len(),
        buf.len() < cap ==> db.listed(q).len() == buf.len(),
{
    let o = db.offers();
    let order = q.sort_order;
    let t = |i: int| true;
    assert(buf.no_duplicates()) by {
        assert forall|a: int, b: int| 0 <= a < b < buf.len() implies buf[a] != buf[b] by {
            assert(ranks_before(o[buf[a] as int], o[buf[b] as int], order));
            if buf[a] == buf[b] {
                lemma_ranks_before_irreflexive(o[buf[a] as int], order);
            }
        }
    }
    assert forall|p: int| 0 <= p < buf.len() implies db.rank(q, #[trigger] buf[p] as int) == p by {
        let bp = buf[p] as int;
        let sub = buf.subrange(0, p);
        let sp = Set::new(|j: int| db.listed(q).contains(j) && ranks_before(o[j], o[bp], order));
        assert(sub.no_duplicates()) by {
            assert forall|a: int, b: int| 0 <= a < b < sub.len() implies sub[a] != sub[b] by {
                assert(sub[a] == buf[a] && sub[b] == buf[b]);
            }
        }
        lemma_seq_count_set(sub, t);
        lemma_seq_count_all(sub, t);
        assert forall|j: int| #[trigger] sp.contains(j) <==> elems_where(sub, t).contains(j) by {
            if sp.contains(j) {
                assert(0 <= j < o.len());
                let ju = j as u32;
                if !buf.contains(ju) {
                    if p < buf.len() - 1 {
                        assert(ranks_before(o[buf[p] as int], o[buf[buf.len() - 1] as int], order));
                        lemma_ranks_before_transitive(o[bp], o[buf.last() as int], o[j], order);
                    }
                    lemma_ranks_before_asymmetric(o[bp], o[j], order);
                } else {
                    let k = choose|k: int| 0 <= k < buf.len() && buf[k] == ju;
                    if k == p {
                        lemma_ranks_before_irreflexive(o[bp], order);
                    } else if k > p {
                        assert(ranks_before(o[buf[p] as int], o[buf[k] as int], order));
                        lemma_ranks_before_asymmetric(o[bp], o[j], order);
                    } else {
                        assert(sub[k] == ju);
                    }
                }
            }
            if elems_where(sub, t).contains(j) {
                let k = choose|k: int| 0 <= k < sub.len() && sub[k] == j as u32;
                assert(buf[k] == sub[k]);
                assert(buf.contains(buf[k]));
                assert(ranks_before(o[buf[k] as int], o[buf[p] as int], order));
            }
        }
        assert(sp =~= elems_where(sub, t));
    }
    lemma_seq_count_set(buf, t);
    lemma_seq_count_all(buf, t);
    assert(elems_where(buf, t).subset_of(db.listed(q))) by {
        assert forall|j: int| elems_where(buf, t).contains(j) implies db.listed(q).contains(j) by {
            assert(buf.contains(j as u32));
        }
    }
    vstd::set_lib::lemma_len_subset(elems_where(buf, t), db.listed(q));
    if buf.len() < cap {
        assert forall|j: int| #[trigger] db.listed(q).contains(j) implies elems_where(buf, t).contains(j) by {
            assert(0 <= j < o.len());
        }
        assert(elems_where(buf, t) =~= db.listed(q));
    }
}

fn price_ranges_of(t: &Vec<(u64, u64, u32)>) -> (r: Vec<PriceRange>)
    ensures
        r@.len() == t@.len(),
        forall|i: int| 0 <= i < r@.len() ==> {
            let e = #[trigger] r@[i];
            e.start == t@[i].0 && e.end == t@[i].1 && e.count == t@[i].2
        },
{
    let mut r: Vec<PriceRange> = Vec::new();
    let mut i: usize = 0;
    while i < t.len()
        invariant
            i <= t@.len(),
            r@.len() == i,
            forall|j: int| 0 <= j < i ==> {
                let e = #[trigger] r@[j];
                e.start == t@[j].0 && e.end == t@[j].1 && e.count == t@[j].2
            },
        decreases t@.len() - i,
    {
        let (start, end, count) = t[i];
        r.push(PriceRange { start, end, count });
        i += 1;
    }
    r
}

fn km_ranges_of(t: &Vec<(u64, u64, u32)>) -> (r: Vec<FreeKilometerRange>)
    ensures
        r@.len() == t@.len(),
        forall|i: int| 0 <= i < r@.len() ==> {
            let e = #[trigger] r@[i];
            e.start == t@[i].0 && e.end == t@[i].1 && e.count == t@[i].2
        },
{
    let mut r: Vec<FreeKilometerRange> = Vec::new();
    let mut i: usize = 0;
    while i < t.len()
        invariant
            i <= t@.len(),
            r@.len() == i,
            forall|j: int| 0 <= j < i ==> {
                let e = #[trigger] r@[j];
                e.start == t@[j].0 && e.end == t@[j].1 && e.count == t@[j].2
            },
        decreases t@.len() - i,
    {
        let (start, end, count) = t[i];
        r.push(FreeKilometerRange { start, end, count });
        i += 1;
    }
    r
}

fn seat_counts_of(t: &Vec<(u64, u64, u32)>) -> (r: Vec<SeatCount>)
    requires
        forall|i: int| 0 <= i < t@.len() ==> (#[trigger] t@[i]).0 <= u32::MAX,
    ensures
        r@.len() == t@.len(),
        forall|i: int| 0 <= i < r@.len() ==> {
            let e = #[trigger] r@[i];
            e.number_seats == t@[i].0 && e.count == t@[i].2
        },
{
    let mut r: Vec<SeatCount> = Vec::new();
    let mut i: usize = 0;
    while i < t.len()
        invariant
            i <= t@.len(),
            r@.len() == i,
            forall|j: int| 0 <= j < t@.len() ==> (#[trigger] t@[j]).0 <= u32::MAX,
            forall|j: int| 0 <= j < i ==> {
                let e = #[trigger] r@[j];
                e.number_seats == t@[j].0 && e.count == t@[j].2
            },
        decreases t@.len() - i,
    {
        let (key, _end, count) = t[i];
        r.push(SeatCount { count, number_seats: key as u32 });
        i += 1;
    }
    r
}

proof fn lemma_bucket_start_le(v: u32, w: u32)
    requires
        w > 0,
    ensures
        (v / w) * w <= v,
        bucket_start(v, w) == (v / w) * w,
{
    assert((v / w) * w <= v) by (nonlinear_arith)
        requires
            w > 0,
            v >= 0,
    ;
}

/// The tally of one key, taken along a sequence that holds each candidate once,
/// is the number of candidates that the key's predicate counts.
proof fn lemma_tally_bridge(
    db: DBManager,
    q: RequestOffer,
    c: Seq<u32>,
    m: Map<u64, u32>,
    g: spec_fn(int, u64) -> bool,
    key: u64,
    p: spec_fn(Offer) -> bool,
)
    requires
        db.wf(),
        c.no_duplicates(),
        forall|x: u32| #[trigger] c.contains(x) <==> ((x as int) < db.offers().len() && candidate(db.offers()[x as int], q)),
        tallies(m, c, g),
        forall|i: int| 0 <= i < db.offers().len() ==> #[trigger] g(i, key) == p(db.offers()[i]),
    ensures
        db.matching(q, p).finite(),
        m.contains_key(key) <==> db.count_matching(q, p) > 0,
        m.contains_key(key) ==> m[key] as nat == db.count_matching(q, p),
{
    let f = |i: int| g(i, key);
    lemma_count_bridge(db, q, c, f, p);
    assert(m.contains_key(key) <==> seq_count(c, |i: int| g(i, key)) > 0);
}

/// A set that holds a member is not empty.
proof fn lemma_member_count(db: DBManager, q: RequestOffer, p: spec_fn(Offer) -> bool, i: int)
    requires
        db.matching(q, p).finite(),
        0 <= i < db.offers().len(),
        candidate(db.offers()[i], q),
        p(db.offers()[i]),
    ensures
        db.count_matching(q, p) > 0,
{
    assert(db.matching(q, p).contains(i));
    if db.matching(q, p).len() == 0 {
        db.matching(q, p).lemma_len0_is_empty();
    }
}

/// The region index together with the store of offers it refers to.
pub struct DBManager {
    pub index_tree: IndexTree,
    pub dense_store: DenseStore,
}

impl DBManager {
    /// The offers of the store, in order of their index.
    pub open spec fn offers(self) -> Seq<Offer> {
        self.dense_store.all@
    }

    /// Store and index agree: every offer knows its index and lies in a known
    /// region with a non-empty rental period; every index entry refers to the
    /// offer it copies the dates of, in the bucket of that offer's region and
    /// duration; and every offer has its entry.
    pub open spec fn wf(self) -> bool {
        &&& self.index_tree.wf()
        &&& self.offers().len() <= MAX_OFFERS
        &&& forall|i: int| 0 <= i < self.offers().len() ==> {
            let o = #[trigger] self.offers()[i];
            &&& o.idx == i
            &&& o.most_specific_region_id < 125
            &&& o.start_date < o.end_date
            &&& self.index_tree.bucket(o.most_specific_region_id as int, duration_days(o.start_date, o.end_date)).contains(
                entry_of(o),
            )
        }
        &&& forall|r: int, d: u64, j: int|
            0 <= r < 125 && 0 <= j < self.index_tree.bucket(r, d).len() ==> {
                let e = #[trigger] self.index_tree.bucket(r, d)[j];
                &&& (e.idx as int) < self.offers().len()
                &&& self.offers()[e.idx as int].most_specific_region_id == r
                &&& duration_days(self.offers()[e.idx as int].start_date, self.offers()[e.idx as int].end_date) == d
                &&& e == entry_of(self.offers()[e.idx as int])
            }
    }

    /// Store indexes of the candidate offers of `q` that satisfy `p`.
    pub open spec fn matching(self, q: RequestOffer, p: spec_fn(Offer) -> bool) -> Set<int> {
        Set::new(|i: int| 0 <= i < self.offers().len() && candidate(self.offers()[i], q) && p(self.offers()[i]))
    }

    /// Number of candidate offers of `q` that satisfy `p`.
    pub open spec fn count_matching(self, q: RequestOffer, p: spec_fn(Offer) -> bool) -> nat {
        self.matching(q, p).len()
    }

    /// Store indexes of the offers that `q` lists: candidates that pass every filter.
    pub open spec fn listed(self, q: RequestOffer) -> Set<int> {
        self.matching(q, |o: Offer| included(o, q))
    }

    /// Number of listed offers that rank before offer `i`.
    pub open spec fn rank(self, q: RequestOffer, i: int) -> nat {
        Set::new(|j: int| self.listed(q).contains(j) && ranks_before(self.offers()[j], self.offers()[i], q.sort_order)).len()
    }

    /// The listed offer with `n` listed offers before it.
    pub open spec fn offer_at_rank(self, q: RequestOffer, n: int) -> int {
        choose|i: int| self.listed(q).contains(i) && self.rank(q, i) == n
    }

    /// Car-type and insurance counts: each counts the candidates that pass every
    /// filter but its own, split by the facet's value.
    pub open spec fn counts_answer(self, q: RequestOffer, b: GetReponseBodyModel) -> bool {
        &&& b.car_type_counts.small as nat == self.count_matching(q, |o: Offer| counts_for_car_type(o, q) && o.car_type == CarType::Small)
        &&& b.car_type_counts.sports as nat == self.count_matching(q, |o: Offer| counts_for_car_type(o, q) && o.car_type == CarType::Sports)
        &&& b.car_type_counts.luxury as nat == self.count_matching(q, |o: Offer| counts_for_car_type(o, q) && o.car_type == CarType::Luxury)
        &&& b.car_type_counts.family as nat == self.count_matching(q, |o: Offer| counts_for_car_type(o, q) && o.car_type == CarType::Family)
        &&& b.vollkasko_count.true_count as nat == self.count_matching(q, |o: Offer| counts_for_vollkasko(o, q) && o.has_vollkasko)
        &&& b.vollkasko_count.false_count as nat == self.count_matching(q, |o: Offer| counts_for_vollkasko(o, q) && !o.has_vollkasko)
    }

    /// Price buckets: ascending by start; each non-empty bucket
    /// `[start, start + width)` counts the candidates that pass every filter but
    /// the price one and whose price falls in it; every such candidate's bucket is listed.
    pub open spec fn price_ranges_answer(self, q: RequestOffer, r: Seq<PriceRange>) -> bool {
        &&& forall|i: int, j: int| 0 <= i < j < r.len() ==> (#[trigger] r[i]).start < (#[trigger] r[j]).start
        &&& forall|i: int| 0 <= i < r.len() ==> {
            let e = #[trigger] r[i];
            &&& e.end == e.start + q.price_range_width
            &&& e.count > 0
            &&& e.count as nat == self.count_matching(q, |o: Offer| counts_for_price(o, q) && bucket_start(o.price, q.price_range_width) == e.start)
        }
        &&& forall|i: int|
            0 <= i < self.offers().len() && candidate(#[trigger] self.offers()[i], q) && counts_for_price(self.offers()[i], q)
            ==> exists|k: int| 0 <= k < r.len() && (#[trigger] r[k]).start == bucket_start(self.offers()[i].price, q.price_range_width)
    }

    /// Free-kilometer buckets, in the same way as the price buckets.
    pub open spec fn km_ranges_answer(self, q: RequestOffer, r: Seq<FreeKilometerRange>) -> bool {
        &&& forall|i: int, j: int| 0 <= i < j < r.len() ==> (#[trigger] r[i]).start < (#[trigger] r[j]).start
        &&& forall|i: int| 0 <= i < r.len() ==> {
            let e = #[trigger] r[i];
            &&& e.end == e.start + q.min_free_kilometer_width
            &&& e.count > 0
            &&& e.count as nat == self.count_matching(q, |o: Offer| counts_for_free_km(o, q) && bucket_start(o.free_kilometers, q.min_free_kilometer_width) == e.start)
        }
        &&& forall|i: int|
            0 <= i < self.offers().len() && candidate(#[trigger] self.offers()[i], q) && counts_for_free_km(self.offers()[i], q)
            ==> exists|k: int| 0 <= k < r.len() && (#[trigger] r[k]).start == bucket_start(self.offers()[i].free_kilometers, q.min_free_kilometer_width)
    }

    /// Seat counts: ascending by number of seats; each counts the candidates that
    /// pass every filter but the seats one and have that many seats; every such
    /// candidate's number of seats is listed.
    pub open spec fn seats_answer(self, q: RequestOffer, r: Seq<SeatCount>) -> bool {
        &&& forall|i: int, j: int| 0 <= i < j < r.len() ==> (#[trigger] r[i]).number_seats < (#[trigger] r[j]).number_seats
        &&& forall|i: int| 0 <= i < r.len() ==> {
            let e = #[trigger] r[i];
            &&& e.count > 0
            &&& e.count as nat == self.count_matching(q, |o: Offer| counts_for_seats(o, q) && o.number_seats == e.number_seats)
        }
        &&& forall|i: int|
            0 <= i < self.offers().len() && candidate(#[trigger] self.offers()[i], q) && counts_for_seats(self.offers()[i], q)
            ==> exists|k: int| 0 <= k < r.len() && (#[trigger] r[k]).number_seats == self.offers()[i].number_seats
    }

    /// The page: the listed offers of rank `page * page_size` onwards, at most
    /// `page_size` of them, in rank order.
    pub open spec fn page_answer(self, q: RequestOffer, r: Seq<ResponseOffer>) -> bool {
        &&& r.len() == page_len(self.listed(q).len(), q.page, q.page_size)
        &&& forall|k: int| 0 <= k < r.len() ==> {
            let i = self.offer_at_rank(q, q.page as int * q.page_size as int + k);
            &&& (#[trigger] r[k]).ID@ == self.offers()[i].id@
            &&& r[k].data@ == self.offers()[i].data@
            &&& self.listed(q).contains(i)
            &&& self.rank(q, i) == q.page as int * q.page_size as int + k
        }
    }

    /// `b` is the answer to `q`: its counts, bucket lists and page are as above.
    pub open spec fn answers(self, q: RequestOffer, b: GetReponseBodyModel) -> bool {
        &&& self.counts_answer(q, b)
        &&& self.price_ranges_answer(q, b.price_ranges@)
        &&& self.km_ranges_answer(q, b.free_kilometer_range@)
        &&& self.seats_answer(q, b.seats_count@)
        &&& self.page_answer(q, b.offers@)
    }

    /// Answers a search: walks the candidates once, counting each facet from the
    /// candidates that pass every filter but that facet's own, and keeping the
    /// best-ranked listed offers up to the end of the requested page.
    #[verifier::rlimit(60)]
    pub fn query_for(&self, request_offer: RequestOffer) -> (r: Result<GetReponseBodyModel, QueryError>)
        requires
            self.wf(),
        ensures
            r.is_err() <==> !valid_request(request_offer),
            r matches Ok(b) ==> self.answers(request_offer, b),
    {
        let q = request_offer;
        if !is_valid_request(&q) {
            return Err(QueryError::InvalidRequest);
        }
        let cands = self.index_tree.get_available_offers(q.region_id, q.number_days as u64, q.time_range_start, q.time_range_end);
        let ghost c = cands@;
        let ghost o = self.offers();
        proof {
            let order = choose|order: Seq<int>|
                {
                    &&& order.no_duplicates()
                    &&& forall|g: int| #[trigger] order.contains(g) <==> (0 <= g < 125 && in_subtree(g, q.region_id as int))
                    &&& c == self.index_tree.windows_of(order, q.number_days as u64, q.time_range_start, q.time_range_end)
                };
            assert forall|i: int| 0 <= i < order.len() implies 0 <= #[trigger] order[i] < 125 by {
                assert(order.contains(order[i]));
            }
            lemma_available(*self, q, order);
            assert forall|x: u32| #[trigger] c.contains(x) <==> ((x as int) < o.len() && candidate(o[x as int], q)) by {
                if (x as int) < o.len() {
                    assert(o[x as int].most_specific_region_id < 125);
                }
            }
            assert forall|k: int| 0 <= k < c.len() implies (#[trigger] c[k] as int) < o.len() by {
                assert(c.contains(c[k]));
            }
            lemma_no_dup_len_bound(c, o.len() as int);
        }
        let ghost f_small = |i: int| counts_for_car_type(o[i], q) && o[i].car_type == CarType::Small;
        let ghost f_sports = |i: int| counts_for_car_type(o[i], q) && o[i].car_type == CarType::Sports;
        let ghost f_luxury = |i: int| counts_for_car_type(o[i], q) && o[i].car_type == CarType::Luxury;
        let ghost f_family = |i: int| counts_for_car_type(o[i], q) && o[i].car_type == CarType::Family;
        let ghost f_vk_true = |i: int| counts_for_vollkasko(o[i], q) && o[i].has_vollkasko;
        let ghost f_vk_false = |i: int| counts_for_vollkasko(o[i], q) && !o[i].has_vollkasko;
        let ghost g_price = |i: int, key: u64| counts_for_price(o[i], q) && bucket_start(o[i].price, q.price_range_width) == key;
        let ghost g_km = |i: int, key: u64|
            counts_for_free_km(o[i], q) && bucket_start(o[i].free_kilometers, q.min_free_kilometer_width) == key;
        let ghost g_seats = |i: int, key: u64| counts_for_seats(o[i], q) && o[i].number_seats as u64 == key;
        let ghost f_listed = |i: int| included(o[i], q);

        let mut car_type_count = CarTypeCount { small: 0, sports: 0, luxury: 0, family: 0 };
        let mut vollkasko_count = VollKaskoCount { true_count: 0, false_count: 0 };
        let mut price_map: FxHashMap<u64, u32> = fx_new();
        let mut km_map: FxHashMap<u64, u32> = fx_new();
        let mut seats_map: FxHashMap<u64, u32> = fx_new();
        let mut page_buf: Vec<u32> = Vec::new();
        proof {
            let a = q.page as int + 1;
            let b = q.page_size as int;
            assert(a * b <= 0x1_0000_0000 * 0xffff_ffff && a * b >= 1 && a * b == (a - 1) * b + b
                && (a - 1) * b <= a * b) by (nonlinear_arith)
                requires
                    1 <= a <= 0x1_0000_0000,
                    1 <= b <= 0xffff_ffff,
            ;
        }
        let cap: u64 = (q.page as u64 + 1) * (q.page_size as u64);
        let all = &self.dense_store.all;

        let mut k: usize = 0;
        while k < cands.len()
            invariant
                self.wf(),
                valid_request(q),
                cands@ == c,
                o == self.offers(),
                all@ == o,
                c.no_duplicates(),
                c.len() <= o.len() <= MAX_OFFERS,
                forall|x: u32| #[trigger] c.contains(x) <==> ((x as int) < o.len() && candidate(o[x as int], q)),
                k <= c.len(),
                cap == (q.page as int + 1) * (q.page_size as int),
                cap >= 1,
                f_small == (|i: int| counts_for_car_type(o[i], q) && o[i].car_type == CarType::Small),
                f_sports == (|i: int| counts_for_car_type(o[i], q) && o[i].car_type == CarType::Sports),
                f_luxury == (|i: int| counts_for_car_type(o[i], q) && o[i].car_type == CarType::Luxury),
                f_family == (|i: int| counts_for_car_type(o[i], q) && o[i].car_type == CarType::Family),
                f_vk_true == (|i: int| counts_for_vollkasko(o[i], q) && o[i].has_vollkasko),
                f_vk_false == (|i: int| counts_for_vollkasko(o[i], q) && !o[i].has_vollkasko),
                g_price == (|i: int, key: u64| counts_for_price(o[i], q) && bucket_start(o[i].price, q.price_range_width) == key),
                g_km == (|i: int, key: u64|
                    counts_for_free_km(o[i], q) && bucket_start(o[i].free_kilometers, q.min_free_kilometer_width) == key),
                g_seats == (|i: int, key: u64| counts_for_seats(o[i], q) && o[i].number_seats as u64 == key),
                f_listed == (|i: int| included(o[i], q)),
                car_type_count.small as nat == seq_count(c.subrange(0, k as int), f_small),
                car_type_count.sports as nat == seq_count(c.subrange(0, k as int), f_sports),
                car_type_count.luxury as nat == seq_count(c.subrange(0, k as int), f_luxury),
                car_type_count.family as nat == seq_count(c.subrange(0, k as int), f_family),
                vollkasko_count.true_count as nat == seq_count(c.subrange(0, k as int), f_vk_true),
                vollkasko_count.false_count as nat == seq_count(c.subrange(0, k as int), f_vk_false),
                tallies(price_map@, c.subrange(0, k as int), g_price),
                tallies(km_map@, c.subrange(0, k as int), g_km),
                tallies(seats_map@, c.subrange(0, k as int), g_seats),
                ranked(page_buf@, o, q.sort_order),
                page_buf@.len() <= cap,
                forall|y: u32| #[trigger] page_buf@.contains(y) ==> c.subrange(0, k as int).contains(y) && f_listed(y as int),
                forall|y: u32|
                    #[trigger] c.subrange(0, k as int).contains(y) && f_listed(y as int) && !page_buf@.contains(y)
                    ==> page_buf@.len() == cap && ranks_before(o[page_buf@.last() as int], o[y as int], q.sort_order),
            decreases c.len() - k,
        {
            let x = cands[k];
            let ghost ck = c.subrange(0, k as int);
            let ghost ck1 = c.subrange(0, k + 1);
            proof {
                assert(ck1.drop_last() == ck);
                assert(ck1.last() == x);
                assert(ck1 == ck.push(x));
                assert(c.contains(x));
                assert(!ck.contains(x)) by {
                    if ck.contains(x) {
                        let j = choose|j: int| 0 <= j < ck.len() && ck[j] == x;
                        assert(c[j] == c[k as int]);
                    }
                }
                assert forall|y: u32| #[trigger] ck1.contains(y) <==> (ck.contains(y) || y == x) by {
                    if ck1.contains(y) {
                        let j = choose|j: int| 0 <= j < ck1.len() && ck1[j] == y;
                        if j < k {
                            assert(ck[j] == y);
                        }
                    }
                    if ck.contains(y) {
                        let j = choose|j: int| 0 <= j < ck.len() && ck[j] == y;
                        assert(ck1[j] == y);
                    }
                    if y == x {
                        assert(ck1[k as int] == y);
                    }
                }
                lemma_seq_count_le(ck, f_small);
                lemma_seq_count_le(ck, f_sports);
                lemma_seq_count_le(ck, f_luxury);
                lemma_seq_count_le(ck, f_family);
                lemma_seq_count_le(ck, f_vk_true);
                lemma_seq_count_le(ck, f_vk_false);
            }
            let offer = &all[x as usize];
            let seats_pass = match q.min_number_seats {
                Some(m) => offer.number_seats >= m,
                None => true,
            };
            let car_type_pass = match q.car_type {
                Some(t) => offer.car_type == t,
                None => true,
            };
            let vollkasko_pass = match q.only_vollkasko {
                Some(v) => offer.has_vollkasko == v,
                None => true,
            };
            let km_pass = match q.min_free_kilometer {
                Some(m) => offer.free_kilometers >= m,
                None => true,
            };
            let min_price_pass = match q.min_price {
                Some(m) => offer.price >= m,
                None => true,
            };
            let max_price_pass = match q.max_price {
                Some(m) => offer.price < m,
                None => true,
            };
            let price_pass = min_price_pass && max_price_pass;
            proof {
                let ox = o[x as int];
                assert(*offer == ox);
                assert(seats_pass == crate::query_model::seats_ok(ox, q));
                assert(car_type_pass == crate::query_model::car_type_ok(ox, q));
                assert(vollkasko_pass == crate::query_model::vollkasko_ok(ox, q));
                assert(km_pass == crate::query_model::free_km_ok(ox, q));
                assert(price_pass == crate::query_model::price_ok(ox, q));
                assert(f_listed(x as int) == (seats_pass && car_type_pass && vollkasko_pass && km_pass && price_pass));
                assert(seq_count(ck1, f_small) == seq_count(ck, f_small) + if f_small(x as int) { 1nat } else { 0nat });
                assert(seq_count(ck1, f_sports) == seq_count(ck, f_sports) + if f_sports(x as int) { 1nat } else { 0nat });
                assert(seq_count(ck1, f_luxury) == seq_count(ck, f_luxury) + if f_luxury(x as int) { 1nat } else { 0nat });
                assert(seq_count(ck1, f_family) == seq_count(ck, f_family) + if f_family(x as int) { 1nat } else { 0nat });
                assert(seq_count(ck1, f_vk_true) == seq_count(ck, f_vk_true) + if f_vk_true(x as int) { 1nat } else { 0nat });
                assert(seq_count(ck1, f_vk_false) == seq_count(ck, f_vk_false) + if f_vk_false(x as int) { 1nat } else { 0nat });
            }

            if seats_pass && vollkasko_pass && km_pass && price_pass {
                Self::handle_car_type_count(&mut car_type_count, offer);
            }
            if seats_pass && car_type_pass && km_pass && price_pass {
                Self::handle_vollkasko_count(&mut vollkasko_count, offer);
            }

            let ghost price_key = bucket_start(offer.price, q.price_range_width);
            let price_hit = seats_pass && car_type_pass && vollkasko_pass && km_pass;
            proof {
                assert(forall|key: u64| #[trigger] g_price(x as int, key) <==> (price_hit && key == price_key));
                if price_map@.contains_key(price_key) {
                    lemma_seq_count_le(ck, |i: int| g_price(i, price_key));
                }
                lemma_tallies_push(price_map@, ck, g_price, x, price_key, price_hit);
            }
            if price_hit {
                Self::handle_price_range(&q, &mut price_map, offer);
            }

            let ghost km_key = bucket_start(offer.free_kilometers, q.min_free_kilometer_width);
            let km_hit = seats_pass && car_type_pass && vollkasko_pass && price_pass;
            proof {
                assert(forall|key: u64| #[trigger] g_km(x as int, key) <==> (km_hit && key == km_key));
                if km_map@.contains_key(km_key) {
                    lemma_seq_count_le(ck, |i: int| g_km(i, km_key));
                }
                lemma_tallies_push(km_map@, ck, g_km, x, km_key, km_hit);
            }
            if km_hit {
                Self::handle_free_kilometers_range(&q, &mut km_map, offer);
            }

            let ghost seats_key = offer.number_seats as u64;
            let seats_hit = car_type_pass && vollkasko_pass && km_pass && price_pass;
            proof {
                assert(forall|key: u64| #[trigger] g_seats(x as int, key) <==> (seats_hit && key == seats_key));
                if seats_map@.contains_key(seats_key) {
                    lemma_seq_count_le(ck, |i: int| g_seats(i, seats_key));
                }
                lemma_tallies_push(seats_map@, ck, g_seats, x, seats_key, seats_hit);
            }
            if seats_hit {
                Self::handle_seats_count(&mut seats_map, offer);
            }

            let ghost buf0 = page_buf@;
            if seats_pass && car_type_pass && vollkasko_pass && km_pass && price_pass {
                proof {
                    assert(!buf0.contains(x));
                }
                insert_ranked(&mut page_buf, x, all, q.sort_order, cap);
                proof {
                    assert forall|y: u32|
                        #[trigger] ck1.contains(y) && f_listed(y as int) && !page_buf@.contains(y)
                        implies page_buf@.len() == cap && ranks_before(o[page_buf@.last() as int], o[y as int], q.sort_order) by {
                        if y != x && !buf0.contains(y) {
                            assert(ck.contains(y));
                            if page_buf@.last() != buf0.last() {
                                lemma_ranks_before_transitive(o[page_buf@.last() as int], o[buf0.last() as int], o[y as int], q.sort_order);
                            }
                        }
                    }
                }
            } else {
                proof {
                    assert(!f_listed(x as int));
                }
            }
            k += 1;
        }
        proof {
            assert(c.subrange(0, c.len() as int) == c);
        }
        let ghost pred_listed = |ob: Offer| included(ob, q);
        proof {
            lemma_count_bridge(*self, q, c, f_listed, pred_listed);
            assert forall|y: u32| #[trigger] page_buf@.contains(y) implies self.listed(q).contains(y as int) by {}
            assert forall|i: int| #[trigger] self.listed(q).contains(i) && !page_buf@.contains(i as u32)
                implies page_buf@.len() == cap && ranks_before(o[page_buf@.last() as int], o[i], q.sort_order) by {
                assert(c.contains(i as u32));
            }
            lemma_buffer_ranks(*self, q, page_buf@, cap as nat);
        }

        proof {
            let a = q.page as int;
            let b = q.page_size as int;
            assert(a * b <= 0xffff_ffff * 0xffff_ffff && (a + 1) * b == a * b + b) by (nonlinear_arith)
                requires
                    0 <= a <= 0xffff_ffff,
                    1 <= b <= 0xffff_ffff,
            ;
        }
        let page_start: u64 = (q.page as u64) * (q.page_size as u64);
        let mut offers: Vec<ResponseOffer> = Vec::new();
        let mut p: usize = if page_start < page_buf.len() as u64 { page_start as usize } else { page_buf.len() };
        let ghost first_pos = p as int;
        while p < page_buf.len()
            invariant
                first_pos <= p <= page_buf@.len(),
                first_pos == page_start || (first_pos == page_buf@.len() && page_buf@.len() <= page_start),
                offers@.len() == p - first_pos,
                all@ == o,
                ranked(page_buf@, o, q.sort_order),
                forall|j: int| 0 <= j < offers@.len() ==> {
                    let ob = o[page_buf@[first_pos + j] as int];
                    &&& (#[trigger] offers@[j]).ID@ == ob.id@
                    &&& offers@[j].data@ == ob.data@
                },
            decreases page_buf@.len() - p,
        {
            let ob = &all[page_buf[p] as usize];
            offers.push(ResponseOffer { ID: ob.id.clone(), data: ob.data.clone() });
            p += 1;
        }
        proof {
            let total = self.listed(q).len();
            assert(offers@.len() == page_len(total, q.page, q.page_size));
            assert forall|j: int| 0 <= j < offers@.len() implies {
                let i = self.offer_at_rank(q, q.page as int * q.page_size as int + j);
                &&& (#[trigger] offers@[j]).ID@ == self.offers()[i].id@
                &&& offers@[j].data@ == self.offers()[i].data@
                &&& self.listed(q).contains(i)
                &&& self.rank(q, i) == q.page as int * q.page_size as int + j
            } by {
                let n = q.page as int * q.page_size as int + j;
                let bi = page_buf@[n] as int;
                assert(page_buf@.contains(page_buf@[n]));
                assert(self.rank(q, bi) == n);
                assert(self.listed(q).contains(bi));
                assert(exists|i: int| self.listed(q).contains(i) && self.rank(q, i) == n);
                let chosen = self.offer_at_rank(q, n);
                assert(self.listed(q).contains(chosen) && self.rank(q, chosen) == n);
                if chosen != bi {
                    lemma_rank_unique(*self, q, chosen, bi);
                }
            }
            assert(self.page_answer(q, offers@));
        }

        proof {
            assert forall|key: u64| #[trigger] price_map@.contains_key(key) implies key <= u32::MAX by {
                lemma_seq_count_witness(c, |i: int| g_price(i, key));
                let j = choose|j: int| 0 <= j < c.len() && (|i: int| g_price(i, key))(#[trigger] c[j] as int);
                assert(c.contains(c[j]));
                lemma_bucket_start_le(o[c[j] as int].price, q.price_range_width);
            }
            assert forall|key: u64| #[trigger] km_map@.contains_key(key) implies key <= u32::MAX by {
                lemma_seq_count_witness(c, |i: int| g_km(i, key));
                let j = choose|j: int| 0 <= j < c.len() && (|i: int| g_km(i, key))(#[trigger] c[j] as int);
                assert(c.contains(c[j]));
                lemma_bucket_start_le(o[c[j] as int].free_kilometers, q.min_free_kilometer_width);
            }
            assert forall|key: u64| #[trigger] seats_map@.contains_key(key) implies key <= u32::MAX by {
                lemma_seq_count_witness(c, |i: int| g_seats(i, key));
            }
        }
        let price_tuples = to_ranges(&price_map, q.price_range_width);
        let km_tuples = to_ranges(&km_map, q.min_free_kilometer_width);
        let seat_tuples = to_ranges(&seats_map, 0);
        let price_ranges = price_ranges_of(&price_tuples);
        let free_kilometer_range = km_ranges_of(&km_tuples);
        let seats_count = seat_counts_of(&seat_tuples);
        let body = GetReponseBodyModel {
            offers,
            price_ranges,
            car_type_counts: car_type_count,
            seats_count,
            free_kilometer_range,
            vollkasko_count,
        };
        proof {
            lemma_count_bridge(*self, q, c, f_small, |o: Offer| counts_for_car_type(o, q) && o.car_type == CarType::Small);
            lemma_count_bridge(*self, q, c, f_sports, |o: Offer| counts_for_car_type(o, q) && o.car_type == CarType::Sports);
            lemma_count_bridge(*self, q, c, f_luxury, |o: Offer| counts_for_car_type(o, q) && o.car_type == CarType::Luxury);
            lemma_count_bridge(*self, q, c, f_family, |o: Offer| counts_for_car_type(o, q) && o.car_type == CarType::Family);
            lemma_count_bridge(*self, q, c, f_vk_true, |o: Offer| counts_for_vollkasko(o, q) && o.has_vollkasko);
            lemma_count_bridge(*self, q, c, f_vk_false, |o: Offer| counts_for_vollkasko(o, q) && !o.has_vollkasko);
            assert(self.counts_answer(q, body));

            let pr = price_ranges@;
            assert forall|kk: int| 0 <= kk < pr.len() implies {
                let e = #[trigger] pr[kk];
                &&& e.end == e.start + q.price_range_width
                &&& e.count > 0
                &&& e.count as nat == self.count_matching(q, |o: Offer| counts_for_price(o, q) && bucket_start(o.price, q.price_range_width) == e.start)
            } by {
                lemma_tally_bridge(*self, q, c, price_map@, g_price, pr[kk].start,
                    |o: Offer| counts_for_price(o, q) && bucket_start(o.price, q.price_range_width) == pr[kk].start);
            }
            assert forall|i: int|
                0 <= i < self.offers().len() && candidate(#[trigger] self.offers()[i], q) && counts_for_price(self.offers()[i], q)
                implies exists|kk: int| 0 <= kk < pr.len() && (#[trigger] pr[kk]).start == bucket_start(self.offers()[i].price, q.price_range_width) by {
                let b = bucket_start(o[i].price, q.price_range_width);
                let pb = |o: Offer| counts_for_price(o, q) && bucket_start(o.price, q.price_range_width) == b;
                lemma_tally_bridge(*self, q, c, price_map@, g_price, b, pb);
                lemma_member_count(*self, q, pb, i);
                let kk = choose|kk: int| 0 <= kk < price_tuples@.len() && (#[trigger] price_tuples@[kk]).0 == b;
                assert(pr[kk].start == b);
            }
            assert(self.price_ranges_answer(q, pr));

            let kr = free_kilometer_range@;
            assert forall|kk: int| 0 <= kk < kr.len() implies {
                let e = #[trigger] kr[kk];
                &&& e.end == e.start + q.min_free_kilometer_width
                &&& e.count > 0
                &&& e.count as nat == self.count_matching(q, |o: Offer| counts_for_free_km(o, q) && bucket_start(o.free_kilometers, q.min_free_kilometer_width) == e.start)
            } by {
                lemma_tally_bridge(*self, q, c, km_map@, g_km, kr[kk].start,
                    |o: Offer| counts_for_free_km(o, q) && bucket_start(o.free_kilometers, q.min_free_kilometer_width) == kr[kk].start);
            }
            assert forall|i: int|
                0 <= i < self.offers().len() && candidate(#[trigger] self.offers()[i], q) && counts_for_free_km(self.offers()[i], q)
                implies exists|kk: int| 0 <= kk < kr.len() && (#[trigger] kr[kk]).start == bucket_start(self.offers()[i].free_kilometers, q.min_free_kilometer_width) by {
                let b = bucket_start(o[i].free_kilometers, q.min_free_kilometer_width);
                let pb = |o: Offer| counts_for_free_km(o, q) && bucket_start(o.free_kilometers, q.min_free_kilometer_width) == b;
                lemma_tally_bridge(*self, q, c, km_map@, g_km, b, pb);
                lemma_member_count(*self, q, pb, i);
                let kk = choose|kk: int| 0 <= kk < km_tuples@.len() && (#[trigger] km_tuples@[kk]).0 == b;
                assert(kr[kk].start == b);
            }
            assert(self.km_ranges_answer(q, kr));

            let sc = seats_count@;
            assert forall|i: int, j: int| 0 <= i < j < sc.len() implies (#[trigger] sc[i]).number_seats < (#[trigger] sc[j]).number_seats by {
                assert(seat_tuples@[i].0 < seat_tuples@[j].0);
            }
            assert forall|kk: int| 0 <= kk < sc.len() implies {
                let e = #[trigger] sc[kk];
                &&& e.count > 0
                &&& e.count as nat == self.count_matching(q, |o: Offer| counts_for_seats(o, q) && o.number_seats == e.number_seats)
            } by {
                assert(seat_tuples@[kk].0 == sc[kk].number_seats as u64);
                lemma_tally_bridge(*self, q, c, seats_map@, g_seats, seat_tuples@[kk].0,
                    |o: Offer| counts_for_seats(o, q) && o.number_seats == sc[kk].number_seats);
            }
            assert forall|i: int|
                0 <= i < self.offers().len() && candidate(#[trigger] self.offers()[i], q) && counts_for_seats(self.offers()[i], q)
                implies exists|kk: int| 0 <= kk < sc.len() && (#[trigger] sc[kk]).number_seats == self.offers()[i].number_seats by {
                let ns = o[i].number_seats;
                let pb = |o: Offer| counts_for_seats(o, q) && o.number_seats == ns;
                lemma_tally_bridge(*self, q, c, seats_map@, g_seats, ns as u64, pb);
                lemma_member_count(*self, q, pb, i);
                let kk = choose|kk: int| 0 <= kk < seat_tuples@.len() && (#[trigger] seat_tuples@[kk]).0 == ns as u64;
                assert(sc[kk].number_seats == ns);
            }
            assert(self.seats_answer(q, sc));
            assert(self.page_answer(q, body.offers@));
        }
        Ok(body)
    }

    /// Counts one more offer with the offer's number of seats.
    fn handle_seats_count(seats_count_map: &mut FxHashMap<u64, u32>, offer: &Offer)
        requires
            old(seats_count_map)@.contains_key(offer.number_seats as u64) ==> old(seats_count_map)@[offer.number_seats as u64] < u32::MAX,
        ensures
            final(seats_count_map)@ == old(seats_count_map)@.insert(
                offer.number_seats as u64,
                if old(seats_count_map)@.contains_key(offer.number_seats as u64) {
                    (old(seats_count_map)@[offer.number_seats as u64] + 1) as u32
                } else {
                    1u32
                },
            ),
    {
        bump(seats_count_map, offer.number_seats as u64);
    }

    /// Counts one more offer in the price bucket of the offer.
    fn handle_price_range(request_offer: &RequestOffer, price_range_interval_mapping: &mut FxHashMap<u64, u32>, offer: &Offer)
        requires
            request_offer.price_range_width > 0,
            old(price_range_interval_mapping)@.contains_key(bucket_start(offer.price, request_offer.price_range_width))
                ==> old(price_range_interval_mapping)@[bucket_start(offer.price, request_offer.price_range_width)] < u32::MAX,
        ensures
            final(price_range_interval_mapping)@ == old(price_range_interval_mapping)@.insert(
                bucket_start(offer.price, request_offer.price_range_width),
                if old(price_range_interval_mapping)@.contains_key(bucket_start(offer.price, request_offer.price_range_width)) {
                    (old(price_range_interval_mapping)@[bucket_start(offer.price, request_offer.price_range_width)] + 1) as u32
                } else {
                    1u32
                },
            ),
    {
        proof {
            lemma_bucket_start_le(offer.price, request_offer.price_range_width);
        }
        let lower_bound = ((offer.price / request_offer.price_range_width) * request_offer.price_range_width) as u64;
        bump(price_range_interval_mapping, lower_bound);
    }

    /// Counts one more offer in the kilometer bucket of the offer.
    fn handle_free_kilometers_range(
        request_offer: &RequestOffer,
        free_kilometers_interval_mapping: &mut FxHashMap<u64, u32>,
        offer: &Offer,
    )
        requires
            request_offer.min_free_kilometer_width > 0,
            old(free_kilometers_interval_mapping)@.contains_key(bucket_start(offer.free_kilometers, request_offer.min_free_kilometer_width))
                ==> old(free_kilometers_interval_mapping)@[bucket_start(offer.free_kilometers, request_offer.min_free_kilometer_width)] < u32::MAX,
        ensures
            final(free_kilometers_interval_mapping)@ == old(free_kilometers_interval_mapping)@.insert(
                bucket_start(offer.free_kilometers, request_offer.min_free_kilometer_width),
                if old(free_kilometers_interval_mapping)@.contains_key(bucket_start(offer.free_kilometers, request_offer.min_free_kilometer_width)) {
                    (old(free_kilometers_interval_mapping)@[bucket_start(offer.free_kilometers, request_offer.min_free_kilometer_width)] + 1) as u32
                } else {
                    1u32
                },
            ),
    {
        proof {
            lemma_bucket_start_le(offer.free_kilometers, request_offer.min_free_kilometer_width);
        }
        let lower_bound = ((offer.free_kilometers / request_offer.min_free_kilometer_width) * request_offer.min_free_kilometer_width) as u64;
        bump(free_kilometers_interval_mapping, lower_bound);
    }

    /// Counts one more offer of the offer's car type.
    fn handle_car_type_count(car_type_count: &mut CarTypeCount, offer: &Offer)
        requires
            old(car_type_count).small < u32::MAX,
            old(car_type_count).sports < u32::MAX,
            old(car_type_count).luxury < u32::MAX,
            old(car_type_count).family < u32::MAX,
        ensures
            final(car_type_count).small == old(car_type_count).small + if offer.car_type == CarType::Small { 1int } else { 0int },
            final(car_type_count).sports == old(car_type_count).sports + if offer.car_type == CarType::Sports { 1int } else { 0int },
            final(car_type_count).luxury == old(car_type_count).luxury + if offer.car_type == CarType::Luxury { 1int } else { 0int },
            final(car_type_count).family == old(car_type_count).family + if offer.car_type == CarType::Family { 1int } else { 0int },
    {
        match offer.car_type {
            CarType::Small => car_type_count.small += 1,
            CarType::Sports => car_type_count.sports += 1,
            CarType::Luxury => car_type_count.luxury += 1,
            CarType::Family => car_type_count.family += 1,
        }
    }

    /// Counts one more offer with or without full-cover insurance, as the offer has.
    fn handle_vollkasko_count(vollkasko_count: &mut VollKaskoCount, offer: &Offer)
        requires
            old(vollkasko_count).true_count < u32::MAX,
            old(vollkasko_count).false_count < u32::MAX,
        ensures
            final(vollkasko_count).true_count == old(vollkasko_count).true_count + if offer.has_vollkasko { 1int } else { 0int },
            final(vollkasko_count).false_count == old(vollkasko_count).false_count + if offer.has_vollkasko { 0int } else { 1int },
    {
        if offer.has_vollkasko {
            vollkasko_count.true_count += 1;
        } else {
            vollkasko_count.false_count += 1;
        }
    }

    /// Ingests a batch of offers in order. The first offer refused ends the batch:
    /// its position and the reason come back, and the offers before it stay.
    pub fn insert_offers(&mut self, offers: &Vec<crate::json_models::Offer>) -> (r: Result<(), (usize, IngestError)>)
        requires
            old(self).wf(),
        ensures
            final(self).wf(),
            ({
                let n0 = old(self).offers().len();
                let taken: int = match r {
                    Ok(_) => offers@.len() as int,
                    Err((j, _)) => j as int,
                };
                &&& 0 <= taken <= offers@.len()
                &&& final(self).offers().len() == n0 + taken
                &&& final(self).offers().subrange(0, n0 as int) == old(self).offers()
                &&& forall|k: int| 0 <= k < taken ==> {
                    &&& ingest_error(#[trigger] offers@[k], (n0 + k) as nat) is None
                    &&& stored_as(final(self).offers()[n0 + k], offers@[k], n0 + k)
                }
                &&& r matches Err((j, e)) ==> j < offers@.len() && ingest_error(offers@[j as int], (n0 + j) as nat) == Some(e)
            }),
    {
        let ghost old_offers = self.offers();
        let ghost n0 = old_offers.len();
        let mut i: usize = 0;
        while i < offers.len()
            invariant
                self.wf(),
                old_offers == old(self).offers(),
                n0 == old_offers.len(),
                i <= offers@.len(),
                self.offers().len() == n0 + i,
                self.offers().subrange(0, n0 as int) == old_offers,
                forall|k: int| 0 <= k < i ==> {
                    &&& ingest_error(#[trigger] offers@[k], (n0 + k) as nat) is None
                    &&& stored_as(self.offers()[n0 + k], offers@[k], n0 + k)
                },
            decreases offers@.len() - i,
        {
            let ghost before = self.offers();
            match self.insert_offer(&offers[i]) {
                Ok(_) => {
                    proof {
                        assert forall|k: int| 0 <= k < i + 1 implies {
                            &&& ingest_error(#[trigger] offers@[k], (n0 + k) as nat) is None
                            &&& stored_as(self.offers()[n0 + k], offers@[k], n0 + k)
                        } by {
                            if k < i {
                                assert(self.offers()[n0 + k] == before[n0 + k]);
                            }
                        }
                        assert(self.offers().subrange(0, n0 as int) == before.subrange(0, n0 as int));
                    }
                },
                Err(e) => {
                    proof {
                        assert(self.offers() == before);
                        assert(ingest_error(offers@[i as int], (n0 + i) as nat) == Some(e));
                    }
                    return Err((i, e));
                },
            }
            i += 1;
        }
        Ok(())
    }

    /// An empty store over the fixed region hierarchy.
    pub fn new() -> (r: DBManager)
        ensures
            r.wf(),
            r.offers().len() == 0,
    {
        let index_tree = IndexTree::populate_with_regions();
        let dense_store = DenseStore::new();
        DBManager { index_tree, dense_store }
    }

    /// Removes every offer; the regions stay and indexes restart at 0.
    pub fn cleanup(&mut self)
        requires
            old(self).wf(),
        ensures
            final(self).wf(),
            final(self).offers().len() == 0,
    {
        self.index_tree.clear_offers();
        self.dense_store.all.clear();
    }

    /// Adds an offer to the store and indexes it under its region. On success the
    /// offer is appended, with its position as index, and that index is returned.
    pub fn insert_offer(&mut self, offer: &crate::json_models::Offer) -> (r: Result<u32, IngestError>)
        requires
            old(self).wf(),
        ensures
            final(self).wf(),
            match ingest_error(*offer, old(self).offers().len()) {
                Some(e) => r == Err::<u32, IngestError>(e) && final(self).offers() == old(self).offers(),
                None => {
                    &&& r == Ok::<u32, IngestError>(old(self).offers().len() as u32)
                    &&& final(self).offers().len() == old(self).offers().len() + 1
                    &&& final(self).offers().subrange(0, old(self).offers().len() as int) == old(self).offers()
                    &&& stored_as(final(self).offers().last(), *offer, old(self).offers().len() as int)
                },
            },
    {
        if offer.most_specific_region_ID >= 125 {
            return Err(IngestError::UnknownRegion);
        }
        if offer.end_date <= offer.start_date {
            return Err(IngestError::EmptyRentalPeriod);
        }
        if self.dense_store.all.len() >= MAX_OFFERS {
            return Err(IngestError::StoreFull);
        }
        let idx = self.dense_store.all.len() as u32;
        let stored = Offer {
            idx,
            id: offer.id.clone(),
            data: offer.data.clone(),
            most_specific_region_id: offer.most_specific_region_ID,
            start_date: offer.start_date,
            end_date: offer.end_date,
            number_seats: offer.number_seats,
            price: offer.price,
            car_type: offer.car_type,
            has_vollkasko: offer.has_vollkasko,
            free_kilometers: offer.free_kilometers,
        };
        let ghost old_self = *self;
        let ghost reg = stored.most_specific_region_id as int;
        let ghost dur = duration_days(stored.start_date, stored.end_date);
        proof {
            assert forall|i: int| 0 <= i < self.index_tree.bucket(reg, dur).len()
                implies (#[trigger] self.index_tree.bucket(reg, dur)[i]).idx != stored.idx by {
                let e = self.index_tree.bucket(reg, dur)[i];
                assert((e.idx as int) < self.offers().len());
            }
        }
        self.index_tree.insert_offer(offer.most_specific_region_ID as u8, &stored);
        self.dense_store.insert(stored);
        proof {
            let n = old_self.offers().len();
            assert(self.offers() == old_self.offers().push(stored));
            assert forall|i: int| 0 <= i < self.offers().len() implies {
                let o = #[trigger] self.offers()[i];
                &&& o.idx == i
                &&& o.most_specific_region_id < 125
                &&& o.start_date < o.end_date
                &&& self.index_tree.bucket(o.most_specific_region_id as int, duration_days(o.start_date, o.end_date)).contains(
                    entry_of(o),
                )
            } by {
                let o = self.offers()[i];
                if i < n {
                    assert(o == old_self.offers()[i]);
                    let g = o.most_specific_region_id as int;
                    let d = duration_days(o.start_date, o.end_date);
                    if g != reg || d != dur {
                        assert(self.index_tree.bucket(g, d) == old_self.index_tree.bucket(g, d));
                    }
                } else {
                    assert(o == stored);
                }
            }
            assert forall|r: int, d: u64, j: int|
                0 <= r < 125 && 0 <= j < self.index_tree.bucket(r, d).len() implies {
                    let e = #[trigger] self.index_tree.bucket(r, d)[j];
                    &&& (e.idx as int) < self.offers().len()
                    &&& self.offers()[e.idx as int].most_specific_region_id == r
                    &&& duration_days(self.offers()[e.idx as int].start_date, self.offers()[e.idx as int].end_date) == d
                    &&& e == entry_of(self.offers()[e.idx as int])
                } by {
                let e = self.index_tree.bucket(r, d)[j];
                if r != reg || d != dur {
                    assert(self.index_tree.bucket(r, d) == old_self.index_tree.bucket(r, d));
                    assert(self.offers()[e.idx as int] == old_self.offers()[e.idx as int]);
                } else {
                    assert(self.index_tree.bucket(r, d).contains(e));
                    if old_self.index_tree.bucket(r, d).contains(e) {
                        let k = choose|k: int| 0 <= k < old_self.index_tree.bucket(r, d).len()
                            && old_self.index_tree.bucket(r, d)[k] == e;
                        assert(old_self.index_tree.bucket(r, d)[k] == e);
                        assert(self.offers()[e.idx as int] == old_self.offers()[e.idx as int]);
                    } else {
                        assert(e == entry_of(stored));
                    }
                }
            }
            assert(self.offers().subrange(0, n as int) == old_self.offers());
        }
        Ok(idx)
    }
}

} // verus!
