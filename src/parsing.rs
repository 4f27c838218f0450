// Reading names and search query strings.
use vstd::prelude::*;
use vstd::string::StringSliceAdditionalSpecFns;
use crate::json_models::{CarType, RequestOffer, SortOrder};

verus! {

/// The car type that `s` names, if any.
pub open spec fn car_type_named(s: Seq<char>) -> Option<CarType> {
    if s == "small"@ {
        Some(CarType::Small)
    } else if s == "sports"@ {
        Some(CarType::Sports)
    } else if s == "luxury"@ {
        Some(CarType::Luxury)
    } else if s == "family"@ {
        Some(CarType::Family)
    } else {
        None
    }
}

/// The sort order that `s` names, if any.
pub open spec fn sort_order_named(s: Seq<char>) -> Option<SortOrder> {
    if s == "price-asc"@ {
        Some(SortOrder::PriceAsc)
    } else if s == "price-desc"@ {
        Some(SortOrder::PriceDesc)
    } else {
        None
    }
}

/// `s` spells out `word` exactly.
fn spells(s: &String, word: &str) -> (r: bool)
    ensures
        r == (s@ == word@),
{
    let w = word.to_owned();
    *s == w
}

impl CarType {
    /// Reads a car type from its lower-case name.
    pub fn from_str(s: &str) -> (r: Result<CarType, ()>)
        ensures
            r == (match car_type_named(s@) {
                Some(c) => Ok::<CarType, ()>(c),
                None => Err(()),
            }),
    {
        let owned = s.to_owned();
        if spells(&owned, "small") {
            Ok(CarType::Small)
        } else if spells(&owned, "sports") {
            Ok(CarType::Sports)
        } else if spells(&owned, "luxury") {
            Ok(CarType::Luxury)
        } else if spells(&owned, "family") {
            Ok(CarType::Family)
        } else {
            Err(())
        }
    }
}

impl SortOrder {
    /// Reads a sort order from its name.
    pub fn from_str(s: &str) -> (r: Result<SortOrder, ()>)
        ensures
            r == (match sort_order_named(s@) {
                Some(o) => Ok::<SortOrder, ()>(o),
                None => Err(()),
            }),
    {
        let owned = s.to_owned();
        if spells(&owned, "price-asc") {
            Ok(SortOrder::PriceAsc)
        } else if spells(&owned, "price-desc") {
            Ok(SortOrder::PriceDesc)
        } else {
            Err(())
        }
    }

    /// Reads a sort order from its name, trying the descending name first; an
    /// unknown name is refused, as by `from_str`.
    pub fn fast_from_str(s: &str) -> (r: Result<SortOrder, ()>)
        ensures
            r == (match sort_order_named(s@) {
                Some(o) => Ok::<SortOrder, ()>(o),
                None => Err(()),
            }),
    {
        proof {
            reveal_strlit("price-desc");
            reveal_strlit("price-asc");
            assert("price-desc"@.len() != "price-asc"@.len());
        }
        let owned = s.to_owned();
        if spells(&owned, "price-desc") {
            Ok(SortOrder::PriceDesc)
        } else if spells(&owned, "price-asc") {
            Ok(SortOrder::PriceAsc)
        } else {
            Err(())
        }
    }
}

/// The segments of a query string: the byte runs between `&` separators.
pub open spec fn split_amp(q: Seq<u8>) -> Seq<Seq<u8>>
    decreases q.len(),
{
    if q.len() == 0 {
        seq![Seq::<u8>::empty()]
    } else {
        let s = split_amp(q.drop_last());
        if q.last() == 38u8 {
            s.push(Seq::<u8>::empty())
        } else {
            s.update(s.len() - 1, s.last().push(q.last()))
        }
    }
}

/// Position of the first `=` of a segment, or its length when it has none.
pub open spec fn first_eq(seg: Seq<u8>) -> int
    decreases seg.len(),
{
    if seg.len() == 0 {
        0
    } else if first_eq(seg.drop_last()) < seg.len() - 1 {
        first_eq(seg.drop_last())
    } else if seg.last() == 61u8 {
        seg.len() - 1
    } else {
        seg.len() as int
    }
}

/// The bytes of the name of parameter `k` of a search query.
pub open spec fn param_name(k: int) -> Seq<u8> {
    if k == 0 {
        "regionID".spec_bytes()
    } else if k == 1 {
        "timeRangeStart".spec_bytes()
    } else if k == 2 {
        "timeRangeEnd".spec_bytes()
    } else if k == 3 {
        "numberDays".spec_bytes()
    } else if k == 4 {
        "sortOrder".spec_bytes()
    } else if k == 5 {
        "page".spec_bytes()
    } else if k == 6 {
        "pageSize".spec_bytes()
    } else if k == 7 {
        "priceRangeWidth".spec_bytes()
    } else if k == 8 {
        "minFreeKilometerWidth".spec_bytes()
    } else if k == 9 {
        "minNumberSeats".spec_bytes()
    } else if k == 10 {
        "minPrice".spec_bytes()
    } else if k == 11 {
        "maxPrice".spec_bytes()
    } else if k == 12 {
        "carType".spec_bytes()
    } else if k == 13 {
        "onlyVollkasko".spec_bytes()
    } else {
        "minFreeKilometer".spec_bytes()
    }
}

/// Number of parameters a search query knows.
pub const PARAM_COUNT: usize = 15;

/// The first parameter whose name is `key`, if any; other keys are ignored.
pub open spec fn param_of(key: Seq<u8>) -> Option<int> {
    param_from(key, 0)
}

/// The first parameter from `k` on whose name is `key`, if any.
pub open spec fn param_from(key: Seq<u8>, k: int) -> Option<int>
    decreases 15 - k,
{
    if k >= 15 || k < 0 {
        None
    } else if key == param_name(k) {
        Some(k)
    } else {
        param_from(key, k + 1)
    }
}

proof fn lemma_param_from_range(key: Seq<u8>, k: int)
    ensures
        param_from(key, k) matches Some(j) ==> 0 <= j < 15,
    decreases 15 - k,
{
    if 0 <= k < 15 && key != param_name(k) {
        lemma_param_from_range(key, k + 1);
    }
}

/// Every non-empty segment holds an `=`.
pub open spec fn segments_ok(segs: Seq<Seq<u8>>) -> bool {
    forall|i: int| 0 <= i < segs.len() ==> (#[trigger] segs[i]).len() == 0 || first_eq(segs[i]) < segs[i].len()
}

/// The value given last to parameter `k`: the text after the first `=` of the
/// last non-empty segment whose key (the text before it) names `k`.
pub open spec fn last_value(segs: Seq<Seq<u8>>, k: int) -> Option<Seq<u8>>
    decreases segs.len(),
{
    if segs.len() == 0 {
        None
    } else {
        let seg = segs.last();
        if seg.len() > 0 && param_of(seg.take(first_eq(seg))) == Some(k) {
            Some(seg.skip(first_eq(seg) + 1))
        } else {
            last_value(segs.drop_last(), k)
        }
    }
}

/// The number that a run of decimal digits spells, if it is one.
pub open spec fn decimal(s: Seq<u8>) -> Option<nat>
    decreases s.len(),
{
    if s.len() == 0 || !(48u8 <= s.last() <= 57u8) {
        None
    } else if s.len() == 1 {
        Some((s.last() - 48) as nat)
    } else {
        match decimal(s.drop_last()) {
            Some(v) => Some(v * 10 + (s.last() - 48) as nat),
            None => None,
        }
    }
}

/// The number that `s` spells, if it spells one below `bound`.
pub open spec fn decimal_below(s: Seq<u8>, bound: nat) -> Option<nat> {
    match decimal(s) {
        Some(v) => if v < bound {
            Some(v)
        } else {
            None
        },
        None => None,
    }
}

/// The flag that `s` names, if any.
pub open spec fn bool_named(s: Seq<u8>) -> Option<bool> {
    if s == "true".spec_bytes() {
        Some(true)
    } else if s == "false".spec_bytes() {
        Some(false)
    } else {
        None
    }
}

/// The car type whose name `s` holds, if any.
pub open spec fn car_type_bytes(s: Seq<u8>) -> Option<CarType> {
    if s == "small".spec_bytes() {
        Some(CarType::Small)
    } else if s == "sports".spec_bytes() {
        Some(CarType::Sports)
    } else if s == "luxury".spec_bytes() {
        Some(CarType::Luxury)
    } else if s == "family".spec_bytes() {
        Some(CarType::Family)
    } else {
        None
    }
}

/// The sort order whose name `s` holds, if any.
pub open spec fn sort_order_bytes(s: Seq<u8>) -> Option<SortOrder> {
    if s == "price-asc".spec_bytes() {
        Some(SortOrder::PriceAsc)
    } else if s == "price-desc".spec_bytes() {
        Some(SortOrder::PriceDesc)
    } else {
        None
    }
}

/// A required number parameter below `bound`.
pub open spec fn required_num(segs: Seq<Seq<u8>>, k: int, bound: nat) -> Option<nat> {
    match last_value(segs, k) {
        Some(v) => decimal_below(v, bound),
        None => None,
    }
}

/// An optional number parameter below `bound`: absent, or given and valid.
pub open spec fn optional_num(segs: Seq<Seq<u8>>, k: int, bound: nat) -> Option<Option<nat>> {
    match last_value(segs, k) {
        Some(v) => match decimal_below(v, bound) {
            Some(n) => Some(Some(n)),
            None => None,
        },
        None => Some(None),
    }
}

/// An optional number as a 32-bit one.
pub open spec fn optional_u32(o: Option<nat>) -> Option<u32> {
    match o {
        Some(n) => Some(n as u32),
        None => None,
    }
}

/// The search that a query string asks for, when it is well formed: every
/// non-empty segment is `key=value`, every required parameter is given, and
/// every value given to a known parameter reads as that parameter's type.
pub open spec fn request_of(q: Seq<u8>) -> Option<RequestOffer> {
    let segs = split_amp(q);
    let region = required_num(segs, 0, 0x100);
    let ts = required_num(segs, 1, 0x1_0000_0000_0000_0000);
    let te = required_num(segs, 2, 0x1_0000_0000_0000_0000);
    let days = required_num(segs, 3, 0x1_0000_0000);
    let order = match last_value(segs, 4) {
        Some(v) => sort_order_bytes(v),
        None => None,
    };
    let page = required_num(segs, 5, 0x1_0000_0000);
    let page_size = required_num(segs, 6, 0x1_0000_0000);
    let prw = required_num(segs, 7, 0x1_0000_0000);
    let kmw = required_num(segs, 8, 0x1_0000_0000);
    let seats = optional_num(segs, 9, 0x1_0000_0000);
    let min_price = optional_num(segs, 10, 0x1_0000_0000);
    let max_price = optional_num(segs, 11, 0x1_0000_0000);
    let car = match last_value(segs, 12) {
        Some(v) => match car_type_bytes(v) {
            Some(c) => Some(Some(c)),
            None => None,
        },
        None => Some(None),
    };
    let voll = match last_value(segs, 13) {
        Some(v) => match bool_named(v) {
            Some(b) => Some(Some(b)),
            None => None,
        },
        None => Some(None),
    };
    let km = optional_num(segs, 14, 0x1_0000_0000);
    if segments_ok(segs) && region is Some && ts is Some && te is Some && days is Some && order is Some
        && page is Some && page_size is Some && prw is Some && kmw is Some && seats is Some
        && min_price is Some && max_price is Some && car is Some && voll is Some && km is Some {
        Some(
            RequestOffer {
                region_id: region.unwrap() as u8,
                time_range_start: ts.unwrap() as u64,
                time_range_end: te.unwrap() as u64,
                number_days: days.unwrap() as u32,
                sort_order: order.unwrap(),
                page: page.unwrap() as u32,
                page_size: page_size.unwrap() as u32,
                price_range_width: prw.unwrap() as u32,
                min_free_kilometer_width: kmw.unwrap() as u32,
                min_number_seats: optional_u32(seats.unwrap()),
                min_price: optional_u32(min_price.unwrap()),
                max_price: optional_u32(max_price.unwrap()),
                car_type: car.unwrap(),
                only_vollkasko: voll.unwrap(),
                min_free_kilometer: optional_u32(km.unwrap()),
            },
        )
    } else {
        None
    }
}

/// Why a query string could not be read.
#[derive(Clone, Copy, Debug, PartialEq, Eq, Structural)]
pub enum QueryParseError {
    /// A segment lacks `=`, a required parameter is missing, or a value does not
    /// read as its parameter's type.
    Malformed,
}

/// The bytes `b[lo..hi]` are `name`.
fn slice_eq(b: &[u8], lo: usize, hi: usize, name: &[u8]) -> (r: bool)
    requires
        lo <= hi <= b@.len(),
    ensures
        r == (b@.subrange(lo as int, hi as int) == name@),
{
    if hi - lo != name.len() {
        return false;
    }
    let mut j: usize = 0;
    while j < name.len()
        invariant
            lo <= hi <= b@.len(),
            hi - lo == name@.len(),
            j <= name@.len(),
            forall|t: int| 0 <= t < j ==> b@[lo + t] == name@[t],
        decreases name@.len() - j,
    {
        if b[lo + j] != name[j] {
            assert(b@.subrange(lo as int, hi as int)[j as int] != name@[j as int]);
            return false;
        }
        j += 1;
    }
    assert(b@.subrange(lo as int, hi as int) =~= name@);
    true
}

/// The name of parameter `k`.
fn param_name_str(k: usize) -> (r: &'static str)
    requires
        k < PARAM_COUNT,
    ensures
        r.spec_bytes() == param_name(k as int),
{
    if k == 0 {
        "regionID"
    } else if k == 1 {
        "timeRangeStart"
    } else if k == 2 {
        "timeRangeEnd"
    } else if k == 3 {
        "numberDays"
    } else if k == 4 {
        "sortOrder"
    } else if k == 5 {
        "page"
    } else if k == 6 {
        "pageSize"
    } else if k == 7 {
        "priceRangeWidth"
    } else if k == 8 {
        "minFreeKilometerWidth"
    } else if k == 9 {
        "minNumberSeats"
    } else if k == 10 {
        "minPrice"
    } else if k == 11 {
        "maxPrice"
    } else if k == 12 {
        "carType"
    } else if k == 13 {
        "onlyVollkasko"
    } else {
        "minFreeKilometer"
    }
}

/// The parameter that the key `b[lo..hi]` names, if any.
fn param_index(b: &[u8], lo: usize, hi: usize) -> (r: Option<usize>)
    requires
        lo <= hi <= b@.len(),
    ensures
        match param_of(b@.subrange(lo as int, hi as int)) {
            Some(k) => r == Some(k as usize),
            None => r is None,
        },
{
    let ghost key = b@.subrange(lo as int, hi as int);
    let mut k: usize = 0;
    while k < PARAM_COUNT
        invariant
            lo <= hi <= b@.len(),
            key == b@.subrange(lo as int, hi as int),
            k <= PARAM_COUNT,
            param_of(key) == param_from(key, k as int),
        decreases PARAM_COUNT - k,
    {
        let name = param_name_str(k);
        if slice_eq(b, lo, hi, name.as_bytes()) {
            return Some(k);
        }
        k += 1;
    }
    None
}

/// Position of the first `=` in `b[lo..hi]`, or `hi` when there is none.
fn find_eq(b: &[u8], lo: usize, hi: usize) -> (r: usize)
    requires
        lo <= hi <= b@.len(),
    ensures
        lo <= r <= hi,
        r - lo == first_eq(b@.subrange(lo as int, hi as int)),
{
    let mut p: usize = lo;
    while p < hi && b[p] != 61u8
        invariant
            lo <= p <= hi <= b@.len(),
            forall|j: int| lo <= j < p ==> b@[j] != 61u8,
        decreases hi - p,
    {
        p += 1;
    }
    proof {
        lemma_first_eq(b@.subrange(lo as int, hi as int), p - lo);
    }
    p
}

proof fn lemma_first_eq(seg: Seq<u8>, p: int)
    requires
        0 <= p <= seg.len(),
        forall|j: int| 0 <= j < p ==> seg[j] != 61u8,
        p < seg.len() ==> seg[p] == 61u8,
    ensures
        first_eq(seg) == p,
    decreases seg.len(),
{
    if seg.len() > 0 {
        let d = seg.drop_last();
        if p == seg.len() {
            lemma_first_eq(d, d.len() as int);
            assert(seg[seg.len() - 1] != 61u8);
        } else if p == seg.len() - 1 {
            lemma_first_eq(d, d.len() as int);
        } else {
            lemma_first_eq(d, p);
        }
    }
}

/// If a run spells a number, each of its non-empty prefixes spells one no larger.
proof fn lemma_decimal_prefix(s: Seq<u8>, j: int)
    requires
        1 <= j <= s.len(),
        decimal(s) is Some,
    ensures
        decimal(s.take(j)) is Some,
        decimal(s.take(j)).unwrap() <= decimal(s).unwrap(),
    decreases s.len(),
{
    if j < s.len() {
        assert(s.drop_last().take(j) == s.take(j));
        if s.len() > 1 {
            lemma_decimal_prefix(s.drop_last(), j);
        }
    } else {
        assert(s.take(j) == s);
    }
}

/// The number that the digits `b[lo..hi]` spell, when they spell one below 2^64.
fn read_decimal(b: &[u8], lo: usize, hi: usize) -> (r: Option<u64>)
    requires
        lo <= hi <= b@.len(),
    ensures
        match decimal(b@.subrange(lo as int, hi as int)) {
            Some(v) => if v < 0x1_0000_0000_0000_0000 {
                r == Some(v as u64)
            } else {
                r is None
            },
            None => r is None,
        },
{
    let ghost s = b@.subrange(lo as int, hi as int);
    if lo == hi {
        return None;
    }
    let mut v: u64 = 0;
    let mut j: usize = lo;
    while j < hi
        invariant
            lo <= j <= hi <= b@.len(),
            s == b@.subrange(lo as int, hi as int),
            j > lo ==> decimal(s.take(j - lo)) == Some(v as nat),
            j == lo ==> v == 0,
        decreases hi - j,
    {
        let c = b[j];
        proof {
            assert(s.take(j - lo + 1).drop_last() == s.take(j - lo));
            assert(s.take(j - lo + 1).last() == c);
            if 48u8 <= c <= 57u8 {
                assert(decimal(s.take(j - lo + 1)) == Some((v as nat) * 10 + (c - 48) as nat));
            }
        }
        if c < 48u8 || c > 57u8 {
            proof {
                if decimal(s) is Some {
                    lemma_decimal_prefix(s, j - lo + 1);
                }
            }
            return None;
        }
        let d = (c - 48u8) as u64;
        match v.checked_mul(10) {
            Some(t) => match t.checked_add(d) {
                Some(n) => {
                    v = n;
                },
                None => {
                    proof {
                        if decimal(s) is Some {
                            lemma_decimal_prefix(s, j - lo + 1);
                        }
                    }
                    return None;
                },
            },
            None => {
                proof {
                    if decimal(s) is Some {
                        lemma_decimal_prefix(s, j - lo + 1);
                    }
                }
                return None;
            },
        }
        j += 1;
    }
    proof {
        assert(s.take(hi - lo) == s);
    }
    Some(v)
}

/// The value `b[lo..hi]` read as a number below `bound`.
fn read_below(b: &[u8], lo: usize, hi: usize, bound: u64) -> (r: Option<u64>)
    requires
        lo <= hi <= b@.len(),
    ensures
        match decimal_below(b@.subrange(lo as int, hi as int), bound as nat) {
            Some(v) => r == Some(v as u64),
            None => r is None,
        },
{
    match read_decimal(b, lo, hi) {
        Some(v) => if v < bound {
            Some(v)
        } else {
            None
        },
        None => None,
    }
}

/// The recorded value positions agree with the values given last in `done`.
pub open spec fn values_match(vals: Seq<Option<(usize, usize)>>, done: Seq<Seq<u8>>, q: Seq<u8>) -> bool {
    &&& vals.len() == PARAM_COUNT
    &&& forall|k: int| 0 <= k < PARAM_COUNT ==> match #[trigger] vals[k] {
        Some((a, c)) => a <= c <= q.len() && last_value(done, k) == Some(q.subrange(a as int, c as int)),
        None => last_value(done, k) is None,
    }
}

/// Takes note of the segment `b[lo..hi]`: a malformed one clears `ok`, and a
/// `key=value` one whose key names a parameter records where its value lies.
fn record_segment(
    b: &[u8],
    lo: usize,
    hi: usize,
    vals: &mut Vec<Option<(usize, usize)>>,
    ok: &mut bool,
    Ghost(done): Ghost<Seq<Seq<u8>>>,
)
    requires
        lo <= hi <= b@.len(),
        old(vals)@.len() == PARAM_COUNT,
        *old(ok) == segments_ok(done),
        *old(ok) ==> values_match(old(vals)@, done, b@),
    ensures
        final(vals)@.len() == PARAM_COUNT,
        *final(ok) == segments_ok(done.push(b@.subrange(lo as int, hi as int))),
        *final(ok) ==> values_match(final(vals)@, done.push(b@.subrange(lo as int, hi as int)), b@),
{
    let ghost seg = b@.subrange(lo as int, hi as int);
    let ghost segs = done.push(seg);
    proof {
        assert(segs.drop_last() == done);
        assert(segments_ok(segs) == (segments_ok(done) && (seg.len() == 0 || first_eq(seg) < seg.len()))) by {
            if segments_ok(segs) {
                assert forall|i: int| 0 <= i < done.len() implies (#[trigger] done[i]).len() == 0 || first_eq(done[i]) < done[i].len() by {
                    assert(segs[i] == done[i]);
                }
                assert(segs[done.len() as int] == seg);
            }
            if segments_ok(done) && (seg.len() == 0 || first_eq(seg) < seg.len()) {
                assert forall|i: int| 0 <= i < segs.len() implies (#[trigger] segs[i]).len() == 0 || first_eq(segs[i]) < segs[i].len() by {
                    if i < done.len() {
                        assert(segs[i] == done[i]);
                    }
                }
            }
        }
    }
    if lo == hi {
        proof {
            assert forall|k: int| 0 <= k < PARAM_COUNT implies last_value(segs, k) == last_value(done, k) by {}
        }
        return;
    }
    let p = find_eq(b, lo, hi);
    if p == hi {
        *ok = false;
        return;
    }
    proof {
        assert(seg.take(first_eq(seg)) == b@.subrange(lo as int, p as int));
        assert(seg.skip(first_eq(seg) + 1) == b@.subrange(p + 1, hi as int));
    }
    proof {
        lemma_param_from_range(b@.subrange(lo as int, p as int), 0);
    }
    match param_index(b, lo, p) {
        Some(k) => {
            vals.set(k, Some((p + 1, hi)));
            proof {
                if *ok {
                    assert forall|j: int| 0 <= j < PARAM_COUNT implies match #[trigger] vals@[j] {
                        Some((a, c)) => a <= c <= b@.len() && last_value(segs, j) == Some(b@.subrange(a as int, c as int)),
                        None => last_value(segs, j) is None,
                    } by {
                        if j != k {
                            assert(vals@[j] == old(vals)@[j]);
                        }
                    }
                }
            }
        },
        None => {},
    }
}

/// The value recorded at `v` read as a number below `bound`; `None` when absent.
fn read_param(b: &[u8], v: Option<(usize, usize)>, bound: u64) -> (r: Option<Option<u64>>)
    requires
        v matches Some((a, c)) ==> a <= c <= b@.len(),
    ensures
        match v {
            Some((a, c)) => match decimal_below(b@.subrange(a as int, c as int), bound as nat) {
                Some(n) => r == Some(Some(n as u64)),
                None => r is None,
            },
            None => r == Some(None::<u64>),
        },
{
    match v {
        Some((a, c)) => match read_below(b, a, c, bound) {
            Some(n) => Some(Some(n)),
            None => None,
        },
        None => Some(None),
    }
}

/// The value recorded at `v` read as a 64-bit number; `None` when absent.
fn read_param_u64(b: &[u8], v: Option<(usize, usize)>) -> (r: Option<Option<u64>>)
    requires
        v matches Some((a, c)) ==> a <= c <= b@.len(),
    ensures
        match v {
            Some((a, c)) => match decimal_below(b@.subrange(a as int, c as int), 0x1_0000_0000_0000_0000) {
                Some(n) => r == Some(Some(n as u64)),
                None => r is None,
            },
            None => r == Some(None::<u64>),
        },
{
    match v {
        Some((a, c)) => match read_decimal(b, a, c) {
            Some(n) => Some(Some(n)),
            None => None,
        },
        None => Some(None),
    }
}

/// A sort order read from the value recorded at `v`.
fn read_sort_order(b: &[u8], v: Option<(usize, usize)>) -> (r: Option<SortOrder>)
    requires
        v matches Some((a, c)) ==> a <= c <= b@.len(),
    ensures
        r == (match v {
            Some((a, c)) => sort_order_bytes(b@.subrange(a as int, c as int)),
            None => None,
        }),
{
    match v {
        Some((a, c)) => if slice_eq(b, a, c, "price-asc".as_bytes()) {
            Some(SortOrder::PriceAsc)
        } else if slice_eq(b, a, c, "price-desc".as_bytes()) {
            Some(SortOrder::PriceDesc)
        } else {
            None
        },
        None => None,
    }
}

/// A car type read from the value recorded at `v`; `Some(None)` when absent.
fn read_car_type(b: &[u8], v: Option<(usize, usize)>) -> (r: Option<Option<CarType>>)
    requires
        v matches Some((a, c)) ==> a <= c <= b@.len(),
    ensures
        r == (match v {
            Some((a, c)) => match car_type_bytes(b@.subrange(a as int, c as int)) {
                Some(t) => Some(Some(t)),
                None => None,
            },
            None => Some(None),
        }),
{
    match v {
        Some((a, c)) => if slice_eq(b, a, c, "small".as_bytes()) {
            Some(Some(CarType::Small))
        } else if slice_eq(b, a, c, "sports".as_bytes()) {
            Some(Some(CarType::Sports))
        } else if slice_eq(b, a, c, "luxury".as_bytes()) {
            Some(Some(CarType::Luxury))
        } else if slice_eq(b, a, c, "family".as_bytes()) {
            Some(Some(CarType::Family))
        } else {
            None
        },
        None => Some(None),
    }
}

/// A flag read from the value recorded at `v`; `Some(None)` when absent.
fn read_bool(b: &[u8], v: Option<(usize, usize)>) -> (r: Option<Option<bool>>)
    requires
        v matches Some((a, c)) ==> a <= c <= b@.len(),
    ensures
        r == (match v {
            Some((a, c)) => match bool_named(b@.subrange(a as int, c as int)) {
                Some(t) => Some(Some(t)),
                None => None,
            },
            None => Some(None),
        }),
{
    match v {
        Some((a, c)) => if slice_eq(b, a, c, "true".as_bytes()) {
            Some(Some(true))
        } else if slice_eq(b, a, c, "false".as_bytes()) {
            Some(Some(false))
        } else {
            None
        },
        None => Some(None),
    }
}

/// Reads a search from a query string of `key=value` pairs separated by `&`.
/// Unknown keys are ignored and a repeated key keeps its last value.
#[verifier::rlimit(50)]
pub fn parse_request_offer(query: &str) -> (r: Result<RequestOffer, QueryParseError>)
    ensures
        match request_of(query.spec_bytes()) {
            Some(req) => r == Ok::<RequestOffer, QueryParseError>(req),
            None => r == Err::<RequestOffer, QueryParseError>(QueryParseError::Malformed),
        },
{
    let b = query.as_bytes();
    let ghost q = b@;
    let mut vals: Vec<Option<(usize, usize)>> = Vec::new();
    while vals.len() < PARAM_COUNT
        invariant
            vals@.len() <= PARAM_COUNT,
            forall|k: int| 0 <= k < vals@.len() ==> #[trigger] vals@[k] is None,
        decreases PARAM_COUNT - vals@.len(),
    {
        vals.push(None);
    }
    let mut ok = true;
    let ghost mut done: Seq<Seq<u8>> = Seq::empty();
    let mut start: usize = 0;
    let mut i: usize = 0;
    proof {
        assert(q.take(0) == Seq::<u8>::empty());
        assert(q.subrange(0, 0) == Seq::<u8>::empty());
        assert(split_amp(Seq::<u8>::empty()) == Seq::<Seq<u8>>::empty().push(Seq::<u8>::empty()));
        assert forall|k: int| 0 <= k < PARAM_COUNT implies last_value(done, k) is None by {}
    }
    while i < b.len()
        invariant
            q == b@,
            start <= i <= b@.len(),
            vals@.len() == PARAM_COUNT,
            split_amp(q.take(i as int)) == done.push(q.subrange(start as int, i as int)),
            ok == segments_ok(done),
            ok ==> values_match(vals@, done, q),
        decreases b@.len() - i,
    {
        proof {
            assert(q.take(i + 1).drop_last() == q.take(i as int));
            assert(q.take(i + 1).last() == q[i as int]);
        }
        if b[i] == 38u8 {
            record_segment(b, start, i, &mut vals, &mut ok, Ghost(done));
            proof {
                done = done.push(q.subrange(start as int, i as int));
                assert(q.subrange(i + 1, i + 1) == Seq::<u8>::empty());
            }
            start = i + 1;
        } else {
            proof {
                let cur = q.subrange(start as int, i as int);
                assert(cur.push(q[i as int]) == q.subrange(start as int, i + 1));
                assert(done.push(cur).update(done.len() as int, cur.push(q[i as int])) == done.push(q.subrange(start as int, i + 1)));
            }
        }
        i += 1;
    }
    record_segment(b, start, b.len(), &mut vals, &mut ok, Ghost(done));
    proof {
        assert(q.take(q.len() as int) == q);
        done = done.push(q.subrange(start as int, q.len() as int));
        assert(done == split_amp(q));
    }
    let ghost segs = done;
    if !ok {
        return Err(QueryParseError::Malformed);
    }
    let region = read_param(b, vals[0], 0x100);
    let ts = read_param_u64(b, vals[1]);
    let te = read_param_u64(b, vals[2]);
    let days = read_param(b, vals[3], 0x1_0000_0000);
    let order = read_sort_order(b, vals[4]);
    let page = read_param(b, vals[5], 0x1_0000_0000);
    let page_size = read_param(b, vals[6], 0x1_0000_0000);
    let prw = read_param(b, vals[7], 0x1_0000_0000);
    let kmw = read_param(b, vals[8], 0x1_0000_0000);
    let seats = read_param(b, vals[9], 0x1_0000_0000);
    let min_price = read_param(b, vals[10], 0x1_0000_0000);
    let max_price = read_param(b, vals[11], 0x1_0000_0000);
    let car = read_car_type(b, vals[12]);
    let voll = read_bool(b, vals[13]);
    let km = read_param(b, vals[14], 0x1_0000_0000);
    proof {
        assert(values_match(vals@, segs, q));
        assert(q == query.spec_bytes());
        assert(segs == split_amp(query.spec_bytes()));
        let _ = vals@[0];
        let _ = vals@[1];
        let _ = vals@[2];
        let _ = vals@[3];
        let _ = vals@[4];
        let _ = vals@[5];
        let _ = vals@[6];
        let _ = vals@[7];
        let _ = vals@[8];
        let _ = vals@[9];
        let _ = vals@[10];
        let _ = vals@[11];
        let _ = vals@[12];
        let _ = vals@[13];
        let _ = vals@[14];
    }
    match (region, ts, te, days, order, page, page_size, prw, kmw) {
        (Some(Some(region)), Some(Some(ts)), Some(Some(te)), Some(Some(days)), Some(order), Some(Some(page)), Some(Some(page_size)), Some(Some(prw)), Some(Some(kmw))) => {
            match (seats, min_price, max_price, car, voll, km) {
                (Some(seats), Some(min_price), Some(max_price), Some(car), Some(voll), Some(km)) => {
                    Ok(RequestOffer {
                        region_id: region as u8,
                        time_range_start: ts,
                        time_range_end: te,
                        number_days: days as u32,
                        sort_order: order,
                        page: page as u32,
                        page_size: page_size as u32,
                        price_range_width: prw as u32,
                        min_free_kilometer_width: kmw as u32,
                        min_number_seats: match seats { Some(n) => Some(n as u32), None => None },
                        min_price: match min_price { Some(n) => Some(n as u32), None => None },
                        max_price: match max_price { Some(n) => Some(n as u32), None => None },
                        car_type: car,
                        only_vollkasko: voll,
                        min_free_kilometer: match km { Some(n) => Some(n as u32), None => None },
                    })
                },
                _ => Err(QueryParseError::Malformed),
            }
        },
        _ => Err(QueryParseError::Malformed),
    }
}

} // verus!
