// Store indexes grouped by rental duration.
use vstd::prelude::*;
use fxhash::FxHashMap;
use crate::db_models::Offer;
use crate::fx_map::{fx_clear, fx_get, fx_insert, fx_new, fx_remove};
use crate::index_tree::{duration_days, DAY_MS};

verus! {

/// The elements of `s` that `bucket` holds, in the order of `s`.
pub open spec fn kept(s: Seq<u32>, bucket: Seq<u32>) -> Seq<u32>
    decreases s.len(),
{
    if s.len() == 0 {
        Seq::empty()
    } else if bucket.contains(s.last()) {
        kept(s.drop_last(), bucket).push(s.last())
    } else {
        kept(s.drop_last(), bucket)
    }
}

/// `x` is among the elements of `v`.
fn holds(v: &Vec<u32>, x: u32) -> (r: bool)
    ensures
        r == v@.contains(x),
{
    let mut i: usize = 0;
    while i < v.len()
        invariant
            i <= v@.len(),
            forall|j: int| 0 <= j < i ==> v@[j] != x,
        decreases v@.len() - i,
    {
        if v[i] == x {
            assert(v@[i as int] == x);
            return true;
        }
        i += 1;
    }
    false
}

/// Store indexes grouped by rental duration in days.
pub struct NumberOfDaysIndex {
    map: FxHashMap<u64, Vec<u32>>,
}

impl NumberOfDaysIndex {
    /// The indexes recorded for a duration of `d` days, in order of recording.
    pub closed spec fn indexed(self, d: u64) -> Seq<u32> {
        if self.map@.contains_key(d) {
            self.map@[d]@
        } else {
            Seq::empty()
        }
    }

    /// An index with nothing recorded.
    pub fn new() -> (r: NumberOfDaysIndex)
        ensures
            forall|d: u64| (#[trigger] r.indexed(d)).len() == 0,
    {
        NumberOfDaysIndex { map: fx_new() }
    }

    /// The elements of `offers` recorded for a duration of `days` days, in order.
    pub fn filter_offers(&self, days: u32, offers: &Vec<u32>) -> (r: Vec<u32>)
        ensures
            r@ == kept(offers@, self.indexed(days as u64)),
    {
        let mut out: Vec<u32> = Vec::new();
        match fx_get(&self.map, days as u64) {
            Some(bucket) => {
                let mut i: usize = 0;
                while i < offers.len()
                    invariant
                        i <= offers@.len(),
                        bucket@ == self.indexed(days as u64),
                        out@ == kept(offers@.subrange(0, i as int), bucket@),
                    decreases offers@.len() - i,
                {
                    proof {
                        assert(offers@.subrange(0, i + 1).drop_last() == offers@.subrange(0, i as int));
                    }
                    if holds(bucket, offers[i]) {
                        out.push(offers[i]);
                    }
                    i += 1;
                }
                proof {
                    assert(offers@.subrange(0, offers@.len() as int) == offers@);
                }
            },
            None => {
                proof {
                    lemma_kept_none(offers@, self.indexed(days as u64));
                }
            },
        }
        out
    }

    /// Records the offer's index under its duration.
    pub fn index_offer(&mut self, offer: &Offer)
        requires
            offer.start_date <= offer.end_date,
        ensures
            forall|d: u64| #[trigger] final(self).indexed(d) == if d == duration_days(offer.start_date, offer.end_date) {
                old(self).indexed(d).push(offer.idx)
            } else {
                old(self).indexed(d)
            },
    {
        let days: u64 = (offer.end_date - offer.start_date) / DAY_MS;
        let mut v: Vec<u32> = match fx_remove(&mut self.map, days) {
            Some(v) => v,
            None => Vec::new(),
        };
        v.push(offer.idx);
        fx_insert(&mut self.map, days, v);
    }

    /// Forgets every recorded index.
    pub fn clear(&mut self)
        ensures
            forall|d: u64| (#[trigger] final(self).indexed(d)).len() == 0,
    {
        fx_clear(&mut self.map);
    }
}

proof fn lemma_kept_none(s: Seq<u32>, bucket: Seq<u32>)
    requires
        bucket.len() == 0,
    ensures
        kept(s, bucket) == Seq::<u32>::empty(),
    decreases s.len(),
{
    if s.len() > 0 {
        lemma_kept_none(s.drop_last(), bucket);
    }
}

} // verus!
