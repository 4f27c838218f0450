// The region index: per region, offer references bucketed by rental duration
// and ordered by start date.
use vstd::prelude::*;
use fxhash::FxHashMap;
use crate::db_models::Offer;
use crate::fx_map::{fx_clear, fx_get, fx_insert, fx_new, fx_remove};
use crate::regions::{
    in_subtree, lemma_below_a_child, lemma_child_in_subtree, lemma_parent_below, lemma_siblings_disjoint,
    lemma_subtree_below, lemma_subtree_transitive, parent_region, region_parent, REGION_COUNT,
};

verus! {

/// Milliseconds in one day.
pub const DAY_MS: u64 = 86_400_000;

/// Rental duration in whole days.
pub open spec fn duration_days(start_date: u64, end_date: u64) -> u64 {
    ((end_date - start_date) / (DAY_MS as int)) as u64
}

/// A light reference to an offer of the dense store.
#[derive(Clone, Copy, Debug, PartialEq, Eq, Structural)]
pub struct IndexTreeOffer {
    pub start_date: u64,
    pub end_date: u64,
    pub idx: u32,
}

/// Strict order of entries inside a bucket: by start date, then by store index.
pub open spec fn entry_lt(a: IndexTreeOffer, b: IndexTreeOffer) -> bool {
    a.start_date < b.start_date || (a.start_date == b.start_date && a.idx < b.idx)
}

/// Entries ascend strictly by start date, then by store index.
pub open spec fn sorted_entries(s: Seq<IndexTreeOffer>) -> bool {
    forall|i: int, j: int| 0 <= i < j < s.len() ==> entry_lt(#[trigger] s[i], #[trigger] s[j])
}

/// The entry falls inside the time window: it starts at or after `ts` and both
/// starts and ends at or before `te`.
pub open spec fn in_window(e: IndexTreeOffer, ts: u64, te: u64) -> bool {
    ts <= e.start_date && e.start_date <= te && e.end_date <= te
}

/// Store indexes of the entries of `s` that fall inside the window, in order.
pub open spec fn window(s: Seq<IndexTreeOffer>, ts: u64, te: u64) -> Seq<u32>
    decreases s.len(),
{
    if s.len() == 0 {
        Seq::empty()
    } else {
        let w = window(s.drop_last(), ts, te);
        if in_window(s.last(), ts, te) {
            w.push(s.last().idx)
        } else {
            w
        }
    }
}

/// The window of a concatenation is the concatenation of the windows.
pub proof fn lemma_window_concat(a: Seq<IndexTreeOffer>, b: Seq<IndexTreeOffer>, ts: u64, te: u64)
    ensures
        window(a + b, ts, te) == window(a, ts, te) + window(b, ts, te),
    decreases b.len(),
{
    if b.len() == 0 {
        assert(a + b == a);
        assert(window(b, ts, te) == Seq::<u32>::empty());
        assert(window(a, ts, te) + Seq::<u32>::empty() == window(a, ts, te));
    } else {
        lemma_window_concat(a, b.drop_last(), ts, te);
        assert((a + b).drop_last() == a + b.drop_last());
        assert((a + b).last() == b.last());
        let wa = window(a, ts, te);
        let wb = window(b.drop_last(), ts, te);
        if in_window(b.last(), ts, te) {
            assert(wa + wb.push(b.last().idx) == (wa + wb).push(b.last().idx));
        }
    }
}

/// No entry of `s` falls inside the window, so its window is empty.
pub proof fn lemma_window_none(s: Seq<IndexTreeOffer>, ts: u64, te: u64)
    requires
        forall|i: int| 0 <= i < s.len() ==> !in_window(#[trigger] s[i], ts, te),
    ensures
        window(s, ts, te) == Seq::<u32>::empty(),
    decreases s.len(),
{
    if s.len() > 0 {
        assert(!in_window(s[s.len() - 1], ts, te));
        assert forall|i: int| 0 <= i < s.drop_last().len() implies !in_window(#[trigger] s.drop_last()[i], ts, te) by {
            assert(s.drop_last()[i] == s[i]);
        }
        lemma_window_none(s.drop_last(), ts, te);
    }
}

/// What the window of `s` holds: the indexes of the entries inside the window;
/// and no index twice where the entries carry distinct indexes.
pub proof fn lemma_window_contents(s: Seq<IndexTreeOffer>, ts: u64, te: u64)
    ensures
        forall|x: u32| #[trigger] window(s, ts, te).contains(x)
            <==> exists|i: int| 0 <= i < s.len() && (#[trigger] s[i]).idx == x && in_window(s[i], ts, te),
        (forall|i: int, j: int| 0 <= i < j < s.len() ==> (#[trigger] s[i]).idx != (#[trigger] s[j]).idx)
            ==> window(s, ts, te).no_duplicates(),
    decreases s.len(),
{
    if s.len() > 0 {
        let p = s.drop_last();
        lemma_window_contents(p, ts, te);
        let w = window(p, ts, te);
        assert forall|x: u32| #[trigger] window(s, ts, te).contains(x)
            <==> exists|i: int| 0 <= i < s.len() && (#[trigger] s[i]).idx == x && in_window(s[i], ts, te) by {
            if window(s, ts, te).contains(x) {
                if w.contains(x) {
                    let i = choose|i: int| 0 <= i < p.len() && (#[trigger] p[i]).idx == x && in_window(p[i], ts, te);
                    assert(s[i] == p[i]);
                } else {
                    assert(s[s.len() - 1].idx == x);
                }
            }
            if exists|i: int| 0 <= i < s.len() && (#[trigger] s[i]).idx == x && in_window(s[i], ts, te) {
                let i = choose|i: int| 0 <= i < s.len() && (#[trigger] s[i]).idx == x && in_window(s[i], ts, te);
                if i < s.len() - 1 {
                    assert(p[i] == s[i]);
                    assert(w.contains(x));
                    if in_window(s.last(), ts, te) {
                        let k = choose|k: int| 0 <= k < w.len() && w[k] == x;
                        assert(w.push(s.last().idx)[k] == x);
                    }
                } else {
                    assert(w.push(s.last().idx)[w.len() as int] == x);
                }
            }
        }
        if forall|i: int, j: int| 0 <= i < j < s.len() ==> (#[trigger] s[i]).idx != (#[trigger] s[j]).idx {
            assert forall|i: int, j: int| 0 <= i < j < p.len() implies (#[trigger] p[i]).idx != (#[trigger] p[j]).idx by {
                assert(p[i] == s[i] && p[j] == s[j]);
            }
            if in_window(s.last(), ts, te) {
                if w.contains(s.last().idx) {
                    let i = choose|i: int| 0 <= i < p.len() && (#[trigger] p[i]).idx == s.last().idx && in_window(p[i], ts, te);
                    assert(s[i] == p[i]);
                    assert(s[i].idx != s[s.len() - 1].idx);
                }
                assert(w.push(s.last().idx).no_duplicates());
            }
        }
    }
}

/// Appends to `out` the store indexes of the entries of `v` that fall inside the
/// window: an ordered search finds the first entry starting at or after `ts`, and
/// the scan stops at the first entry that starts after `te`.
fn push_window(v: &Vec<IndexTreeOffer>, ts: u64, te: u64, out: &mut Vec<u32>)
    requires
        sorted_entries(v@),
    ensures
        final(out)@ == old(out)@ + window(v@, ts, te),
{
    let mut lo: usize = 0;
    let mut hi: usize = v.len();
    while lo < hi
        invariant
            sorted_entries(v@),
            0 <= lo <= hi <= v.len(),
            forall|i: int| 0 <= i < lo ==> (#[trigger] v@[i]).start_date < ts,
            forall|i: int| hi <= i < v.len() ==> (#[trigger] v@[i]).start_date >= ts,
        decreases hi - lo,
    {
        let mid = lo + (hi - lo) / 2;
        if v[mid].start_date < ts {
            lo = mid + 1;
        } else {
            hi = mid;
        }
    }
    proof {
        lemma_window_none(v@.subrange(0, lo as int), ts, te);
    }
    let ghost base = old(out)@;
    let mut j: usize = lo;
    while j < v.len() && v[j].start_date <= te
        invariant
            sorted_entries(v@),
            lo <= j <= v.len(),
            out@ == base + window(v@.subrange(0, j as int), ts, te),
            forall|i: int| 0 <= i < lo ==> (#[trigger] v@[i]).start_date < ts,
            forall|i: int| lo <= i < v.len() ==> (#[trigger] v@[i]).start_date >= ts,
        decreases v.len() - j,
    {
        let e = v[j];
        proof {
            assert(v@.subrange(0, j + 1).drop_last() == v@.subrange(0, j as int));
            assert(v@.subrange(0, j + 1).last() == e);
        }
        if e.end_date <= te {
            out.push(e.idx);
        }
        j += 1;
    }
    proof {
        if j < v.len() {
            assert forall|i: int| 0 <= i < v@.subrange(j as int, v.len() as int).len()
                implies !in_window(#[trigger] v@.subrange(j as int, v.len() as int)[i], ts, te) by {
                assert(v@.subrange(j as int, v.len() as int)[i] == v@[j + i]);
                if i > 0 {
                    assert(entry_lt(v@[j as int], v@[j + i]));
                }
            }
            lemma_window_none(v@.subrange(j as int, v.len() as int), ts, te);
            lemma_window_concat(v@.subrange(0, j as int), v@.subrange(j as int, v.len() as int), ts, te);
            assert(v@.subrange(0, j as int) + v@.subrange(j as int, v.len() as int) == v@);
        } else {
            assert(v@.subrange(0, j as int) == v@);
        }
    }
}

/// A sequence of distinct region ids has at most as many elements as there are regions.
proof fn lemma_region_seq_len(v: Seq<int>)
    requires
        v.no_duplicates(),
        forall|i: int| 0 <= i < v.len() ==> 0 <= #[trigger] v[i] < 125,
    ensures
        v.len() <= 125,
{
    let r = vstd::set_lib::set_int_range(0, 125);
    vstd::set_lib::lemma_int_range(0, 125);
    v.unique_seq_to_set();
    assert(v.to_set().subset_of(r)) by {
        assert forall|x: int| v.to_set().contains(x) implies r.contains(x) by {
            let k = choose|k: int| 0 <= k < v.len() && v[k] == x;
        }
    }
    vstd::set_lib::lemma_len_subset(v.to_set(), r);
}

/// One region of the tree: its entries, keyed by rental duration in days, and
/// the ids of its child regions.
pub struct IndexTreeElement {
    pub offers: FxHashMap<u64, Vec<IndexTreeOffer>>,
    pub sub_regions: Vec<u8>,
}

/// The region index: one element per region of the fixed hierarchy.
pub struct IndexTree {
    pub regions: Vec<IndexTreeElement>,
}

impl IndexTree {
    /// Entries of region `r` with a duration of `d` days.
    pub open spec fn bucket(self, r: int, d: u64) -> Seq<IndexTreeOffer> {
        if self.regions[r].offers@.contains_key(d) {
            self.regions[r].offers@[d]@
        } else {
            Seq::empty()
        }
    }

    /// Each region lists its children in the fixed hierarchy, each once.
    pub open spec fn children_ok(self) -> bool {
        &&& forall|g: int, c: u8|
            0 <= g < 125 ==> (#[trigger] self.regions[g].sub_regions@.contains(c) <==> (0 < c < 125 && region_parent(c as int) == g))
        &&& forall|g: int| 0 <= g < 125 ==> (#[trigger] self.regions[g]).sub_regions@.no_duplicates()
    }

    /// One element per region, buckets in order, child lists as in the hierarchy.
    pub open spec fn wf(self) -> bool {
        &&& self.regions.len() == REGION_COUNT
        &&& forall|r: int, d: u64| 0 <= r < 125 ==> sorted_entries(#[trigger] self.bucket(r, d))
        &&& self.children_ok()
    }

    /// The store indexes that a search yields when it visits the regions of
    /// `order` in turn: for each, the entries of its `d`-day bucket that fall
    /// inside the window.
    pub open spec fn windows_of(self, order: Seq<int>, d: u64, ts: u64, te: u64) -> Seq<u32>
        decreases order.len(),
    {
        if order.len() == 0 {
            Seq::empty()
        } else {
            self.windows_of(order.drop_last(), d, ts, te) + window(self.bucket(order.last(), d), ts, te)
        }
    }

    /// Store indexes of the offers of the subtree of `region_id` whose duration is
    /// `number_of_days` and that fall inside the window `[ts, te]`: a depth-first
    /// walk of the subtree with an explicit stack visits each region once, in an
    /// order left open, and takes the matching entries of its bucket.
    pub fn get_available_offers(&self, region_id: u8, number_of_days: u64, ts: u64, te: u64) -> (r: Vec<u32>)
        requires
            self.wf(),
            region_id < 125,
        ensures
            exists|order: Seq<int>|
                {
                    &&& order.no_duplicates()
                    &&& forall|g: int| #[trigger] order.contains(g) <==> (0 <= g < 125 && in_subtree(g, region_id as int))
                    &&& r@ == self.windows_of(order, number_of_days, ts, te)
                },
    {
        let ghost root = region_id as int;
        let mut out: Vec<u32> = Vec::new();
        let mut stack: Vec<u8> = Vec::new();
        stack.push(region_id);
        let ghost mut visited: Seq<int> = Seq::empty();
        proof {
            assert forall|g: int| 0 <= g < 125 && in_subtree(g, root) implies (visited.contains(g)
                || exists|i: int| 0 <= i < stack@.len() && in_subtree(g, #[trigger] stack@[i] as int)) by {
                assert(stack@[0] as int == root);
            }
        }
        while stack.len() > 0
            invariant
                self.wf(),
                root == region_id as int,
                region_id < 125,
                forall|i: int| 0 <= i < stack@.len() ==> (#[trigger] stack@[i]) < 125 && in_subtree(stack@[i] as int, root),
                visited.no_duplicates(),
                forall|i: int| 0 <= i < visited.len() ==> 0 <= #[trigger] visited[i] < 125 && in_subtree(visited[i], root),
                forall|g: int| 0 <= g < 125 && in_subtree(g, root) ==> (visited.contains(g)
                    || exists|i: int| 0 <= i < stack@.len() && in_subtree(g, #[trigger] stack@[i] as int)),
                forall|g: int, i: int| 0 <= g < 125 && 0 <= i < stack@.len() && #[trigger] in_subtree(g, stack@[i] as int)
                    ==> !visited.contains(g),
                forall|g: int, i: int, j: int|
                    #![trigger in_subtree(g, stack@[i] as int), in_subtree(g, stack@[j] as int)]
                    0 <= g < 125 && 0 <= i < j < stack@.len() && in_subtree(g, stack@[i] as int)
                    ==> !in_subtree(g, stack@[j] as int),
                out@ == self.windows_of(visited, number_of_days, ts, te),
            decreases 125 - visited.len(),
        {
            let ghost st = stack@;
            let s = match stack.pop() {
                Some(s) => s,
                None => 0,
            };
            let ghost s0 = stack@;
            proof {
                assert(st.last() == s && s0 == st.drop_last());
                assert(in_subtree(s as int, s as int));
                assert(!visited.contains(s as int));
                lemma_region_seq_len(visited.push(s as int));
            }
            match fx_get(&self.regions[s as usize].offers, number_of_days) {
                Some(v) => {
                    assert(v@ == self.bucket(s as int, number_of_days));
                    push_window(v, ts, te, &mut out);
                },
                None => {
                    assert(self.bucket(s as int, number_of_days) == Seq::<IndexTreeOffer>::empty());
                    assert(window(Seq::<IndexTreeOffer>::empty(), ts, te) == Seq::<u32>::empty());
                    assert(out@ + Seq::<u32>::empty() == out@);
                },
            }
            let subs = &self.regions[s as usize].sub_regions;
            let mut j: usize = 0;
            while j < subs.len()
                invariant
                    j <= subs@.len(),
                    stack@ == s0 + subs@.take(j as int),
                decreases subs@.len() - j,
            {
                stack.push(subs[j]);
                proof {
                    assert(subs@.take(j + 1) == subs@.take(j as int).push(subs@[j as int]));
                }
                j += 1;
            }
            proof {
                assert(subs@.take(subs@.len() as int) == subs@);
                let ns = stack@;
                let vs = visited.push(s as int);
                assert(vs.drop_last() == visited);
                assert forall|c: u8| #[trigger] subs@.contains(c) implies 0 < c < 125 && region_parent(c as int) == s as int by {}
                assert forall|i: int| 0 <= i < ns.len() implies (#[trigger] ns[i]) < 125 && in_subtree(ns[i] as int, root) by {
                    if i < s0.len() {
                        assert(ns[i] == st[i]);
                    } else {
                        let c = subs@[i - s0.len()];
                        assert(subs@.contains(c));
                        lemma_child_in_subtree(c as int);
                        lemma_subtree_transitive(c as int, s as int, root);
                    }
                }
                assert forall|i: int| 0 <= i < vs.len() implies 0 <= #[trigger] vs[i] < 125 && in_subtree(vs[i], root) by {
                    if i < visited.len() {
                        assert(vs[i] == visited[i]);
                    }
                }
                assert forall|g: int| 0 <= g < 125 && in_subtree(g, root) implies (vs.contains(g)
                    || exists|i: int| 0 <= i < ns.len() && in_subtree(g, #[trigger] ns[i] as int)) by {
                    if visited.contains(g) {
                        let k = choose|k: int| 0 <= k < visited.len() && visited[k] == g;
                        assert(vs[k] == g);
                    } else {
                        let i = choose|i: int| 0 <= i < st.len() && in_subtree(g, #[trigger] st[i] as int);
                        if i < s0.len() {
                            assert(ns[i] == st[i]);
                        } else if g == s as int {
                            assert(vs[visited.len() as int] == g);
                        } else {
                            let c = lemma_below_a_child(g, s as int);
                            assert(subs@.contains(c as u8));
                            let k = choose|k: int| 0 <= k < subs@.len() && subs@[k] == c as u8;
                            assert(ns[s0.len() + k] == c as u8);
                        }
                    }
                }
                assert forall|g: int, i: int| 0 <= g < 125 && 0 <= i < ns.len() && #[trigger] in_subtree(g, ns[i] as int)
                    implies !vs.contains(g) by {
                    let last = st.len() - 1;
                    if i < s0.len() {
                        assert(ns[i] == st[i]);
                        assert(!visited.contains(g));
                        if g == s as int {
                            assert(in_subtree(g, st[last] as int));
                        }
                    } else {
                        let c = subs@[i - s0.len()];
                        assert(subs@.contains(c));
                        lemma_child_in_subtree(c as int);
                        lemma_subtree_transitive(g, c as int, s as int);
                        assert(in_subtree(g, st[last] as int));
                        lemma_subtree_below(g, c as int);
                        lemma_parent_below(c as int);
                    }
                    if vs.contains(g) && !visited.contains(g) {
                        assert(g == s as int);
                    }
                }
                assert forall|g: int, i: int, k: int|
                    #![trigger in_subtree(g, ns[i] as int), in_subtree(g, ns[k] as int)]
                    0 <= g < 125 && 0 <= i < k < ns.len() && in_subtree(g, ns[i] as int)
                    implies !in_subtree(g, ns[k] as int) by {
                    let last = st.len() - 1;
                    if k < s0.len() {
                        assert(ns[i] == st[i] && ns[k] == st[k]);
                    } else if i < s0.len() {
                        assert(ns[i] == st[i]);
                        let c = subs@[k - s0.len()];
                        assert(subs@.contains(c));
                        if in_subtree(g, c as int) {
                            lemma_child_in_subtree(c as int);
                            lemma_subtree_transitive(g, c as int, s as int);
                            assert(in_subtree(g, st[last] as int));
                        }
                    } else {
                        let c1 = subs@[i - s0.len()];
                        let c2 = subs@[k - s0.len()];
                        assert(subs@.contains(c1) && subs@.contains(c2));
                        assert(c1 != c2);
                        lemma_siblings_disjoint(g, c1 as int, c2 as int);
                    }
                }
                visited = vs;
            }
        }
        proof {
            assert forall|g: int| #[trigger] visited.contains(g) <==> (0 <= g < 125 && in_subtree(g, root)) by {
                if visited.contains(g) {
                    let k = choose|k: int| 0 <= k < visited.len() && visited[k] == g;
                }
            }
        }
        out
    }

    /// An empty index over the fixed region hierarchy.
    pub fn populate_with_regions() -> (r: IndexTree)
        ensures
            r.wf(),
            forall|g: int, d: u64| 0 <= g < 125 ==> (#[trigger] r.bucket(g, d)).len() == 0,
    {
        let mut regions: Vec<IndexTreeElement> = Vec::with_capacity(REGION_COUNT);
        let mut i: usize = 0;
        while i < REGION_COUNT
            invariant
                i <= REGION_COUNT,
                regions.len() == i,
                forall|g: int| 0 <= g < i ==> (#[trigger] regions[g]).offers@.dom() == Set::<u64>::empty(),
                forall|g: int| 0 <= g < i ==> (#[trigger] regions[g]).sub_regions@ == Seq::<u8>::empty(),
            decreases REGION_COUNT - i,
        {
            regions.push(IndexTreeElement { offers: fx_new(), sub_regions: Vec::new() });
            i += 1;
        }
        let mut c: u8 = 1;
        while c < 125
            invariant
                1 <= c <= 125,
                regions.len() == REGION_COUNT,
                forall|g: int| 0 <= g < 125 ==> (#[trigger] regions[g]).offers@.dom() == Set::<u64>::empty(),
                forall|g: int, x: u8|
                    0 <= g < 125 ==> (#[trigger] regions[g].sub_regions@.contains(x) <==> (0 < x < c && region_parent(x as int) == g)),
                forall|g: int| 0 <= g < 125 ==> (#[trigger] regions[g]).sub_regions@.no_duplicates(),
            decreases 125 - c,
        {
            let p = parent_region(c) as usize;
            let ghost before = regions@;
            let mut element = IndexTreeElement { offers: fx_new(), sub_regions: Vec::new() };
            std::mem::swap(&mut element, &mut regions[p]);
            let ghost subs = element.sub_regions@;
            element.sub_regions.push(c);
            regions.set(p, element);
            proof {
                assert(!subs.contains(c));
                assert forall|g: int, x: u8|
                    0 <= g < 125 implies (#[trigger] regions[g].sub_regions@.contains(x) <==> (0 < x < c + 1 && region_parent(x as int) == g)) by {
                    if g != p {
                        assert(regions[g] == before[g]);
                    } else {
                        assert(regions[g].sub_regions@ == subs.push(c));
                        if subs.push(c).contains(x) && x != c {
                            let k = choose|k: int| 0 <= k < subs.push(c).len() && subs.push(c)[k] == x;
                            assert(subs[k] == x);
                        }
                        if subs.contains(x) {
                            let k = choose|k: int| 0 <= k < subs.len() && subs[k] == x;
                            assert(subs.push(c)[k] == x);
                        }
                        if x == c {
                            assert(subs.push(c)[subs.len() as int] == x);
                        }
                    }
                }
                assert forall|g: int| 0 <= g < 125 implies (#[trigger] regions[g]).sub_regions@.no_duplicates() by {
                    if g != p {
                        assert(regions[g] == before[g]);
                    } else {
                        assert(regions[g].sub_regions@ == subs.push(c));
                        assert forall|a: int, b: int| 0 <= a < b < subs.push(c).len() implies subs.push(c)[a] != subs.push(c)[b] by {
                            if b == subs.len() {
                                assert(subs.contains(subs[a]));
                            }
                        }
                    }
                }
                assert forall|g: int| 0 <= g < 125 implies (#[trigger] regions[g]).offers@.dom() == Set::<u64>::empty() by {
                    if g != p {
                        assert(regions[g] == before[g]);
                    }
                }
            }
            c += 1;
        }
        let r = IndexTree { regions };
        assert forall|g: int, d: u64| 0 <= g < 125 implies (#[trigger] r.bucket(g, d)).len() == 0 by {
            assert(!r.regions[g].offers@.dom().contains(d));
        }
        r
    }

    /// Removes every entry; the regions stay.
    pub fn clear_offers(&mut self)
        requires
            old(self).wf(),
        ensures
            final(self).wf(),
            forall|g: int, d: u64| 0 <= g < 125 ==> (#[trigger] final(self).bucket(g, d)).len() == 0,
            forall|g: int| 0 <= g < 125 ==> (#[trigger] final(self).regions[g]).sub_regions@ == old(self).regions[g].sub_regions@,
    {
        let n = self.regions.len();
        let mut i: usize = 0;
        while i < n
            invariant
                n == self.regions.len() == REGION_COUNT,
                i <= n,
                forall|g: int| 0 <= g < i ==> (#[trigger] self.regions[g]).offers@.dom() == Set::<u64>::empty(),
                forall|g: int| 0 <= g < 125 ==> (#[trigger] self.regions[g]).sub_regions@ == old(self).regions[g].sub_regions@,
                old(self).children_ok(),
            decreases n - i,
        {
            let mut element = IndexTreeElement { offers: fx_new(), sub_regions: Vec::new() };
            std::mem::swap(&mut element, &mut self.regions[i]);
            fx_clear(&mut element.offers);
            self.regions.set(i, element);
            i += 1;
        }
        assert forall|g: int, d: u64| 0 <= g < 125 implies (#[trigger] self.bucket(g, d)).len() == 0 by {
            assert(!self.regions[g].offers@.dom().contains(d));
        }
        assert(self.children_ok()) by {
            assert forall|g: int, c: u8| 0 <= g < 125 implies (#[trigger] self.regions[g].sub_regions@.contains(c)
                <==> (0 < c < 125 && region_parent(c as int) == g)) by {
                assert(self.regions[g].sub_regions@ == old(self).regions[g].sub_regions@);
            }
            assert forall|g: int| 0 <= g < 125 implies (#[trigger] self.regions[g]).sub_regions@.no_duplicates() by {
                assert(self.regions[g].sub_regions@ == old(self).regions[g].sub_regions@);
            }
        }
    }

    /// Adds a reference to `offer` in the bucket of its duration in region
    /// `region_id`, keeping the bucket ordered by start date and then index.
    pub fn insert_offer(&mut self, region_id: u8, offer: &Offer)
        requires
            old(self).wf(),
            region_id < 125,
            offer.start_date <= offer.end_date,
            forall|i: int|
                0 <= i < old(self).bucket(region_id as int, duration_days(offer.start_date, offer.end_date)).len()
                ==> (#[trigger] old(self).bucket(region_id as int, duration_days(offer.start_date, offer.end_date))[i]).idx
                    != offer.idx,
        ensures
            final(self).wf(),
            forall|g: int, d: u64|
                0 <= g < 125 && (g != region_id || d != duration_days(offer.start_date, offer.end_date))
                ==> #[trigger] final(self).bucket(g, d) == old(self).bucket(g, d),
            forall|e: IndexTreeOffer|
                #[trigger] final(self).bucket(region_id as int, duration_days(offer.start_date, offer.end_date)).contains(e)
                <==> (old(self).bucket(region_id as int, duration_days(offer.start_date, offer.end_date)).contains(e)
                    || e == (IndexTreeOffer { start_date: offer.start_date, end_date: offer.end_date, idx: offer.idx })),
    {
        let entry = IndexTreeOffer { start_date: offer.start_date, end_date: offer.end_date, idx: offer.idx };
        let d: u64 = (offer.end_date - offer.start_date) / DAY_MS;
        let r = region_id as usize;
        let ghost old_bucket = self.bucket(r as int, d);
        let ghost old_tree = *self;
        let mut element = IndexTreeElement { offers: fx_new(), sub_regions: Vec::new() };
        std::mem::swap(&mut element, &mut self.regions[r]);
        let mut v: Vec<IndexTreeOffer> = match fx_remove(&mut element.offers, d) {
            Some(v) => v,
            None => Vec::new(),
        };
        assert(v@ == old_bucket);
        assert(d == duration_days(offer.start_date, offer.end_date));
        assert forall|i: int| 0 <= i < v.len() implies (#[trigger] v@[i]).idx != entry.idx by {
            assert(old_bucket[i] == v@[i]);
        }
        // first position whose entry orders after the new one
        let mut lo: usize = 0;
        let mut hi: usize = v.len();
        while lo < hi
            invariant
                v@ == old_bucket,
                sorted_entries(old_bucket),
                0 <= lo <= hi <= v.len(),
                forall|i: int| 0 <= i < lo ==> entry_lt(#[trigger] v@[i], entry),
                forall|i: int| hi <= i < v.len() ==> entry_lt(entry, #[trigger] v@[i]),
                forall|i: int| 0 <= i < v.len() ==> (#[trigger] v@[i]).idx != entry.idx,
            decreases hi - lo,
        {
            let mid = lo + (hi - lo) / 2;
            let m = v[mid];
            if m.start_date < entry.start_date || (m.start_date == entry.start_date && m.idx < entry.idx) {
                lo = mid + 1;
            } else {
                assert(entry_lt(entry, m));
                hi = mid;
            }
        }
        v.insert(lo, entry);
        assert(sorted_entries(v@)) by {
            assert forall|i: int, j: int| 0 <= i < j < v@.len() implies entry_lt(#[trigger] v@[i], #[trigger] v@[j]) by {
                if j < lo {
                } else if i < lo && j == lo {
                } else if i < lo {
                    assert(v@[j] == old_bucket[j - 1]);
                } else if i == lo {
                    assert(v@[j] == old_bucket[j - 1]);
                } else {
                    assert(v@[i] == old_bucket[i - 1]);
                    assert(v@[j] == old_bucket[j - 1]);
                }
            }
        }
        assert forall|e: IndexTreeOffer| #[trigger] v@.contains(e) <==> (old_bucket.contains(e) || e == entry) by {
            if v@.contains(e) {
                let k = choose|k: int| 0 <= k < v@.len() && v@[k] == e;
                if k < lo {
                    assert(old_bucket[k] == e);
                } else if k > lo {
                    assert(old_bucket[k - 1] == e);
                }
            }
            if old_bucket.contains(e) {
                let k = choose|k: int| 0 <= k < old_bucket.len() && old_bucket[k] == e;
                if k < lo {
                    assert(v@[k] == e);
                } else {
                    assert(v@[k + 1] == e);
                }
            }
            if e == entry {
                assert(v@[lo as int] == e);
            }
        }
        let ghost new_bucket = v@;
        fx_insert(&mut element.offers, d, v);
        self.regions.set(r, element);
        assert(self.bucket(r as int, d) == new_bucket);
        assert forall|g: int, dd: u64| 0 <= g < 125 && (g != r || dd != d)
            implies #[trigger] self.bucket(g, dd) == old_tree.bucket(g, dd) by {}
        assert forall|g: int, dd: u64| 0 <= g < 125 implies sorted_entries(#[trigger] self.bucket(g, dd)) by {
            if g != r || dd != d {
                assert(self.bucket(g, dd) == old_tree.bucket(g, dd));
            }
        }
        assert forall|g: int| 0 <= g < 125 implies (#[trigger] self.regions[g]).sub_regions@ == old_tree.regions[g].sub_regions@ by {}
        assert(self.children_ok()) by {
            assert forall|g: int, c: u8| 0 <= g < 125 implies (#[trigger] self.regions[g].sub_regions@.contains(c)
                <==> (0 < c < 125 && region_parent(c as int) == g)) by {
                assert(self.regions[g].sub_regions@ == old_tree.regions[g].sub_regions@);
            }
            assert forall|g: int| 0 <= g < 125 implies (#[trigger] self.regions[g]).sub_regions@.no_duplicates() by {
                assert(self.regions[g].sub_regions@ == old_tree.regions[g].sub_regions@);
            }
        }
    }
}

} // verus!
